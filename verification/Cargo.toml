[package]
name = "git_template"
version = "0.1.0"
edition = "2021"
publish = false

[dependencies]
clap = { version = "=4.6.7", features = ["derive"] }
git2 = "=0.20.4"
git-vendor = "=0.2.0"
globset = "=0.4.21"
minijinja = "=2.24.0"
serde = { version = "=1.0.229", features = ["derive"] }
toml = "=1.1.8"
