//! Command-line argument types for `git template`.

use vstd::prelude::*;

verus! {

/// A filesystem path.
#[verifier::external_type_specification]
#[verifier::external_body]
pub struct ExPathBuf(std::path::PathBuf);

/// Merge strategy option, mirroring `git merge -X`.
#[derive(Clone, Copy, Debug, PartialEq, Eq, Structural)]
pub enum StrategyOption {
    /// Record conflict markers in the working tree (default).
    Normal,
    /// Resolve conflicts by favoring the local side.
    Ours,
    /// Resolve conflicts by favoring the upstream/template side.
    Theirs,
    /// Resolve conflicts by combining both sides.
    Union,
}

impl Default for StrategyOption {
    fn default() -> (r: StrategyOption)
        ensures
            r == StrategyOption::Normal,
    {
        StrategyOption::Normal
    }
}

/// How the template repository's commit history appears in the local repo.
#[derive(Clone, Copy, Debug, PartialEq, Eq, Structural)]
pub enum HistoryArg {
    /// Merge commit whose second parent is the template tip (default).
    Squash,
    /// Single linear commit with no upstream parent.
    Linear,
    /// Replay each upstream commit individually (not supported for `init`).
    Replay,
}

impl Default for HistoryArg {
    fn default() -> (r: HistoryArg)
        ensures
            r == HistoryArg::Squash,
    {
        HistoryArg::Squash
    }
}

/// `git template`: create repositories from template repositories.
pub struct Cli {
    /// Path to the git repository (defaults to the current directory).
    pub repo: Option<std::path::PathBuf>,
    /// The subcommand to run.
    pub command: Command,
}

/// Subcommands for `git template`.
pub enum Command {
    /// Initialize the current repository from a template.
    Init {
        /// URL of the template repository.
        url: String,
        /// Name for this template entry (defaults to the basename of the URL).
        name: Option<String>,
        /// Upstream branch or tag to use (defaults to HEAD).
        branch: Option<String>,
        /// How the template's commit history appears in the local repository.
        history: HistoryArg,
        /// Keep `.gitvendors` and `.gitattributes` for future template syncing.
        keep_vendor: bool,
        /// Strategy option for merge conflict resolution.
        strategy_option: StrategyOption,
    },
}

} // verus!
