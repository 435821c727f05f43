//! Template repository support for Git: the decisions behind `git template`.
//!
//! Creating a repository from a template vendors the template, selects its
//! template files, asks for the values of its variables, renders the files
//! and commits.  This library holds what those steps decide and compute;
//! reading and writing files, the editor and the Git operations are left to
//! the caller.

use vstd::prelude::*;

pub mod cli;
pub mod config;
pub mod editor;
pub mod exe;
pub mod glob;
pub mod paths;
pub mod render;
pub mod text;

verus! {

/// A Git error.
#[verifier::external_type_specification]
#[verifier::external_body]
pub struct ExGitError(git2::Error);

/// Template repository support for a repository type.
pub trait TemplateRepository {
    /// Create the repository's content from a template.  Without an
    /// implementation of its own this does nothing and succeeds.
    fn from_template() -> (r: Result<(), git2::Error>)
        default_ensures
            r is Ok,
    {
        Ok(())
    }
}

} // verus!
