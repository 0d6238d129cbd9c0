//! Repos on the command line.

use vstd::prelude::*;
use crate::text::{contains, holds_text};

verus! {

/// What can go wrong with a repo.
#[derive(Debug, Clone, PartialEq, Eq)]
pub enum Error {
    /// No repo is at this path.
    RepoNotFound(String),
    /// The repo at this path is registered in the current context.
    RepoExists(String),
}

impl Error {
    pub fn to_string(&self) -> (r: String)
        ensures
            r@ == match self {
                Error::RepoNotFound(path) => "No repo found at path "@ + path@,
                Error::RepoExists(repo) => "The repo "@ + repo@
                    + " is already registered in the current context"@,
            },
    {
        match self {
            Error::RepoNotFound(path) => {
                let mut r = "No repo found at path ".to_owned();
                r.push_str(path.as_str());
                r
            },
            Error::RepoExists(repo) => {
                let mut r = "The repo ".to_owned();
                r.push_str(repo.as_str());
                r.push_str(" is already registered in the current context");
                r
            },
        }
    }
}

/// Whether the store refused a repo because the context has it.
pub fn is_repo_registered(message: &str) -> (r: bool)
    ensures
        r == holds_text(
            message@,
            "UNIQUE constraint failed: context_repo.context, context_repo.repo"@,
        ),
{
    contains(message, "UNIQUE constraint failed: context_repo.context, context_repo.repo")
}

/// The line of a repo in the list of repos.
pub fn list_line(repo: &crate::repo::Repo) -> (r: String)
    ensures
        r@ == "  "@ + repo@.path,
{
    let mut r = "  ".to_owned();
    r.push_str(repo.to_string().as_str());
    r
}

} // verus!
