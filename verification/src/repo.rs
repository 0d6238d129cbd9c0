//! Repos represent any self-contained repository of artifacts.
//!
//! A repo can be a directory of files or a git repository, or, as a
//! degenerate case, a single flat file.

use vstd::prelude::*;
use crate::text::{
    has_at, replace_all, replaced, same_text, starts_with, strip_suffix, without_suffix,
};

verus! {

/// The view of an optional string.
pub open spec fn opt_view(o: Option<String>) -> Option<Seq<char>> {
    match o {
        Some(s) => Some(s@),
        None => None,
    }
}

/// What is known of where a repo lives.
pub struct LocationView {
    /// The local path, in the user's working files or in the tool's cache.
    pub path: Seq<char>,
    /// The URL to synchronise from.
    pub upstream: Option<Seq<char>>,
    /// The branch to synchronise from.
    pub branch: Option<Seq<char>>,
}

/// Where a repo lives.
#[derive(Debug, Clone, PartialEq, Eq, PartialOrd, Ord, Hash)]
pub struct Location {
    path: String,
    upstream: Option<String>,
    branch: Option<String>,
}

impl View for Location {
    type V = LocationView;

    closed spec fn view(&self) -> LocationView {
        LocationView {
            path: self.path@,
            upstream: opt_view(self.upstream),
            branch: opt_view(self.branch),
        }
    }
}

fn owned(o: Option<&str>) -> (r: Option<String>)
    ensures
        match o {
            Some(s) => r is Some && r.unwrap()@ == s@,
            None => r is None,
        },
{
    match o {
        Some(s) => Some(s.to_owned()),
        None => None,
    }
}

/// Whether the two optional strings hold the same text, or both none.
pub fn same_opt_text(a: &Option<String>, b: &Option<String>) -> (r: bool)
    ensures
        r == (opt_view(*a) == opt_view(*b)),
{
    match (a, b) {
        (Some(x), Some(y)) => same_text(x.as_str(), y.as_str()),
        (None, None) => true,
        _ => false,
    }
}

impl Location {
    /// A copy of the location.
    pub fn copy(&self) -> (r: Location)
        ensures
            r@ == self@,
    {
        Location {
            path: self.path.clone(),
            upstream: self.upstream.clone(),
            branch: self.branch.clone(),
        }
    }

    /// Whether the two locations are the same.
    pub fn same_as(&self, other: &Location) -> (r: bool)
        ensures
            r == (self@ == other@),
    {
        same_text(self.path.as_str(), other.path.as_str()) && same_opt_text(
            &self.upstream,
            &other.upstream,
        ) && same_opt_text(&self.branch, &other.branch)
    }

    /// A location in the local file system.
    pub fn new_local(path: String, upstream: Option<String>, branch: Option<String>) -> (r:
        Location)
        ensures
            r@ == (LocationView {
                path: path@,
                upstream: opt_view(upstream),
                branch: opt_view(branch),
            }),
    {
        Location { path, upstream, branch }
    }

    /// The URL to synchronise from, if one is known.
    pub fn get_upstream_url(&self) -> (r: Option<String>)
        ensures
            opt_view(r) == self@.upstream,
    {
        self.upstream.clone()
    }

    /// The branch to synchronise from, if one is known.
    pub fn get_default_branch(&self) -> (r: Option<String>)
        ensures
            opt_view(r) == self@.branch,
    {
        self.branch.clone()
    }

    /// Sets or forgets the URL to synchronise from.
    pub fn set_upstream_url(&mut self, url: Option<&str>)
        ensures
            final(self)@ == (LocationView {
                upstream: match url {
                    Some(s) => Some(s@),
                    None => None,
                },
                ..old(self)@
            }),
    {
        self.upstream = owned(url);
    }

    /// Sets or forgets the branch to synchronise from.
    pub fn set_default_branch(&mut self, branch: Option<&str>)
        ensures
            final(self)@ == (LocationView {
                branch: match branch {
                    Some(s) => Some(s@),
                    None => None,
                },
                ..old(self)@
            }),
    {
        self.branch = owned(branch);
    }

    /// The local path.
    pub fn to_string(&self) -> (r: String)
        ensures
            r@ == self@.path,
    {
        self.path.clone()
    }
}

/// A repository of artifacts.
#[derive(Debug, Clone, PartialEq, Eq, PartialOrd, Ord, Hash)]
pub struct Repo {
    location: Location,
}

impl View for Repo {
    type V = LocationView;

    closed spec fn view(&self) -> LocationView {
        self.location@
    }
}

/// The address of a repository as a browser takes it. An SSH address at
/// GitHub becomes the HTTPS address of the same repository, without the
/// `.git` at its end; any other address stays as it is.
pub open spec fn normalized_repo_url(url: Seq<char>) -> Seq<char> {
    if has_at(url, 0, "git@github.com:"@) {
        without_suffix(replaced(url, "git@github.com:"@, "https://github.com/"@), ".git"@)
    } else {
        url
    }
}

/// `git@github.com:owner/project.git` becomes
/// `https://github.com/owner/project`.
pub fn normalize_repo_url(url: &str) -> (r: String)
    ensures
        r@ == normalized_repo_url(url@),
{
    if starts_with(url, "git@github.com:") {
        proof {
            reveal_strlit("git@github.com:");
        }
        let replaced = replace_all(url, "git@github.com:", "https://github.com/");
        strip_suffix(replaced.as_str(), ".git")
    } else {
        url.to_owned()
    }
}

impl Repo {
    /// A copy of the repo.
    pub fn copy(&self) -> (r: Repo)
        ensures
            r@ == self@,
    {
        Repo { location: self.location.copy() }
    }

    /// Whether the two repos are the same.
    pub fn same_as(&self, other: &Repo) -> (r: bool)
        ensures
            r == (self@ == other@),
    {
        self.location.same_as(&other.location)
    }

    /// The URL to synchronise from, as it was given, if one is known.
    pub fn get_upstream_url(&self) -> (r: Option<String>)
        ensures
            opt_view(r) == self@.upstream,
    {
        self.location.get_upstream_url()
    }

    /// The branch to synchronise from, if one is known.
    pub fn get_branch(&self) -> (r: Option<String>)
        ensures
            opt_view(r) == self@.branch,
    {
        self.location.get_default_branch()
    }

    /// The repo at a location.
    pub fn new(location: Location) -> (r: Repo)
        ensures
            r@ == location@,
    {
        Repo { location }
    }

    /// The local path of the repo, as a string.
    pub fn path_as_string(&self) -> (r: String)
        ensures
            r@ == self@.path,
    {
        self.location.to_string()
    }

    /// The local path of the repo.
    pub fn path(&self) -> (r: String)
        ensures
            r@ == self@.path,
    {
        self.location.to_string()
    }

    /// The upstream URL, normalised, if one is known, or else the local path
    /// of the repo.
    pub fn get_url(&self) -> (r: String)
        ensures
            r@ == match self@.upstream {
                Some(url) => normalized_repo_url(url),
                None => self@.path,
            },
    {
        match self.location.get_upstream_url() {
            Some(url) => normalize_repo_url(url.as_str()),
            None => self.path_as_string(),
        }
    }

    /// Records where the repo synchronises from: the URL of its remote and
    /// the default branch there, as far as they are known.
    pub fn set_remote(&mut self, url: Option<&str>, branch: Option<&str>)
        ensures
            final(self)@ == (LocationView {
                path: old(self)@.path,
                upstream: match url {
                    Some(s) => Some(s@),
                    None => None,
                },
                branch: match branch {
                    Some(s) => Some(s@),
                    None => None,
                },
            }),
    {
        self.location.set_upstream_url(url);
        self.location.set_default_branch(branch);
    }

    /// The local path of the repo.
    pub fn to_string(&self) -> (r: String)
        ensures
            r@ == self@.path,
    {
        self.location.to_string()
    }
}

} // verus!
