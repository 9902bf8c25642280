//! Matchers, which select paths of a tree.

use crate::repo_path::PathView;
use crate::repo_path::RepoPathBuf;
use vstd::prelude::*;

verus! {

/// What to visit in a directory.
#[derive(Debug, PartialEq, Eq)]
pub enum Visit {
    /// Everything in the directory is *guaranteed* to match, no need to check
    /// descendants
    AllRecursively,
    /// Some of the directory's contents may match.
    Specific,
    /// Nothing in the directory or its subdirectories will match.
    Nothing,
}

impl Visit {
    /// Whether nothing is to be visited.
    pub fn is_nothing(&self) -> (r: bool)
        ensures
            r == (*self is Nothing),
    {
        matches!(self, Visit::Nothing)
    }
}

/// Selects files and directories.
pub trait Matcher {
    /// Whether the file at `path` is selected. Unspecified, unless an
    /// implementation says more.
    open spec fn selects(&self, path: PathView) -> bool {
        arbitrary()
    }

    /// Whether the directory at `path` is to be visited. Unspecified, unless an
    /// implementation says more.
    open spec fn visits(&self, path: PathView) -> bool {
        arbitrary()
    }

    /// Whether the file at `path` is selected.
    fn matches(&self, path: &RepoPathBuf) -> (r: bool)
        ensures
            r == self.selects(path@),
    ;

    /// What to visit in the directory at `path`.
    fn visit(&self, path: &RepoPathBuf) -> (r: Visit)
        ensures
            !(r is Nothing) == self.visits(path@),
    ;
}

/// Selects everything.
#[derive(Clone, Copy, Debug, PartialEq, Eq)]
pub struct EverythingMatcher;

impl Matcher for EverythingMatcher {
    open spec fn selects(&self, path: PathView) -> bool {
        true
    }

    open spec fn visits(&self, path: PathView) -> bool {
        true
    }

    fn matches(&self, path: &RepoPathBuf) -> (r: bool) {
        true
    }

    fn visit(&self, path: &RepoPathBuf) -> (r: Visit)
        ensures
            r is AllRecursively,
    {
        Visit::AllRecursively
    }
}

} // verus!
