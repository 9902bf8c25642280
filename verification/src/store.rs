//! What is known of the store that trees are read from.

use crate::merge::SameChange;
use vstd::prelude::*;

verus! {

/// Options for merging trees.
#[derive(Clone, Copy, Debug, PartialEq, Eq, Structural)]
pub struct MergeOptions {
    /// Whether to resolve conflicts in which all sides made the same change.
    pub same_change: SameChange,
}

/// The properties of a store. The objects themselves are read from a backend.
#[derive(Clone, Copy, Debug, PartialEq, Eq, Structural)]
pub struct Store {
    merge_options: MergeOptions,
    concurrency: usize,
}

impl Store {
    /// A store with the given merge options, whose backend handles the given
    /// number of concurrent requests well.
    pub fn new(merge_options: MergeOptions, concurrency: usize) -> (r: Self)
        ensures
            r.options() == merge_options,
            r.parallel_reads() == concurrency,
    {
        Store { merge_options, concurrency }
    }

    /// The options for merging trees.
    pub closed spec fn options(self) -> MergeOptions {
        self.merge_options
    }

    /// How many concurrent requests the backend handles well.
    pub closed spec fn parallel_reads(self) -> usize {
        self.concurrency
    }

    /// The options for merging trees.
    pub fn merge_options(&self) -> (r: &MergeOptions)
        ensures
            *r == self.options(),
    {
        &self.merge_options
    }

    /// How many concurrent requests the backend handles well.
    pub fn concurrency(&self) -> (r: usize)
        ensures
            r == self.parallel_reads(),
    {
        self.concurrency
    }
}

} // verus!
