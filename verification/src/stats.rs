//! Statistics of an index.

use vstd::prelude::*;

verus! {

/// What is known of an index as a whole.
#[derive(Clone, Copy, Debug, PartialEq, Eq, Structural)]
pub struct IndexStats {
    /// The number of documents that were indexed.
    pub n_docs: usize,
}

/// The statistics of an index run.
pub struct Stats {
    stats: IndexStats,
}

impl View for Stats {
    type V = IndexStats;

    closed spec fn view(&self) -> IndexStats {
        self.stats
    }
}

impl Stats {
    /// The statistics of a run that indexed `n_docs` documents.
    pub fn new(n_docs: usize) -> (s: Self)
        ensures
            s@ == (IndexStats { n_docs }),
    {
        Self { stats: IndexStats { n_docs } }
    }

    /// The record that is written out.
    pub fn index_stats(&self) -> (stats: IndexStats)
        ensures
            stats == self@,
    {
        self.stats
    }
}

} // verus!
