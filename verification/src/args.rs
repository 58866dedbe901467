//! The settings of a run, and the defaults that apply where one is left
//! open.

use crate::score::{Score, DEFAULT_THRESHOLD_BITS};
use vstd::prelude::*;

verus! {

/// The settings of a run.
#[derive(Debug, PartialEq, Eq)]
pub struct Args {
    /// Traverse the directories among the names.
    pub recurse: bool,
    /// Report the pairs whose score is at or below this.
    pub threshold: Option<Score>,
    /// The names of the candidates.
    pub filenames: Vec<String>,
    /// The names of the left images; with none, every candidate is compared
    /// with every other.
    pub left_filenames: Vec<String>,
    /// Resolve each representation when it is first needed, not all of them
    /// before the first comparison.
    pub no_prescale: bool,
    /// The most worker threads to start.
    pub max_threads: Option<usize>,
}

impl Args {
    /// The threshold of the run: the configured one, or one tenth.  There is
    /// always a threshold: no setting reports every pair.
    pub fn threshold_or_default(&self) -> (threshold: Score)
        ensures
            threshold == (match self.threshold {
                Some(configured) => configured,
                None => Score { bits: DEFAULT_THRESHOLD_BITS },
            }),
    {
        match self.threshold {
            Some(configured) => configured,
            None => Score::default_threshold(),
        }
    }

    /// The number of worker threads: the configured one, or as many as the
    /// machine was found to run at once.
    pub fn worker_threads(&self, detected: usize) -> (threads: usize)
        ensures
            threads == (match self.max_threads {
                Some(configured) => configured,
                None => detected,
            }),
    {
        match self.max_threads {
            Some(configured) => configured,
            None => detected,
        }
    }
}

} // verus!
