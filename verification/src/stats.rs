//! What a reduction came to.
use std::time::Duration;

use vstd::prelude::*;

verus! {

/// What one pass came to.
#[derive(Debug)]
pub struct Pass {
    pub duration: Duration,
    /// How many bytes the program had before the pass.
    pub start_size: usize,
    /// How many bytes the program had after the pass.
    pub end_size: usize,
}

/// What all passes came to.
#[derive(Debug)]
pub struct Stats {
    pub duration: Duration,
    /// How many bytes the program had at first.
    pub start_size: usize,
    /// How many bytes the program had in the end.
    pub end_size: usize,
    /// The passes, first to last.
    pub passes: Vec<Pass>,
}

} // verus!
