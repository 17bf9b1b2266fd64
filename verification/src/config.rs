//! How a reduction is to be run.
use vstd::prelude::*;

use crate::node_types::KindTable;

verus! {

/// The settings of a reduction.
#[derive(Debug)]
pub struct Config<T> {
    /// Decides whether a program is interesting.
    pub check: T,
    /// Whether nodes are deleted even where the grammar asks for them.
    pub delete_non_optional: bool,
    /// How many workers to run.  There is at least one.
    pub jobs: usize,
    /// Reductions of fewer bytes than this are not tried.  It is at least one.
    pub min_reduction: usize,
    /// For a kind of node, the texts to try in its place.
    pub replacements: KindTable,
}

impl<T: Clone> Clone for Config<T> {
    fn clone(&self) -> (r: Self)
        ensures
            cloned(self.check, r.check),
            r.delete_non_optional == self.delete_non_optional,
            r.jobs == self.jobs,
            r.min_reduction == self.min_reduction,
            r.replacements@ == self.replacements@,
    {
        Config {
            check: self.check.clone(),
            delete_non_optional: self.delete_non_optional,
            jobs: self.jobs,
            min_reduction: self.min_reduction,
            replacements: self.replacements.clone(),
        }
    }
}

} // verus!
