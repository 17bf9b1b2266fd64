//! Identifiers of syntax nodes.
use vstd::prelude::*;

verus! {

/// The identifier of a node, unique within one syntax tree.
#[derive(Clone, Copy, Debug, PartialEq, Eq, Structural, Hash)]
pub struct NodeId {
    pub id: usize,
}

impl NodeId {
    /// The number that stands for the node.
    pub fn get(&self) -> (r: usize)
        ensures
            r == self.id,
    {
        self.id
    }
}

} // verus!
