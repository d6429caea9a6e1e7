//! Handles on the nodes of the document tree.

use vstd::prelude::*;

verus! {

/// The index of a node in the document tree.
#[derive(Copy, Clone, Debug, PartialEq, Eq, Structural)]
pub struct NodeId(pub u32);

impl NodeId {
    pub fn new(idx: u32) -> (r: Self)
        ensures
            r.0 == idx,
    {
        NodeId(idx)
    }

    pub fn idx(self) -> (r: u32)
        ensures
            r == self.0,
    {
        self.0
    }
}

} // verus!
