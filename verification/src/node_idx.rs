use vstd::prelude::*;

verus! {

/// Index of a node of a [`Tree`](crate::Tree).
///
/// It holds the position of the node in the tree's storage together with the
/// memory state of the tree at the time the index was created. The index stays
/// valid as long as the node is not removed and the storage is not reorganized
/// by a memory reclaim.
#[derive(Clone, Copy, Debug, PartialEq, Eq, Structural, Hash)]
pub struct NodeIdx {
    pub(crate) pos: usize,
    pub(crate) state: usize,
}

impl NodeIdx {
    /// The index of the node at position `pos` of a tree in memory state `state`.
    pub open(crate) spec fn spec_new(pos: usize, state: usize) -> NodeIdx {
        NodeIdx { pos, state }
    }

    /// Position of the node in the storage of the tree.
    pub open(crate) spec fn spec_pos(&self) -> usize {
        self.pos
    }

    /// Memory state of the tree when the index was created.
    pub open(crate) spec fn spec_state(&self) -> usize {
        self.state
    }

    /// Returns the position of the indexed node in the storage of its tree.
    pub fn position(&self) -> (r: usize)
        ensures
            r == self.spec_pos(),
    {
        self.pos
    }
}

/// Reasons why a node index cannot be used on a tree.
#[derive(Clone, Copy, Debug, PartialEq, Eq, Structural)]
pub enum NodeIdxError {
    /// The referenced node has been removed from the tree.
    RemovedNode,
    /// The index does not point to a position of the tree's storage.
    OutOfBounds,
    /// The nodes of the tree have been reorganized to reclaim memory after the
    /// index was created.
    ReorganizedCollection,
}

} // verus!
