use vstd::prelude::*;

use crate::memory::MemoryPolicy;
use crate::node_idx::NodeIdx;
use crate::tree::Tree;

verus! {

/// A node of a tree: a shared reference to the tree together with the index
/// of the node.
pub struct Node<'a, T, M> {
    pub(crate) tree: &'a Tree<T, M>,
    pub(crate) idx: NodeIdx,
}

impl<'a, T, M> Node<'a, T, M> {
    /// The tree the node belongs to.
    pub open(crate) spec fn spec_tree(&self) -> &'a Tree<T, M> {
        self.tree
    }

    /// The index of the node.
    pub open(crate) spec fn spec_idx(&self) -> NodeIdx {
        self.idx
    }
}

impl<'a, T, M: MemoryPolicy> Node<'a, T, M> {
    /// Index of the node.
    pub fn idx(&self) -> (r: NodeIdx)
        ensures
            r == self.spec_idx(),
    {
        self.idx
    }

    /// Data of the node.
    pub fn data(&self) -> (r: &'a T)
        requires
            self.spec_tree().wf(),
            self.spec_tree().valid_idx(self.spec_idx()),
        ensures
            *r == self.spec_tree()@.data(self.spec_idx().spec_pos() as int),
    {
        self.tree.data(&self.idx)
    }

    /// Whether the node is the root of its tree.
    pub fn is_root(&self) -> (r: bool)
        requires
            self.spec_tree().wf(),
            self.spec_tree().valid_idx(self.spec_idx()),
        ensures
            r == (self.spec_tree()@.parent(self.spec_idx().spec_pos() as int) is None),
    {
        self.tree.is_root(&self.idx)
    }

    /// Whether the node has no children.
    pub fn is_leaf(&self) -> (r: bool)
        requires
            self.spec_tree().wf(),
            self.spec_tree().valid_idx(self.spec_idx()),
        ensures
            r == (self.spec_tree()@.children(self.spec_idx().spec_pos() as int).len() == 0),
    {
        self.tree.is_leaf(&self.idx)
    }

    /// Number of children of the node.
    pub fn num_children(&self) -> (r: usize)
        requires
            self.spec_tree().wf(),
            self.spec_tree().valid_idx(self.spec_idx()),
        ensures
            r == self.spec_tree()@.children(self.spec_idx().spec_pos() as int).len(),
    {
        self.tree.num_children(&self.idx)
    }

    /// Depth of the node: number of edges between it and the root.
    pub fn depth(&self) -> (r: usize)
        requires
            self.spec_tree().wf(),
            self.spec_tree().valid_idx(self.spec_idx()),
        ensures
            r == self.spec_tree().depth_of(self.spec_idx().spec_pos() as int),
    {
        self.tree.depth(&self.idx)
    }

    /// Position of the node among the children of its parent; zero for the root.
    pub fn sibling_idx(&self) -> (r: usize)
        requires
            self.spec_tree().wf(),
            self.spec_tree().valid_idx(self.spec_idx()),
        ensures
            r == self.spec_tree()@.sibling_index(self.spec_idx().spec_pos() as int),
    {
        self.tree.sibling_idx(&self.idx)
    }

    /// The parent of the node; `None` for the root.
    pub fn parent(&self) -> (r: Option<Node<'a, T, M>>)
        requires
            self.spec_tree().wf(),
            self.spec_tree().valid_idx(self.spec_idx()),
        ensures
            r is Some <==> self.spec_tree()@.parent(self.spec_idx().spec_pos() as int) is Some,
            r is Some ==> r->0.spec_tree() == self.spec_tree() && self.spec_tree().idx_at(
                r->0.spec_idx(),
                self.spec_tree()@.parent(self.spec_idx().spec_pos() as int)->0 as int,
            ),
    {
        match self.tree.parent(&self.idx) {
            Some(p) => Some(Node { tree: self.tree, idx: p }),
            None => None,
        }
    }

    /// The `child_index`-th child of the node; `None` if there is no such child.
    pub fn child(&self, child_index: usize) -> (r: Option<Node<'a, T, M>>)
        requires
            self.spec_tree().wf(),
            self.spec_tree().valid_idx(self.spec_idx()),
        ensures
            r is Some <==> child_index < self.spec_tree()@.children(self.spec_idx().spec_pos() as int).len(),
            r is Some ==> r->0.spec_tree() == self.spec_tree() && self.spec_tree().idx_at(
                r->0.spec_idx(),
                self.spec_tree()@.children(self.spec_idx().spec_pos() as int)[child_index as int] as int,
            ),
    {
        match self.tree.child(&self.idx, child_index) {
            Some(c) => Some(Node { tree: self.tree, idx: c }),
            None => None,
        }
    }
}

impl<T, M: MemoryPolicy> Tree<T, M> {
    /// The node with the given valid index.
    pub fn node<'a>(&'a self, idx: &NodeIdx) -> (r: Node<'a, T, M>)
        requires
            self.wf(),
            self.valid_idx(*idx),
        ensures
            r.spec_tree() == self,
            r.spec_idx() == *idx,
    {
        Node { tree: self, idx: *idx }
    }

    /// The node with the given index if it is valid; otherwise the reason
    /// why it is not.
    pub fn try_node<'a>(&'a self, idx: &NodeIdx) -> (r: Result<Node<'a, T, M>, crate::node_idx::NodeIdxError>)
        requires
            self.wf(),
        ensures
            match r {
                Ok(node) => self.valid_idx(*idx) && node.spec_tree() == self && node.spec_idx() == *idx,
                Err(e) => self.idx_error(*idx) == Some(e),
            },
    {
        match self.node_idx_error(idx) {
            None => Ok(Node { tree: self, idx: *idx }),
            Some(e) => Err(e),
        }
    }

    /// The node with the given index, or `None` if the index is not valid.
    pub fn get_node<'a>(&'a self, idx: &NodeIdx) -> (r: Option<Node<'a, T, M>>)
        requires
            self.wf(),
        ensures
            r is Some <==> self.valid_idx(*idx),
            r is Some ==> r->0.spec_tree() == self && r->0.spec_idx() == *idx,
    {
        match self.node_idx_error(idx) {
            None => Some(Node { tree: self, idx: *idx }),
            Some(_) => None,
        }
    }
}

} // verus!
