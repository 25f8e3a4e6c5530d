use vstd::prelude::*;

use crate::append::{lemma_first_jump_at, valid_dfs_seq};
use crate::memory::{after_removal, reclaim_moves, Auto, MemoryPolicy};
use crate::node_idx::NodeIdx;
use crate::node_mut::Side;
use crate::reclaim::{lemma_count_all, lemma_distinct_below};
use crate::traversal::Dfs;
use crate::tree::{NodeView, Tree, TreeView};

verus! {

impl<T> TreeView<T> {
    /// The tree built from the depth-first sequence `s`: its first item is
    /// the root and every other item the last child of the last preceding
    /// item one level higher.
    pub open spec fn from_dfs_seq(s: Seq<(usize, T)>) -> TreeView<T> {
        TreeView {
            nodes: seq![NodeView { data: Some(s[0].1), parent: None, children: Seq::empty() }],
            root: Some(0usize),
        }.extend_seq(s, s.len() as int)
    }
}

impl<T, M> Tree<T, M> {
    /// The depth-first sequence of the subtree rooted at `i`: for each of its
    /// nodes in depth-first order, its depth relative to `i` and its data.
    pub open spec fn dfs_seq(&self, i: int) -> Seq<(usize, T)> {
        Seq::new(
            self.pre_node(i).len(),
            |x: int|
                (
                    (self.depth_of(self.pre_node(i)[x] as int) - self.depth_of(i)) as usize,
                    self@.data(self.pre_node(i)[x] as int),
                ),
        )
    }

    /// The depth-first sequence of a subtree is valid and no longer than the
    /// storage of its tree.
    pub proof fn lemma_dfs_seq_valid(&self, i: int)
        requires
            self.wf(),
            self@.active(i),
        ensures
            valid_dfs_seq(self.dfs_seq(i)),
            self.dfs_seq(i).len() <= self@.n(),
    {
        self.lemma_pre_node_steps(i);
        self.lemma_pre_node_no_dup(i);
        self.lemma_pre_node_members(i);
        let order = self.pre_node(i);
        let s = self.dfs_seq(i);
        assert forall|x: int| 0 <= x < order.len() implies #[trigger] order[x] < self@.n() by {
            assert(self@.active(order[x] as int));
        }
        assert forall|x: int| 0 <= x < s.len() implies #[trigger] s[x].0 == self.depth_of(order[x] as int)
            - self.depth_of(i) by {
            assert(self@.active(order[x] as int));
            assert(self.wf_slot(order[x] as int));
        }
        assert(s[0].0 == 0);
        assert forall|k: int| 1 <= k < s.len() implies #[trigger] s[k].0 >= 1 by {
            assert(s[k].0 == self.depth_of(order[k] as int) - self.depth_of(i));
        }
        assert forall|k: int| 1 <= k < s.len() implies #[trigger] s[k].0 <= s[k - 1].0 + 1 by {
            assert(s[k].0 == self.depth_of(order[k] as int) - self.depth_of(i));
            assert(s[k - 1].0 == self.depth_of(order[k - 1] as int) - self.depth_of(i));
        }
        lemma_distinct_below(order, self@.n());
    }
}

/// A value that can be appended to a tree as a subtree.
pub trait SubTree<T>: Sized {
    /// Whether the value holds a subtree that can be appended.
    spec fn subtree_ok(&self) -> bool;

    /// The depth-first sequence of the subtree: for each node in depth-first
    /// order, its depth relative to the root of the subtree and its data.
    spec fn dfs_sequence(&self) -> Seq<(usize, T)>;

    /// Moves the subtree out as its depth-first sequence.
    fn into_dfs_sequence(self) -> (r: Vec<(usize, T)>)
        requires
            self.subtree_ok(),
        ensures
            r@ == self.dfs_sequence(),
            valid_dfs_seq(r@),
    ;
}

/// A subtree that has been moved out of a tree, held as its depth-first
/// sequence.
pub struct MovedSubTree<T> {
    seq: Vec<(usize, T)>,
}

impl<T> MovedSubTree<T> {
    #[verifier::type_invariant]
    spec fn inv(self) -> bool {
        valid_dfs_seq(self.seq@)
    }

    /// The depth-first sequence of the moved subtree.
    pub closed spec fn spec_seq(&self) -> Seq<(usize, T)> {
        self.seq@
    }

    /// Number of nodes of the moved subtree.
    pub fn len(&self) -> (r: usize)
        ensures
            r == self.spec_seq().len(),
    {
        self.seq.len()
    }

    /// Moves the subtree into a new tree whose root is the root of the subtree.
    pub fn into_new_tree(self) -> (tree: Tree<T, Auto>)
        requires
            self.spec_seq().len() < usize::MAX,
        ensures
            tree.wf(),
            tree@ == TreeView::from_dfs_seq(self.spec_seq()),
            tree.dfs_seq(0) == self.spec_seq(),
    {
        proof {
            use_type_invariant(&self);
        }
        let ghost s = self.seq@;
        let mut rest = self.seq;
        let (_, root_value) = rest.remove(0);
        let mut tree: Tree<T, Auto> = Tree::new(root_value);
        proof {
            assert(rest@ =~= s.subrange(1, s.len() as int));
            assert(tree@.nodes =~= seq![NodeView { data: Some(s[0].1), parent: None, children: Seq::empty() }]);
            lemma_first_jump_at(s, 1, s.len() as int);
        }
        let ghost v = tree@;
        let _ = tree.extend_from(rest, Ghost(s));
        proof {
            tree.lemma_extend_dfs_seq(v, s);
        }
        tree
    }
}

impl<T> SubTree<T> for MovedSubTree<T> {
    open spec fn subtree_ok(&self) -> bool {
        true
    }

    open spec fn dfs_sequence(&self) -> Seq<(usize, T)> {
        self.spec_seq()
    }

    fn into_dfs_sequence(self) -> (r: Vec<(usize, T)>) {
        proof {
            use_type_invariant(&self);
        }
        self.seq
    }
}

impl<T, M: MemoryPolicy> SubTree<T> for Tree<T, M> {
    open spec fn subtree_ok(&self) -> bool {
        self.wf() && self@.root is Some
    }

    open spec fn dfs_sequence(&self) -> Seq<(usize, T)> {
        self.dfs_seq(self@.root->0 as int)
    }

    fn into_dfs_sequence(self) -> (r: Vec<(usize, T)>) {
        let mut tree = self;
        let root = tree.root.unwrap();
        let idx = NodeIdx { pos: root, state: tree.state };
        proof {
            tree.lemma_dfs_seq_valid(root as int);
        }
        tree.take_dfs_sequence(&idx)
    }
}

/// A subtree cloned out of a tree, held as its depth-first sequence; the
/// tree it was cloned from is unchanged.
pub struct ClonedSubTree<T> {
    seq: Vec<(usize, T)>,
}

impl<T> ClonedSubTree<T> {
    #[verifier::type_invariant]
    spec fn inv(self) -> bool {
        valid_dfs_seq(self.seq@)
    }

    /// The depth-first sequence of the cloned subtree.
    pub closed spec fn spec_seq(&self) -> Seq<(usize, T)> {
        self.seq@
    }

    /// Number of nodes of the cloned subtree.
    pub fn len(&self) -> (r: usize)
        ensures
            r == self.spec_seq().len(),
    {
        self.seq.len()
    }
}

impl<T> SubTree<T> for ClonedSubTree<T> {
    open spec fn subtree_ok(&self) -> bool {
        true
    }

    open spec fn dfs_sequence(&self) -> Seq<(usize, T)> {
        self.spec_seq()
    }

    fn into_dfs_sequence(self) -> (r: Vec<(usize, T)>) {
        proof {
            use_type_invariant(&self);
        }
        self.seq
    }
}

/// A subtree copied out of a tree, held as its depth-first sequence; the
/// tree it was copied from is unchanged.
pub struct CopiedSubTree<T> {
    seq: Vec<(usize, T)>,
}

impl<T> CopiedSubTree<T> {
    #[verifier::type_invariant]
    spec fn inv(self) -> bool {
        valid_dfs_seq(self.seq@)
    }

    /// The depth-first sequence of the copied subtree.
    pub closed spec fn spec_seq(&self) -> Seq<(usize, T)> {
        self.seq@
    }

    /// Number of nodes of the copied subtree.
    pub fn len(&self) -> (r: usize)
        ensures
            r == self.spec_seq().len(),
    {
        self.seq.len()
    }
}

impl<T> SubTree<T> for CopiedSubTree<T> {
    open spec fn subtree_ok(&self) -> bool {
        true
    }

    open spec fn dfs_sequence(&self) -> Seq<(usize, T)> {
        self.spec_seq()
    }

    fn into_dfs_sequence(self) -> (r: Vec<(usize, T)>) {
        proof {
            use_type_invariant(&self);
        }
        self.seq
    }
}

impl<T: Copy, M: MemoryPolicy> Tree<T, M> {
    /// Copies the subtree rooted at the node as a subtree that can be
    /// appended to a tree, this one included; this tree is unchanged.
    pub fn as_copied_subtree(&self, idx: &NodeIdx) -> (r: CopiedSubTree<T>)
        requires
            self.wf(),
            self.valid_idx(*idx),
        ensures
            r.spec_seq() == self.dfs_seq(idx.spec_pos() as int),
    {
        let i = idx.pos;
        let order = self.dfs_positions(i);
        let base = self.depth(idx);
        proof {
            self.lemma_pre_node_members(i as int);
            self.lemma_dfs_seq_valid(i as int);
        }
        let ghost s = self.dfs_seq(i as int);
        let mut out: Vec<(usize, T)> = Vec::new();
        let mut k: usize = 0;
        while k < order.len()
            invariant
                self.wf(),
                self.valid_idx(*idx),
                i == idx.spec_pos(),
                base == self.depth_of(i as int),
                order@ == self.pre_node(i as int),
                s == self.dfs_seq(i as int),
                forall|x: int| 0 <= x < order@.len() ==> self@.active(#[trigger] order@[x] as int)
                    && self.depth_of(order@[x] as int) >= self.depth_of(i as int),
                k <= order@.len(),
                out@.len() == k,
                forall|x: int| 0 <= x < k ==> #[trigger] out@[x] == s[x],
            decreases order@.len() - k,
        {
            let j = NodeIdx { pos: order[k], state: self.state };
            let d = self.depth(&j);
            let v = *self.data(&j);
            out.push((d - base, v));
            k = k + 1;
        }
        proof {
            assert(out@ =~= s);
        }
        CopiedSubTree { seq: out }
    }
}

/// Whether `c` is a clone of the depth-first sequence `s`: same depths, and
/// each value a clone of the corresponding one.
pub open spec fn cloned_seq<T: Clone>(s: Seq<(usize, T)>, c: Seq<(usize, T)>) -> bool {
    &&& c.len() == s.len()
    &&& forall|k: int| 0 <= k < s.len() ==> (#[trigger] c[k]).0 == s[k].0 && cloned(s[k].1, c[k].1)
}

impl<T: Clone, M: MemoryPolicy> Tree<T, M> {
    /// The depth-first sequence of the subtree rooted at the node, with
    /// cloned data.
    fn cloned_dfs_sequence(&self, idx: &NodeIdx) -> (r: Vec<(usize, T)>)
        requires
            self.wf(),
            self.valid_idx(*idx),
        ensures
            cloned_seq(self.dfs_seq(idx.spec_pos() as int), r@),
            valid_dfs_seq(r@),
            r@.len() <= self@.n(),
    {
        let i = idx.pos;
        let order = self.dfs_positions(i);
        let base = self.depth(idx);
        proof {
            self.lemma_pre_node_members(i as int);
            self.lemma_dfs_seq_valid(i as int);
        }
        let ghost s = self.dfs_seq(i as int);
        let mut out: Vec<(usize, T)> = Vec::new();
        let mut k: usize = 0;
        while k < order.len()
            invariant
                self.wf(),
                self.valid_idx(*idx),
                i == idx.spec_pos(),
                base == self.depth_of(i as int),
                order@ == self.pre_node(i as int),
                s == self.dfs_seq(i as int),
                forall|x: int| 0 <= x < order@.len() ==> self@.active(#[trigger] order@[x] as int)
                    && self.depth_of(order@[x] as int) >= self.depth_of(i as int),
                k <= order@.len(),
                out@.len() == k,
                forall|x: int| 0 <= x < k ==> (#[trigger] out@[x]).0 == s[x].0 && cloned(s[x].1, out@[x].1),
            decreases order@.len() - k,
        {
            let j = NodeIdx { pos: order[k], state: self.state };
            let d = self.depth(&j);
            let v = self.data(&j).clone();
            out.push((d - base, v));
            k = k + 1;
        }
        proof {
            assert forall|x: int| 1 <= x < out@.len() implies #[trigger] out@[x].0 <= out@[x - 1].0 + 1 by {
                assert(s[x].0 <= s[x - 1].0 + 1);
            }
            assert forall|x: int| 1 <= x < out@.len() implies #[trigger] out@[x].0 >= 1 by {
                assert(s[x].0 >= 1);
            }
        }
        out
    }

    /// Clones the subtree rooted at the node as a subtree that can be
    /// appended to a tree; this tree is unchanged.
    pub fn as_cloned_subtree(&self, idx: &NodeIdx) -> (r: ClonedSubTree<T>)
        requires
            self.wf(),
            self.valid_idx(*idx),
        ensures
            cloned_seq(self.dfs_seq(idx.spec_pos() as int), r.spec_seq()),
            r.spec_seq().len() <= self@.n(),
    {
        let seq = self.cloned_dfs_sequence(idx);
        ClonedSubTree { seq }
    }

    /// Clones the subtree rooted at the node into a new tree whose root is a
    /// clone of the node; this tree is unchanged.
    pub fn clone_as_tree(&self, idx: &NodeIdx) -> (tree: Tree<T, Auto>)
        requires
            self.wf(),
            self.valid_idx(*idx),
        ensures
            tree.wf(),
            cloned_seq(self.dfs_seq(idx.spec_pos() as int), tree.dfs_seq(0)),
            tree@.num_nodes() == self.dfs_seq(idx.spec_pos() as int).len(),
    {
        let seq = self.cloned_dfs_sequence(idx);
        let moved = MovedSubTree { seq };
        let tree = moved.into_new_tree();
        proof {
            assert forall|x: int| 0 <= x < tree@.n() implies (#[trigger] tree@.nodes[x]).data is Some by {}
            lemma_count_all(tree@.nodes);
        }
        tree
    }
}

impl<T, M: MemoryPolicy> Tree<T, M> {
    /// Removes the subtree rooted at the node without reclaiming memory and
    /// returns its depth-first sequence.
    pub(crate) fn take_dfs_sequence(&mut self, idx: &NodeIdx) -> (r: Vec<(usize, T)>)
        requires
            old(self).wf(),
            old(self).valid_idx(*idx),
        ensures
            final(self).wf(),
            r@ == old(self).dfs_seq(idx.spec_pos() as int),
            final(self)@ == old(self).spec_prune(idx.spec_pos() as int),
            final(self).memory_state() == old(self).memory_state(),
    {
        let i = idx.pos;
        let order = self.dfs_positions(i);
        let base = self.depth(idx);
        let ghost old_tree = *self;
        proof {
            self.lemma_pre_node_members(i as int);
        }
        let mut depths: Vec<usize> = Vec::new();
        let mut k: usize = 0;
        while k < order.len()
            invariant
                self.wf(),
                *self == old_tree,
                self.valid_idx(*idx),
                i == idx.spec_pos(),
                base == self.depth_of(i as int),
                order@ == self.pre_node(i as int),
                forall|x: int| 0 <= x < order@.len() ==> self@.active(#[trigger] order@[x] as int)
                    && self.depth_of(order@[x] as int) >= self.depth_of(i as int),
                k <= order@.len(),
                depths@.len() == k,
                forall|x: int| 0 <= x < k ==> #[trigger] depths@[x] == self.depth_of(order@[x] as int) - base,
            decreases order@.len() - k,
        {
            let d = self.depth(&NodeIdx { pos: order[k], state: self.state });
            depths.push(d - base);
            k = k + 1;
        }
        let data = self.remove_subtree_lazy::<Dfs>(idx);
        let mut out: Vec<(usize, T)> = Vec::new();
        let mut m: usize = 0;
        for d in it: data.into_iter()
            invariant
                it.seq().len() == order@.len(),
                m == it.index(),
                depths@.len() == order@.len(),
                order@ == old_tree.pre_node(i as int),
                forall|x: int| 0 <= x < it.seq().len() ==> #[trigger] it.seq()[x] == Some(
                    old_tree@.data(order@[x] as int),
                ),
                forall|x: int| 0 <= x < order@.len() ==> #[trigger] depths@[x] == old_tree.depth_of(order@[x] as int)
                    - old_tree.depth_of(i as int),
                out@.len() == m,
                forall|x: int| 0 <= x < m ==> #[trigger] out@[x] == old_tree.dfs_seq(i as int)[x],
        {
            proof {
                assert(it.seq()[m as int] == d);
            }
            out.push((depths[m], d.unwrap()));
            m = m + 1;
        }
        proof {
            assert(out@ =~= old_tree.dfs_seq(i as int));
        }
        out
    }

    /// Appends the valid depth-first sequence `subtree` as the
    /// `child_position`-th child of the node; returns the index of the new
    /// child.
    pub(crate) fn append_subtree_as_child(&mut self, idx: &NodeIdx, subtree: Vec<(usize, T)>, child_position: usize) -> (r:
        NodeIdx)
        requires
            old(self).wf(),
            old(self).valid_idx(*idx),
            valid_dfs_seq(subtree@),
            child_position <= old(self)@.children(idx.spec_pos() as int).len(),
            old(self)@.n() + subtree@.len() + 1 < usize::MAX,
        ensures
            final(self).wf(),
            final(self).memory_state() == old(self).memory_state(),
            final(self)@ == old(self)@.append_seq(
                idx.spec_pos() as int,
                child_position as int,
                subtree@,
                subtree@.len() as int,
            ),
            final(self).idx_at(r, old(self)@.n() as int),
            final(self).valid_idx(r),
            final(self).dfs_seq(old(self)@.n() as int) == subtree@,
    {
        let r = self.try_append_subtree_as_child(idx, subtree, child_position);
        r.unwrap()
    }

    /// Appends the `subtree` as the new right-most child of the node: the
    /// root of the subtree becomes the child and the other nodes keep their
    /// position relative to it. Returns the index of the new child.
    pub fn push_child_tree<S: SubTree<T>>(&mut self, idx: &NodeIdx, subtree: S) -> (r: NodeIdx)
        requires
            old(self).wf(),
            old(self).valid_idx(*idx),
            subtree.subtree_ok(),
            old(self)@.n() + subtree.dfs_sequence().len() + 1 < usize::MAX,
        ensures
            final(self).wf(),
            final(self).memory_state() == old(self).memory_state(),
            final(self)@ == old(self)@.append_seq(
                idx.spec_pos() as int,
                old(self)@.children(idx.spec_pos() as int).len() as int,
                subtree.dfs_sequence(),
                subtree.dfs_sequence().len() as int,
            ),
            final(self).idx_at(r, old(self)@.n() as int),
            final(self).valid_idx(r),
            final(self).dfs_seq(old(self)@.n() as int) == subtree.dfs_sequence(),
    {
        let s = subtree.into_dfs_sequence();
        let position = self.nodes[idx.pos].children.len();
        self.append_subtree_as_child(idx, s, position)
    }

    /// Appends the `subtree` as the immediate sibling of the node on the given
    /// `side`: the root of the subtree becomes a child of the node's parent
    /// and the other nodes keep their position relative to it. Returns the
    /// index of the new sibling. The node must not be the root.
    pub fn push_sibling_tree<S: SubTree<T>>(&mut self, idx: &NodeIdx, side: Side, subtree: S) -> (r: NodeIdx)
        requires
            old(self).wf(),
            old(self).valid_idx(*idx),
            old(self)@.parent(idx.spec_pos() as int) is Some,
            subtree.subtree_ok(),
            old(self)@.n() + subtree.dfs_sequence().len() + 1 < usize::MAX,
        ensures
            final(self).wf(),
            final(self).memory_state() == old(self).memory_state(),
            final(self)@ == old(self)@.append_seq(
                old(self)@.parent(idx.spec_pos() as int)->0 as int,
                old(self).sibling_position(idx.spec_pos() as int, side),
                subtree.dfs_sequence(),
                subtree.dfs_sequence().len() as int,
            ),
            final(self).idx_at(r, old(self)@.n() as int),
            final(self).valid_idx(r),
            final(self).dfs_seq(old(self)@.n() as int) == subtree.dfs_sequence(),
            final(self)@.parent(old(self)@.n() as int) == old(self)@.parent(idx.spec_pos() as int),
            match side {
                Side::Right => final(self)@.sibling_index(old(self)@.n() as int) == final(self)@.sibling_index(idx.spec_pos() as int) + 1,
                Side::Left => final(self)@.sibling_index(idx.spec_pos() as int) == final(self)@.sibling_index(old(self)@.n() as int) + 1,
            },
    {
        let ghost before = *self;
        let ghost s_seq = subtree.dfs_sequence();
        let p = self.nodes[idx.pos].parent.unwrap();
        let s = self.sibling_idx(idx);
        proof {
            assert(self.wf_slot(idx.spec_pos() as int));
            assert(self.wf_slot(p as int));
        }
        let position = match side {
            Side::Left => s,
            Side::Right => s + 1,
        };
        let seq = subtree.into_dfs_sequence();
        let r = self.append_subtree_as_child(&NodeIdx { pos: p, state: self.state }, seq, position);
        proof {
            crate::siblings::law_push_sibling_tree_is_adjacent(&before, self, idx.spec_pos() as int, side, s_seq);
        }
        r
    }

    /// Removes the subtree rooted at the node from the tree and returns it as
    /// a moved subtree, to be appended elsewhere. The memory policy may then
    /// reclaim closed positions, which invalidates all indices.
    pub fn into_subtree(&mut self, idx: &NodeIdx) -> (r: MovedSubTree<T>)
        requires
            old(self).wf(),
            old(self).valid_idx(*idx),
        ensures
            final(self).wf(),
            r.spec_seq() == old(self).dfs_seq(idx.spec_pos() as int),
            r.spec_seq().len() <= old(self)@.n(),
            final(self)@ == after_removal::<T, M>(old(self).spec_prune(idx.spec_pos() as int)),
            reclaim_moves::<T, M>(old(self).spec_prune(idx.spec_pos() as int)) <==> final(self).memory_state() != old(self).memory_state(),
    {
        proof {
            self.lemma_dfs_seq_valid(idx.spec_pos() as int);
        }
        let seq = self.take_dfs_sequence(idx);
        self.reclaim_if_needed();
        MovedSubTree { seq }
    }

    /// Removes the subtree rooted at the node from the tree and moves it into
    /// a new tree whose root is the node. The memory policy may then reclaim
    /// closed positions, which invalidates all indices.
    pub fn into_new_tree(&mut self, idx: &NodeIdx) -> (tree: Tree<T, Auto>)
        requires
            old(self).wf(),
            old(self).valid_idx(*idx),
        ensures
            final(self).wf(),
            tree.wf(),
            tree@ == TreeView::from_dfs_seq(old(self).dfs_seq(idx.spec_pos() as int)),
            tree.dfs_seq(0) == old(self).dfs_seq(idx.spec_pos() as int),
            final(self)@ == after_removal::<T, M>(old(self).spec_prune(idx.spec_pos() as int)),
            reclaim_moves::<T, M>(old(self).spec_prune(idx.spec_pos() as int)) <==> final(self).memory_state() != old(self).memory_state(),
    {
        let moved = self.into_subtree(idx);
        moved.into_new_tree()
    }
}

} // verus!
