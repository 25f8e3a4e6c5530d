use vstd::prelude::*;

use crate::memory::{after_removal, reclaim_moves, MemoryPolicy};
use crate::node_idx::NodeIdx;
use crate::traversal::{lemma_same_items_same_set, Dfs, Traverser};
use crate::tree::{lemma_count_update, NodeSlot, NodeView, Tree, TreeView};

verus! {

/// Side of a sibling node relative to a particular node within the children collection.
#[derive(Clone, Copy, Debug, PartialEq, Eq, Structural)]
pub enum Side {
    /// To the left of this node.
    Left,
    /// To the right of this node.
    Right,
}

/// A marker trait determining the mutation flexibility of a mutable node.
pub trait NodeMutOrientation {
}

/// Allows mutation of only the node itself and its descendants.
pub struct NodeMutDown {}

impl NodeMutOrientation for NodeMutDown {
}

/// Allows mutation of the node itself, its descendants and ancestors.
pub struct NodeMutUpAndDown {}

impl NodeMutOrientation for NodeMutUpAndDown {
}

impl<T, M: MemoryPolicy> Tree<T, M> {
    /// Position among the parent's children at which a sibling on `side` of
    /// the node at `i` is inserted.
    pub open spec fn sibling_position(&self, i: int, side: Side) -> int {
        match side {
            Side::Left => self@.sibling_index(i),
            Side::Right => self@.sibling_index(i) + 1,
        }
    }

    /// Pushes a sibling node holding `value` on the given `side` of the node;
    /// returns the index of the created node. The node must not be the root.
    pub fn push_sibling(&mut self, idx: &NodeIdx, side: Side, value: T) -> (r: NodeIdx)
        requires
            old(self).wf(),
            old(self).valid_idx(*idx),
            old(self)@.parent(idx.spec_pos() as int) is Some,
            old(self)@.n() + 1 < usize::MAX,
        ensures
            final(self).wf(),
            final(self)@ == old(self)@.insert_child(
                old(self)@.parent(idx.spec_pos() as int)->0 as int,
                old(self).sibling_position(idx.spec_pos() as int, side),
                value,
            ),
            final(self).idx_at(r, old(self)@.n() as int),
            final(self).valid_idx(r),
            final(self).memory_state() == old(self).memory_state(),
            final(self)@.parent(old(self)@.n() as int) == old(self)@.parent(idx.spec_pos() as int),
            match side {
                Side::Right => final(self)@.sibling_index(old(self)@.n() as int) == final(self)@.sibling_index(idx.spec_pos() as int) + 1,
                Side::Left => final(self)@.sibling_index(idx.spec_pos() as int) == final(self)@.sibling_index(old(self)@.n() as int) + 1,
            },
    {
        let ghost before = *self;
        let ghost gv = value;
        let p = self.nodes[idx.pos].parent.unwrap();
        let s = self.sibling_idx(idx);
        proof {
            assert(self.wf_slot(idx.spec_pos() as int));
            assert(self.wf_slot(p as int));
        }
        let position = match side {
            Side::Left => s,
            Side::Right => s + 1,
        };
        proof {
            assert(self.wf_slot(idx.spec_pos() as int));
        }
        let r = self.insert_child_at(p, position, value);
        proof {
            crate::siblings::law_push_sibling_is_adjacent(&before, self, idx.spec_pos() as int, side, gv);
        }
        NodeIdx { pos: r, state: self.state }
    }

    /// Pushes the given `values` as siblings on the given `side` of the node,
    /// in order; returns the indices of the created nodes. The node must not
    /// be the root.
    pub fn push_siblings(&mut self, idx: &NodeIdx, side: Side, values: Vec<T>) -> (r: Vec<NodeIdx>)
        requires
            old(self).wf(),
            old(self).valid_idx(*idx),
            old(self)@.parent(idx.spec_pos() as int) is Some,
            old(self)@.n() + values@.len() + 1 < usize::MAX,
        ensures
            final(self).wf(),
            final(self)@ == old(self)@.insert_children(
                old(self)@.parent(idx.spec_pos() as int)->0 as int,
                old(self).sibling_position(idx.spec_pos() as int, side),
                values@,
            ),
            r@.len() == values@.len(),
            forall|k: int|
                0 <= k < r@.len() ==> final(self).idx_at(#[trigger] r@[k], old(self)@.n() + k)
                    && final(self).valid_idx(r@[k]),
            final(self).memory_state() == old(self).memory_state(),
            forall|k: int|
                0 <= k < values@.len() ==> #[trigger] final(self)@.parent(old(self)@.n() + k) == old(self)@.parent(
                    idx.spec_pos() as int,
                ),
            forall|k: int|
                0 <= k < values@.len() ==> #[trigger] final(self)@.sibling_index(old(self)@.n() + k) == match side {
                    Side::Right => final(self)@.sibling_index(idx.spec_pos() as int) + 1 + k,
                    Side::Left => final(self)@.sibling_index(idx.spec_pos() as int) - values@.len() + k,
                },
    {
        let ghost before = *self;
        let ghost gvals = values@;
        let p = self.nodes[idx.pos].parent.unwrap();
        let s = self.sibling_idx(idx);
        proof {
            assert(self.wf_slot(idx.spec_pos() as int));
            assert(self.wf_slot(p as int));
        }
        let start = match side {
            Side::Left => s,
            Side::Right => s + 1,
        };
        let mut out: Vec<NodeIdx> = Vec::new();
        let ghost old_view = self@;
        let ghost n0 = self@.n();
        let ghost c0 = self@.children(p as int).len();
        let ghost vals = values@;
        let mut j: usize = 0;
        proof {
            assert(vals.take(0) =~= Seq::<T>::empty());
        }
        for v in it: values.into_iter()
            invariant
                self.wf(),
                self@.active(p as int),
                it.seq() == vals,
                j == it.index(),
                self@ == old_view.insert_children(p as int, start as int, vals.take(j as int)),
                self@.n() == n0 + j,
                n0 + vals.len() + 1 < usize::MAX,
                self@.children(p as int).len() == c0 + j,
                start <= c0,
                self.memory_state() == idx.spec_state(),
                out@.len() == j,
                forall|k: int| 0 <= k < j ==> self.idx_at(#[trigger] out@[k], n0 + k) && self.valid_idx(out@[k]),
        {
            proof {
                assert(vals[j as int] == v);
                assert(self.wf_slot(p as int));
            }
            let c = self.insert_child_at(p, start + j, v);
            out.push(NodeIdx { pos: c, state: self.state });
            j = j + 1;
            proof {
                let t = vals.take(j as int);
                assert(t.drop_last() =~= vals.take(j - 1));
                assert(t.last() == v);
            }
        }
        proof {
            assert(vals.take(j as int) =~= vals);
            crate::siblings::law_push_siblings_are_adjacent(&before, self, idx.spec_pos() as int, side, gvals);
        }
        out
    }

    /// Pushes a new node holding `value` between the node and its parent
    /// (as the new root if the node is the root); returns its index.
    pub fn push_parent(&mut self, idx: &NodeIdx, value: T) -> (r: NodeIdx)
        requires
            old(self).wf(),
            old(self).valid_idx(*idx),
            old(self)@.n() + 1 < usize::MAX,
        ensures
            final(self).wf(),
            final(self)@ == old(self)@.insert_parent(idx.spec_pos() as int, value),
            final(self).idx_at(r, old(self)@.n() as int),
            final(self).valid_idx(r),
            final(self).memory_state() == old(self).memory_state(),
    {
        let i = idx.pos;
        let q = self.nodes.len();
        let parent = self.nodes[i].parent;
        let k = self.sibling_idx(idx);
        let ghost old_depths = self.depths@;
        let ghost set = self.pre_node(i as int).to_set();
        proof {
            assert(self.wf_slot(i as int));
            crate::tree::lemma_count_bound(self@.nodes);
            if parent is Some {
                assert(self.wf_slot(parent->0 as int));
            }
        }
        let mut children: Vec<usize> = Vec::new();
        children.push(i);
        self.nodes.push(NodeSlot { data: Some(value), parent, children });
        self.nodes[i].parent = Some(q);
        match parent {
            Some(p) => {
                self.nodes[p].children.set(k, q);
            },
            None => {
                self.root = Some(q);
            },
        }
        self.len = self.len + 1;
        proof {
            self.depths@ = Seq::new(
                (q + 1) as nat,
                |j: int| if j == q {
                    old_depths[i as int]
                } else if set.contains(j as usize) {
                    old_depths[j] + 1
                } else {
                    old_depths[j]
                },
            );
            let target = old(self)@.insert_parent(i as int, value);
            assert(self@.nodes[q as int].children =~= seq![i]);
            assert(self@.nodes =~= target.nodes);
            self.lemma_push_parent_wf(old(self), i as int, value);
        }
        NodeIdx { pos: q, state: self.state }
    }

    /// Takes out the node: its children take its place among the children of
    /// its parent (or the only child becomes the root) and its data is
    /// returned. The memory policy may then reclaim closed positions, which
    /// invalidates all indices. The root can be taken out only if it has at
    /// most one child; taking out a childless root leaves the tree empty.
    pub fn take_out(&mut self, idx: &NodeIdx) -> (r: T)
        requires
            old(self).wf(),
            old(self).valid_idx(*idx),
            old(self)@.parent(idx.spec_pos() as int) is Some || old(self)@.children(idx.spec_pos() as int).len() <= 1,
        ensures
            final(self).wf(),
            r == old(self)@.data(idx.spec_pos() as int),
            final(self)@ == after_removal::<T, M>(old(self)@.take_out(idx.spec_pos() as int)),
            reclaim_moves::<T, M>(old(self)@.take_out(idx.spec_pos() as int)) <==> final(self).memory_state() != old(self).memory_state(),
    {
        let r = self.take_out_lazy(idx);
        self.reclaim_if_needed();
        r
    }

    /// Takes out the node without reclaiming memory; returns its data.
    fn take_out_lazy(&mut self, idx: &NodeIdx) -> (r: T)
        requires
            old(self).wf(),
            old(self).valid_idx(*idx),
            old(self)@.parent(idx.spec_pos() as int) is Some || old(self)@.children(idx.spec_pos() as int).len() <= 1,
        ensures
            final(self).wf(),
            r == old(self)@.data(idx.spec_pos() as int),
            final(self)@ == old(self)@.take_out(idx.spec_pos() as int),
            final(self).memory_state() == old(self).memory_state(),
    {
        let i = idx.pos;
        let parent = self.nodes[i].parent;
        let k = self.sibling_idx(idx);
        let ghost o = self@;
        let ghost old_depths = self.depths@;
        let ghost set = self.pre_node(i as int).to_set();
        let ghost n = self@.n();
        proof {
            assert(self.wf_slot(i as int));
            crate::tree::lemma_count_bound(self@.nodes);
            if parent is Some {
                assert(self.wf_slot(parent->0 as int));
            }
            assert forall|x: int| 0 <= x < o.children(i as int).len() implies #[trigger] o.children(i as int)[x] != i
                && o.active(o.children(i as int)[x] as int) by {
                assert(self.wf_slot(o.children(i as int)[x] as int));
            }
        }
        let mut ch: Vec<usize> = Vec::new();
        core::mem::swap(&mut ch, &mut self.nodes[i].children);
        let ghost ich = ch@;
        // children of `i` move up to its parent
        let mut x: usize = 0;
        while x < ch.len()
            invariant
                x <= ch@.len(),
                ch@ == ich,
                ich == o.children(i as int),
                ich.no_duplicates(),
                forall|y: int| 0 <= y < ich.len() ==> #[trigger] ich[y] != i && o.active(ich[y] as int),
                o.active(i as int),
                self@.n() == n,
                n == o.n(),
                n < usize::MAX,
                self.root == o.root,
                self.len == old(self).len,
                self.state == old(self).state,
                self.depths == old(self).depths,
                forall|j: int| 0 <= j < n ==> #[trigger] self@.nodes[j] == if j == i as int {
                    NodeView { data: o.nodes[j].data, parent: o.nodes[j].parent, children: Seq::empty() }
                } else if ich.take(x as int).contains(j as usize) {
                    NodeView { data: o.nodes[j].data, parent: parent, children: o.nodes[j].children }
                } else {
                    o.nodes[j]
                },
            decreases ch@.len() - x,
        {
            let c = ch[x];
            let ghost before = self@.nodes;
            self.nodes[c].parent = parent;
            x = x + 1;
            proof {
                assert(ich[x - 1] == c);
                assert(c != i);
                assert forall|j: int| 0 <= j < n implies #[trigger] ich.take(x as int).contains(j as usize) == (ich.take(x - 1).contains(j as usize) || j == c as int) by {
                    if ich.take(x as int).contains(j as usize) {
                        let y = ich.take(x as int).index_of(j as usize);
                        if y < x - 1 {
                            assert(ich.take(x - 1)[y] == j as usize);
                        }
                    }
                    if ich.take(x - 1).contains(j as usize) {
                        let y = ich.take(x - 1).index_of(j as usize);
                        assert(ich.take(x as int)[y] == j as usize);
                    }
                    if j == c as int {
                        assert(ich.take(x as int)[x - 1] == c);
                    }
                }
                assert(!ich.take(x - 1).contains(c)) by {
                    if ich.take(x - 1).contains(c) {
                        let y = ich.take(x - 1).index_of(c);
                        assert(ich[y] == c);
                    }
                }
                assert forall|j: int| 0 <= j < n implies #[trigger] self@.nodes[j] == if j == i as int {
                    NodeView { data: o.nodes[j].data, parent: o.nodes[j].parent, children: Seq::empty() }
                } else if ich.take(x as int).contains(j as usize) {
                    NodeView { data: o.nodes[j].data, parent: parent, children: o.nodes[j].children }
                } else {
                    o.nodes[j]
                } by {
                    assert(ich.take(x as int).contains(j as usize) == (ich.take(x - 1).contains(j as usize) || j == c as int));
                    if j != c as int {
                        assert(self@.nodes[j] == before[j]);
                    }
                }
            }
        }
        proof {
            assert(ich.take(x as int) =~= ich);
        }
        let ghost mid = self@.nodes;
        match parent {
            None => {
                self.root = if ch.len() > 0 {
                    Some(ch[0])
                } else {
                    None
                };
            },
            Some(p) => {
                let mut new_ch: Vec<usize> = Vec::new();
                let len_p = self.nodes[p].children.len();
                let ghost pch = o.children(p as int);
                proof {
                    assert(self@.nodes[p as int].children == pch);
                    assert(k < pch.len());
                }
                let mut y: usize = 0;
                while y < k
                    invariant
                        y <= k,
                        k < pch.len(),
                        p < self@.n(),
                        self@.nodes[p as int].children == pch,
                        new_ch@ == pch.take(y as int),
                    decreases k - y,
                {
                    new_ch.push(self.nodes[p].children[y]);
                    y = y + 1;
                    proof {
                        assert(new_ch@ =~= pch.take(y as int));
                    }
                }
                let mut z: usize = 0;
                while z < ch.len()
                    invariant
                        z <= ch@.len(),
                        ch@ == ich,
                        new_ch@ == pch.take(k as int) + ich.take(z as int),
                    decreases ch@.len() - z,
                {
                    new_ch.push(ch[z]);
                    z = z + 1;
                    proof {
                        assert(new_ch@ =~= pch.take(k as int) + ich.take(z as int));
                    }
                }
                let mut y: usize = k + 1;
                while y < len_p
                    invariant
                        k + 1 <= y <= len_p,
                        len_p == pch.len(),
                        p < self@.n(),
                        self@.nodes[p as int].children == pch,
                        new_ch@ == pch.take(k as int) + ich + pch.subrange(k + 1, y as int),
                    decreases len_p - y,
                {
                    new_ch.push(self.nodes[p].children[y]);
                    y = y + 1;
                    proof {
                        assert(new_ch@ =~= pch.take(k as int) + ich + pch.subrange(k + 1, y as int));
                    }
                }
                proof {
                    assert(ich.take(ch@.len() as int) =~= ich);
                    assert(pch.subrange(k + 1, len_p as int) =~= pch.skip(k + 1));
                }
                self.nodes[p].children = new_ch;
                proof {
                    assert(self@.nodes =~= mid.update(p as int, NodeView {
                        data: mid[p as int].data,
                        parent: mid[p as int].parent,
                        children: pch.take(k as int) + ich + pch.skip(k + 1),
                    }));
                }
            },
        }
        let ghost after_match = self@.nodes;
        proof {
            match parent {
                Some(p) => {
                    assert(p != i);
                    assert(after_match[i as int] == mid[i as int]);
                },
                None => {},
            }
            assert(after_match[i as int].data == o.nodes[i as int].data);
        }
        let d = self.nodes[i].data.take();
        self.nodes[i].parent = None;
        proof {
            lemma_count_update(o.nodes, i as int, TreeView::<T>::closed_node());
            assert(self.len == old(self).len);
        }
        self.len = self.len - 1;
        proof {
            self.depths@ = Seq::new(
                n,
                |j: int| if set.contains(j as usize) && j != i {
                    (old_depths[j] - 1) as nat
                } else {
                    old_depths[j]
                },
            );
            let target = o.take_out(i as int);
            assert forall|j: int| 0 <= j < n implies self@.nodes[j] == target.nodes[j] by {
                assert(old(self).wf_slot(j));
                assert(old(self).wf_slot(i as int));
                if ich.contains(j as usize) {
                    let y = ich.index_of(j as usize);
                    assert(ich[y] == j as usize);
                    assert(o.parent(j) == Some(i as usize));
                }
                if j != i as int && o.parent(j) == Some(i as usize) {
                    assert(ich.contains(j as usize));
                }
                if j == i as int {
                    assert(self@.nodes[j] == TreeView::<T>::closed_node());
                } else if o.parent(j) == Some(i as usize) {
                    if parent == Some(j as usize) {
                        assert(old(self).depth_of(j) == old(self).depth_of(i as int) + 1);
                        assert(old(self).depth_of(i as int) == old(self).depth_of(j) + 1);
                    }
                    assert(self@.nodes[j] == mid[j]);
                } else if parent == Some(j as usize) {
                    assert(!ich.contains(j as usize));
                } else {
                    assert(!ich.contains(j as usize));
                    assert(self@.nodes[j] == mid[j]);
                }
            }
            assert(self@.nodes =~= target.nodes);
            assert(self@ == target);
            lemma_count_update(o.nodes, i as int, TreeView::<T>::closed_node());
            self.lemma_take_out_wf(old(self), i as int);
        }
        d.unwrap()
    }

    /// Swaps the data of the two given nodes; does nothing if they are the same.
    pub fn swap_data_with(&mut self, idx: &NodeIdx, other_idx: &NodeIdx)
        requires
            old(self).wf(),
            old(self).valid_idx(*idx),
            old(self).valid_idx(*other_idx),
        ensures
            final(self).wf(),
            final(self)@ == old(self)@.set_data(
                idx.spec_pos() as int,
                old(self)@.data(other_idx.spec_pos() as int),
            ).set_data(other_idx.spec_pos() as int, old(self)@.data(idx.spec_pos() as int)),
            final(self).memory_state() == old(self).memory_state(),
    {
        self.swap_data_of_nodes(idx.pos, other_idx.pos);
    }

    /// Swaps the data of the node with that of its parent and returns true;
    /// returns false and does nothing if the node is the root.
    pub fn swap_data_with_parent(&mut self, idx: &NodeIdx) -> (r: bool)
        requires
            old(self).wf(),
            old(self).valid_idx(*idx),
        ensures
            final(self).wf(),
            r == old(self)@.parent(idx.spec_pos() as int) is Some,
            r ==> final(self)@ == old(self)@.set_data(
                idx.spec_pos() as int,
                old(self)@.data(old(self)@.parent(idx.spec_pos() as int)->0 as int),
            ).set_data(
                old(self)@.parent(idx.spec_pos() as int)->0 as int,
                old(self)@.data(idx.spec_pos() as int),
            ),
            !r ==> final(self)@ == old(self)@,
            final(self).memory_state() == old(self).memory_state(),
    {
        proof {
            assert(self.wf_slot(idx.spec_pos() as int));
        }
        match self.nodes[idx.pos].parent {
            Some(p) => {
                self.swap_data_of_nodes(idx.pos, p);
                true
            },
            None => false,
        }
    }

    /// Swaps the data held at positions `a` and `b`.
    fn swap_data_of_nodes(&mut self, a: usize, b: usize)
        requires
            old(self).wf(),
            old(self)@.active(a as int),
            old(self)@.active(b as int),
        ensures
            final(self).wf(),
            final(self)@ == old(self)@.set_data(a as int, old(self)@.data(b as int)).set_data(
                b as int,
                old(self)@.data(a as int),
            ),
            final(self).memory_state() == old(self).memory_state(),
    {
        if a != b {
            let ghost old_view = self@;
            let da = self.nodes[a].data.take();
            let db = self.nodes[b].data.take();
            self.nodes[a].data = db;
            self.nodes[b].data = da;
            proof {
                let target = old_view.set_data(a as int, old_view.data(b as int)).set_data(
                    b as int,
                    old_view.data(a as int),
                );
                assert(self@.nodes =~= target.nodes);
                assert(self@ == target);
                self.lemma_same_shape(old(self));
            }
        } else {
            proof {
                let target = self@.set_data(a as int, self@.data(b as int)).set_data(
                    b as int,
                    self@.data(a as int),
                );
                assert(self@.nodes =~= target.nodes);
            }
        }
    }

    /// Replaces the data of the node by `value` and returns the previous data.
    pub fn replace_data(&mut self, idx: &NodeIdx, value: T) -> (r: T)
        requires
            old(self).wf(),
            old(self).valid_idx(*idx),
        ensures
            r == old(self)@.data(idx.spec_pos() as int),
            final(self)@ == old(self)@.set_data(idx.spec_pos() as int, value),
            final(self).wf(),
            final(self).memory_state() == old(self).memory_state(),
    {
        let ghost old_view = self@;
        let prev = self.nodes[idx.pos].data.take();
        self.nodes[idx.pos].data = Some(value);
        proof {
            let target = old_view.set_data(idx.spec_pos() as int, value);
            assert(self@.nodes =~= target.nodes);
            self.lemma_same_shape(old(self));
        }
        prev.unwrap()
    }

    /// The tree left by removing the subtree rooted at `i`, before any
    /// memory reclaim.
    pub open spec fn spec_prune(&self, i: int) -> TreeView<T> {
        self@.detach(i).without(self.pre_node(i).to_set())
    }

    /// The tree left by removing the subtrees of the children of `i`, before
    /// any memory reclaim.
    pub open spec fn spec_remove_children(&self, i: int) -> TreeView<T> {
        self@.clear_children(i).without(self.pre_list(i, 0).to_set())
    }

    /// Removes the subtree rooted at the node from the tree and returns the
    /// data of the node. Removing the root leaves the tree empty. The memory
    /// policy may then reclaim closed positions, which invalidates all indices.
    pub fn prune(&mut self, idx: &NodeIdx) -> (r: T)
        requires
            old(self).wf(),
            old(self).valid_idx(*idx),
        ensures
            final(self).wf(),
            r == old(self)@.data(idx.spec_pos() as int),
            final(self)@ == after_removal::<T, M>(old(self).spec_prune(idx.spec_pos() as int)),
            reclaim_moves::<T, M>(old(self).spec_prune(idx.spec_pos() as int)) <==> final(self).memory_state() != old(self).memory_state(),
    {
        let mut removed = self.remove_subtree_lazy::<Dfs>(idx);
        proof {
            old(self).lemma_pre_node_members(idx.spec_pos() as int);
        }
        self.reclaim_if_needed();
        removed.swap_remove(0).unwrap()
    }

    /// Removes the subtree rooted at the node from the tree and returns the
    /// data of its nodes in the order of the traverser `Tr`. The memory
    /// policy may then reclaim closed positions, which invalidates all indices.
    pub fn into_walk<Tr: Traverser<T, M>>(&mut self, idx: &NodeIdx) -> (r: Vec<T>)
        requires
            old(self).wf(),
            old(self).valid_idx(*idx),
        ensures
            final(self).wf(),
            r@.len() == Tr::spec_order(old(self), idx.spec_pos() as int).len(),
            forall|k: int|
                0 <= k < r@.len() ==> #[trigger] r@[k] == old(self)@.data(
                    Tr::spec_order(old(self), idx.spec_pos() as int)[k] as int,
                ),
            final(self)@ == after_removal::<T, M>(old(self).spec_prune(idx.spec_pos() as int)),
            reclaim_moves::<T, M>(old(self).spec_prune(idx.spec_pos() as int)) <==> final(self).memory_state() != old(self).memory_state(),
    {
        let removed = self.remove_subtree_lazy::<Tr>(idx);
        let ghost order = Tr::spec_order(old(self), idx.spec_pos() as int);
        let ghost old_view = old(self)@;
        let mut out: Vec<T> = Vec::new();
        for d in it: removed.into_iter()
            invariant
                it.seq().len() == order.len(),
                forall|x: int| 0 <= x < order.len() ==> #[trigger] it.seq()[x] == Some(old_view.data(order[x] as int)),
                out@.len() == it.index(),
                forall|x: int| 0 <= x < out@.len() ==> #[trigger] out@[x] == old_view.data(order[x] as int),
        {
            proof {
                assert(it.seq()[out@.len() as int] == d);
            }
            out.push(d.unwrap());
        }
        self.reclaim_if_needed();
        out
    }

    /// Removes the subtree rooted at the node from the tree and returns, in
    /// the order of the traverser `Tr`, each node's depth below the node, its
    /// position among its parent's children (zero for the node itself) and
    /// its data. The memory policy may then reclaim closed positions, which
    /// invalidates all indices.
    pub fn into_walk_with<Tr: Traverser<T, M>>(&mut self, idx: &NodeIdx) -> (r: Vec<(usize, usize, T)>)
        requires
            old(self).wf(),
            old(self).valid_idx(*idx),
        ensures
            final(self).wf(),
            r@.len() == Tr::spec_order(old(self), idx.spec_pos() as int).len(),
            forall|k: int|
                0 <= k < r@.len() ==> {
                    let j = Tr::spec_order(old(self), idx.spec_pos() as int)[k] as int;
                    &&& (#[trigger] r@[k]).0 == old(self).depth_of(j) - old(self).depth_of(idx.spec_pos() as int)
                    &&& r@[k].1 == if j == idx.spec_pos() {
                        0
                    } else {
                        old(self)@.sibling_index(j)
                    }
                    &&& r@[k].2 == old(self)@.data(j)
                },
            final(self)@ == after_removal::<T, M>(old(self).spec_prune(idx.spec_pos() as int)),
            reclaim_moves::<T, M>(old(self).spec_prune(idx.spec_pos() as int)) <==> final(self).memory_state() != old(self).memory_state(),
    {
        let order = Tr::order(self, idx.pos);
        let depths = self.relative_depths(idx, &order);
        let mut siblings: Vec<usize> = Vec::new();
        let mut k: usize = 0;
        while k < order.len()
            invariant
                self.wf(),
                k <= order@.len(),
                order@ == Tr::spec_order(self, idx.spec_pos() as int),
                forall|x: int| 0 <= x < order@.len() ==> self@.active(#[trigger] order@[x] as int),
                siblings@.len() == k,
                forall|x: int|
                    0 <= x < k ==> #[trigger] siblings@[x] == if order@[x] == idx.spec_pos() {
                        0
                    } else {
                        self@.sibling_index(order@[x] as int)
                    },
            decreases order@.len() - k,
        {
            let j = order[k];
            if j == idx.pos {
                siblings.push(0);
            } else {
                siblings.push(self.sibling_idx(&NodeIdx { pos: j, state: self.state }));
            }
            k = k + 1;
        }
        let ghost old_tree = *self;
        let removed = self.remove_subtree_lazy::<Tr>(idx);
        let mut out: Vec<(usize, usize, T)> = Vec::new();
        for d in it: removed.into_iter()
            invariant
                order@ == Tr::spec_order(&old_tree, idx.spec_pos() as int),
                it.seq().len() == order@.len(),
                depths@.len() == order@.len(),
                siblings@.len() == order@.len(),
                forall|x: int| 0 <= x < order@.len() ==> #[trigger] it.seq()[x] == Some(old_tree@.data(order@[x] as int)),
                forall|x: int|
                    0 <= x < order@.len() ==> #[trigger] depths@[x] == old_tree.depth_of(order@[x] as int) - old_tree.depth_of(
                        idx.spec_pos() as int,
                    ),
                forall|x: int|
                    0 <= x < order@.len() ==> #[trigger] siblings@[x] == if order@[x] == idx.spec_pos() {
                        0
                    } else {
                        old_tree@.sibling_index(order@[x] as int)
                    },
                out@.len() == it.index(),
                forall|x: int|
                    0 <= x < out@.len() ==> #[trigger] out@[x] == (depths@[x], siblings@[x], old_tree@.data(order@[x] as int)),
        {
            let m = out.len();
            proof {
                assert(it.seq()[m as int] == d);
            }
            out.push((depths[m], siblings[m], d.unwrap()));
        }
        self.reclaim_if_needed();
        out
    }

    /// Removes the subtree rooted at the node from the tree and returns the
    /// data of its leaves in the order of the traverser `Tr`. The memory
    /// policy may then reclaim closed positions, which invalidates all indices.
    pub fn into_leaves<Tr: Traverser<T, M>>(&mut self, idx: &NodeIdx) -> (r: Vec<T>)
        requires
            old(self).wf(),
            old(self).valid_idx(*idx),
        ensures
            final(self).wf(),
            r@.len() == old(self).leaves_of(Tr::spec_order(old(self), idx.spec_pos() as int)).len(),
            forall|k: int|
                0 <= k < r@.len() ==> #[trigger] r@[k] == old(self)@.data(
                    old(self).leaves_of(Tr::spec_order(old(self), idx.spec_pos() as int))[k] as int,
                ),
            final(self)@ == after_removal::<T, M>(old(self).spec_prune(idx.spec_pos() as int)),
            reclaim_moves::<T, M>(old(self).spec_prune(idx.spec_pos() as int)) <==> final(self).memory_state() != old(self).memory_state(),
    {
        let order = Tr::order(self, idx.pos);
        let ghost old_tree = *self;
        let mut is_leaf: Vec<bool> = Vec::new();
        let mut k: usize = 0;
        while k < order.len()
            invariant
                self.wf(),
                *self == old_tree,
                k <= order@.len(),
                forall|x: int| 0 <= x < order@.len() ==> self@.active(#[trigger] order@[x] as int),
                is_leaf@.len() == k,
                forall|x: int| 0 <= x < k ==> #[trigger] is_leaf@[x] == (self@.children(order@[x] as int).len() == 0),
            decreases order@.len() - k,
        {
            is_leaf.push(self.nodes[order[k]].children.len() == 0);
            k = k + 1;
        }
        let removed = self.remove_subtree_lazy::<Tr>(idx);
        let mut out: Vec<T> = Vec::new();
        let ghost mut taken: Seq<usize> = Seq::empty();
        let mut m: usize = 0;
        proof {
            reveal(Seq::filter);
            assert(order@.take(0) =~= Seq::<usize>::empty());
        }
        for d in it: removed.into_iter()
            invariant
                order@ == Tr::spec_order(&old_tree, idx.spec_pos() as int),
                it.seq().len() == order@.len(),
                is_leaf@.len() == order@.len(),
                forall|x: int| 0 <= x < order@.len() ==> #[trigger] it.seq()[x] == Some(old_tree@.data(order@[x] as int)),
                forall|x: int| 0 <= x < order@.len() ==> #[trigger] is_leaf@[x] == (old_tree@.children(order@[x] as int).len() == 0),
                m == it.index(),
                taken == old_tree.leaves_of(order@.take(m as int)),
                out@.len() == taken.len(),
                forall|x: int| 0 <= x < out@.len() ==> #[trigger] out@[x] == old_tree@.data(taken[x] as int),
        {
            proof {
                reveal(Seq::filter);
                assert(it.seq()[m as int] == d);
                assert(order@.take(m + 1).drop_last() =~= order@.take(m as int));
                assert(order@.take(m + 1).last() == order@[m as int]);
            }
            if is_leaf[m] {
                out.push(d.unwrap());
                proof {
                    taken = taken.push(order@[m as int]);
                }
            }
            m = m + 1;
        }
        proof {
            assert(order@.take(m as int) =~= order@);
        }
        self.reclaim_if_needed();
        out
    }

    /// Removes the subtree rooted at the node from the tree and returns, for
    /// each of its leaves in the order of the traverser `Tr`, the leaf's
    /// depth below the node, its position among its parent's children (zero
    /// if it is the node itself) and its data. The memory policy may then
    /// reclaim closed positions, which invalidates all indices.
    pub fn into_leaves_with<Tr: Traverser<T, M>>(&mut self, idx: &NodeIdx) -> (r: Vec<(usize, usize, T)>)
        requires
            old(self).wf(),
            old(self).valid_idx(*idx),
        ensures
            final(self).wf(),
            r@.len() == old(self).leaves_of(Tr::spec_order(old(self), idx.spec_pos() as int)).len(),
            forall|k: int|
                0 <= k < r@.len() ==> {
                    let j = old(self).leaves_of(Tr::spec_order(old(self), idx.spec_pos() as int))[k] as int;
                    &&& (#[trigger] r@[k]).0 == old(self).depth_of(j) - old(self).depth_of(idx.spec_pos() as int)
                    &&& r@[k].1 == if j == idx.spec_pos() {
                        0
                    } else {
                        old(self)@.sibling_index(j)
                    }
                    &&& r@[k].2 == old(self)@.data(j)
                },
            final(self)@ == after_removal::<T, M>(old(self).spec_prune(idx.spec_pos() as int)),
            reclaim_moves::<T, M>(old(self).spec_prune(idx.spec_pos() as int)) <==> final(self).memory_state() != old(self).memory_state(),
    {
        let order = Tr::order(self, idx.pos);
        let ghost old_tree = *self;
        let mut is_leaf: Vec<bool> = Vec::new();
        let mut k: usize = 0;
        while k < order.len()
            invariant
                self.wf(),
                k <= order@.len(),
                forall|x: int| 0 <= x < order@.len() ==> self@.active(#[trigger] order@[x] as int),
                is_leaf@.len() == k,
                forall|x: int| 0 <= x < k ==> #[trigger] is_leaf@[x] == (self@.children(order@[x] as int).len() == 0),
            decreases order@.len() - k,
        {
            is_leaf.push(self.nodes[order[k]].children.len() == 0);
            k = k + 1;
        }
        let all = self.into_walk_with::<Tr>(idx);
        let mut out: Vec<(usize, usize, T)> = Vec::new();
        let ghost mut taken: Seq<usize> = Seq::empty();
        let mut m: usize = 0;
        proof {
            reveal(Seq::filter);
            assert(order@.take(0) =~= Seq::<usize>::empty());
        }
        let n = order.len();
        for e in it: all.into_iter()
            invariant
                m == it.index(),
                n == order@.len(),
                order@ == Tr::spec_order(&old_tree, idx.spec_pos() as int),
                it.seq().len() == order@.len(),
                is_leaf@.len() == order@.len(),
                forall|x: int|
                    0 <= x < order@.len() ==> {
                        let j = order@[x] as int;
                        &&& (#[trigger] it.seq()[x]).0 == old_tree.depth_of(j) - old_tree.depth_of(idx.spec_pos() as int)
                        &&& it.seq()[x].1 == if j == idx.spec_pos() {
                            0
                        } else {
                            old_tree@.sibling_index(j)
                        }
                        &&& it.seq()[x].2 == old_tree@.data(j)
                    },
                forall|x: int| 0 <= x < order@.len() ==> #[trigger] is_leaf@[x] == (old_tree@.children(order@[x] as int).len() == 0),
                taken == old_tree.leaves_of(order@.take(m as int)),
                out@.len() == taken.len(),
                forall|x: int|
                    0 <= x < out@.len() ==> {
                        let j = taken[x] as int;
                        &&& (#[trigger] out@[x]).0 == old_tree.depth_of(j) - old_tree.depth_of(idx.spec_pos() as int)
                        &&& out@[x].1 == if j == idx.spec_pos() {
                            0
                        } else {
                            old_tree@.sibling_index(j)
                        }
                        &&& out@[x].2 == old_tree@.data(j)
                    },
        {
            proof {
                reveal(Seq::filter);
                assert(it.seq()[m as int] == e);
                assert(order@.take(m + 1).drop_last() =~= order@.take(m as int));
                assert(order@.take(m + 1).last() == order@[m as int]);
            }
            if is_leaf[m] {
                out.push(e);
                proof {
                    taken = taken.push(order@[m as int]);
                }
            }
            m = m + 1;
        }
        proof {
            assert(order@.take(order@.len() as int) =~= order@);
        }
        out
    }

    /// Removes all descendants of the node; the node itself stays, as a leaf.
    /// The memory policy may then reclaim closed positions, which invalidates
    /// all indices.
    pub fn remove_children(&mut self, idx: &NodeIdx)
        requires
            old(self).wf(),
            old(self).valid_idx(*idx),
        ensures
            final(self).wf(),
            final(self)@ == after_removal::<T, M>(old(self).spec_remove_children(idx.spec_pos() as int)),
            reclaim_moves::<T, M>(old(self).spec_remove_children(idx.spec_pos() as int)) <==> final(self).memory_state() != old(self).memory_state(),
    {
        let i = idx.pos;
        let mut list = self.dfs_positions(i);
        proof {
            assert(self.wf_slot(i as int));
            self.lemma_pre_node_members(i as int);
        }
        list.remove(0);
        let ghost old_view = self@;
        self.nodes[i].children = Vec::new();
        proof {
            let c = old_view.clear_children(i as int);
            assert(self@.nodes =~= c.nodes);
            lemma_count_update(old_view.nodes, i as int, c.nodes[i as int]);
            assert(old_view.nodes.update(i as int, c.nodes[i as int]) == c.nodes);
            assert(list@ =~= old(self).pre_list(i as int, 0));
            assert forall|k: int| 0 <= k < list@.len() implies #[trigger] list@[k] < self@.n() by {
                assert(old(self).pre_node(i as int)[k + 1] == list@[k]);
                assert(old(self)@.active(list@[k] as int));
            }
        }
        let _ = self.close_nodes(&list);
        proof {
            self.lemma_remove_children_wf(old(self), i as int);
        }
        self.reclaim_if_needed();
    }

    /// Removes the subtree rooted at the node without reclaiming memory;
    /// returns the data of its nodes in depth-first order.
    pub(crate) fn remove_subtree_lazy<Tr: Traverser<T, M>>(&mut self, idx: &NodeIdx) -> (r: Vec<Option<T>>)
        requires
            old(self).wf(),
            old(self).valid_idx(*idx),
        ensures
            final(self).wf(),
            r@.len() == Tr::spec_order(old(self), idx.spec_pos() as int).len(),
            forall|k: int|
                0 <= k < r@.len() ==> #[trigger] r@[k] == Some(
                    old(self)@.data(Tr::spec_order(old(self), idx.spec_pos() as int)[k] as int),
                ),
            final(self)@ == old(self)@.detach(idx.spec_pos() as int).without(
                old(self).pre_node(idx.spec_pos() as int).to_set(),
            ),
            final(self).memory_state() == old(self).memory_state(),
    {
        let i = idx.pos;
        let list = Tr::order(self, i);
        let ghost old_view = self@;
        proof {
            assert(self.wf_slot(i as int));
            self.lemma_pre_node_members(i as int);
            Tr::lemma_visits_subtree_once(self, i as int);
            lemma_same_items_same_set(self.pre_node(i as int), list@);
        }
        match self.nodes[i].parent {
            Some(p) => {
                let k = self.sibling_idx(idx);
                proof {
                    assert(self.wf_slot(p as int));
                }
                self.nodes[p].children.remove(k);
                proof {
                    let d = old_view.detach(i as int);
                    assert(self@.nodes =~= d.nodes);
                    lemma_count_update(old_view.nodes, p as int, d.nodes[p as int]);
                    assert(old_view.nodes.update(p as int, d.nodes[p as int]) == d.nodes);
                }
            },
            None => {
                self.root = None;
                proof {
                    assert(self@.nodes =~= old_view.nodes);
                }
            },
        }
        proof {
            assert(self@ == old_view.detach(i as int));
            assert forall|k: int| 0 <= k < list@.len() implies #[trigger] list@[k] < self@.n() by {
                assert(old(self)@.active(list@[k] as int));
            }
        }
        let d = self.close_nodes(&list);
        proof {
            self.lemma_prune_wf(old(self), i as int);
            assert forall|k: int| 0 <= k < d@.len() implies #[trigger] d@[k] == Some(
                old(self)@.data(list@[k] as int),
            ) by {
                assert(old(self)@.active(list@[k] as int));
            }
        }
        d
    }

    /// Pushes a child node holding `value` as the new right-most child of the
    /// node; returns the index of the created node.
    pub fn push_child(&mut self, idx: &NodeIdx, value: T) -> (r: NodeIdx)
        requires
            old(self).wf(),
            old(self).valid_idx(*idx),
            old(self)@.n() + 1 < usize::MAX,
        ensures
            final(self).wf(),
            final(self)@ == old(self)@.insert_child(
                idx.spec_pos() as int,
                old(self)@.children(idx.spec_pos() as int).len() as int,
                value,
            ),
            final(self).idx_at(r, old(self)@.n() as int),
            final(self).valid_idx(r),
            final(self).memory_state() == old(self).memory_state(),
    {
        let pos = self.nodes[idx.pos].children.len();
        let r = self.insert_child_at(idx.pos, pos, value);
        NodeIdx { pos: r, state: self.state }
    }

    /// Pushes the given `values` as children of the node, added to the right
    /// of its existing children; returns the indices of the created nodes.
    pub fn push_children(&mut self, idx: &NodeIdx, values: Vec<T>) -> (r: Vec<NodeIdx>)
        requires
            old(self).wf(),
            old(self).valid_idx(*idx),
            old(self)@.n() + values@.len() + 1 < usize::MAX,
        ensures
            final(self).wf(),
            final(self)@ == old(self)@.insert_children(
                idx.spec_pos() as int,
                old(self)@.children(idx.spec_pos() as int).len() as int,
                values@,
            ),
            r@.len() == values@.len(),
            forall|k: int|
                0 <= k < r@.len() ==> final(self).idx_at(#[trigger] r@[k], old(self)@.n() + k)
                    && final(self).valid_idx(r@[k]),
            final(self).memory_state() == old(self).memory_state(),
    {
        let p = idx.pos;
        let start = self.nodes[p].children.len();
        let mut out: Vec<NodeIdx> = Vec::new();
        let ghost old_view = self@;
        let ghost n0 = self@.n();
        let ghost vals = values@;
        let mut j: usize = 0;
        proof {
            assert(vals.take(0) =~= Seq::<T>::empty());
        }
        for v in it: values.into_iter()
            invariant
                self.wf(),
                self@.active(p as int),
                p == idx.spec_pos(),
                it.seq() == vals,
                j == it.index(),
                self@ == old_view.insert_children(p as int, start as int, vals.take(j as int)),
                self@.n() == n0 + j,
                n0 + vals.len() + 1 < usize::MAX,
                self@.children(p as int).len() == start + j,
                self.memory_state() == idx.spec_state(),
                out@.len() == j,
                forall|k: int| 0 <= k < j ==> self.idx_at(#[trigger] out@[k], n0 + k) && self.valid_idx(out@[k]),
        {
            proof {
                assert(vals[j as int] == v);
                assert(self.wf_slot(p as int));
            }
            let c = self.insert_child_at(p, start + j, v);
            out.push(NodeIdx { pos: c, state: self.state });
            j = j + 1;
            proof {
                let t = vals.take(j as int);
                assert(t.drop_last() =~= vals.take(j - 1));
                assert(t.last() == v);
            }
        }
        proof {
            assert(vals.take(j as int) =~= vals);
        }
        out
    }
}

} // verus!
