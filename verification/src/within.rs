use vstd::prelude::*;

use crate::memory::MemoryPolicy;
use crate::node_idx::NodeIdx;
use crate::node_mut::Side;
use crate::reclaim::lemma_distinct_below;
use crate::tree::{lemma_count_same, NodeView, Tree, TreeView};

verus! {

impl<T> TreeView<T> {
    /// The tree after the node at `i`, with its subtree, is unlinked from its
    /// parent and inserted as the child of `p` at position `pos` among the
    /// children `p` has once `i` is unlinked.
    pub open spec fn move_subtree(self, i: int, p: int, pos: int) -> TreeView<T> {
        let d = self.detach(i);
        TreeView {
            nodes: d.nodes.update(
                i,
                NodeView { data: d.nodes[i].data, parent: Some(p as usize), children: d.nodes[i].children },
            ).update(
                p,
                NodeView { data: d.nodes[p].data, parent: d.nodes[p].parent, children: d.children(p).insert(pos, i as usize) },
            ),
            root: d.root,
        }
    }
}

impl<T, M> Tree<T, M> {
    /// Depths after the subtree of `i` is moved below `p`: the nodes of the
    /// subtree are shifted by the change of depth of `i`.
    pub open(crate) spec fn moved_depths(&self, i: int, p: int) -> Seq<nat> {
        Seq::new(
            self@.n(),
            |j: int|
                if self.in_subtree(j, i) {
                    (self.depth_of(j) - self.depth_of(i) + self.depth_of(p) + 1) as nat
                } else {
                    self.depth_of(j)
                },
        )
    }

    /// Moving a subtree below a node outside of it keeps the tree
    /// well-formed.
    #[verifier::spinoff_prover]
    #[verifier::rlimit(50)]
    pub(crate) proof fn lemma_move_wf(&self, old: &Self, i: int, p: int, pos: int)
        requires
            old.wf(),
            old@.active(i),
            old@.parent(i) is Some,
            old@.active(p),
            !old.in_subtree(p, i),
            0 <= pos <= old@.detach(i).children(p).len(),
            self@ == old@.move_subtree(i, p, pos),
            self.len == old.len,
            self.depths@ == old.moved_depths(i, p),
        ensures
            self.wf(),
    {
        let o = old@;
        let v = self@;
        let q = o.parent(i)->0 as int;
        let set = old.pre_node(i);
        old.lemma_pre_node_members(i);
        old.lemma_pre_node_closed(i);
        assert(old.wf_slot(i));
        assert(old.wf_slot(p));
        assert(old.wf_slot(q));
        assert(set[0] == i);
        assert(set.contains(i as usize));
        let k = o.sibling_index(i);
        let qc = o.children(q);
        assert(qc.contains(i as usize));
        assert(0 <= k < qc.len() && qc[k] == i);
        let d = o.detach(i);
        assert(d.children(q) == qc.remove(k));
        // the children of the old parent other than `i` are kept
        assert forall|x: int| 0 <= x < d.children(q).len() implies #[trigger] d.children(q)[x] != i && qc.contains(
            d.children(q)[x],
        ) by {
            if x < k {
                assert(d.children(q)[x] == qc[x]);
            } else {
                assert(d.children(q)[x] == qc[x + 1]);
            }
        }
        assert(d.children(q).no_duplicates()) by {
            assert forall|x: int, y: int| 0 <= x < d.children(q).len() && 0 <= y < d.children(q).len() && x != y implies d.children(q)[x] != d.children(q)[y] by {
                let x0 = if x < k { x } else { x + 1 };
                let y0 = if y < k { y } else { y + 1 };
                assert(d.children(q)[x] == qc[x0]);
                assert(d.children(q)[y] == qc[y0]);
            }
        }
        assert(!set.contains(p as usize));
        assert(p != i);
        // `i` is not among the children of `p` once unlinked
        assert(!d.children(p).contains(i as usize)) by {
            if d.children(p).contains(i as usize) {
                let x = d.children(p).index_of(i as usize);
                if p == q {
                    assert(d.children(q)[x] != i);
                } else {
                    assert(o.children(p)[x] == i);
                    assert(o.parent(i) == Some(p as usize));
                }
            }
        }
        let pc = d.children(p).insert(pos, i as usize);
        assert(v.children(p) == pc);
        d.children(p).insert_ensures(pos, i as usize);
        assert forall|x: int| 0 <= x < pc.len() && x != pos implies #[trigger] pc[x] != i && d.children(p).contains(pc[x]) by {
            if x < pos {
                assert(pc[x] == d.children(p)[x]);
            } else {
                assert(pc[x] == d.children(p)[x - 1]);
            }
        }
        assert(pc.no_duplicates()) by {
            assert forall|x: int, y: int| 0 <= x < pc.len() && 0 <= y < pc.len() && x != y implies pc[x] != pc[y] by {
                if x != pos && y != pos {
                    let x0 = if x < pos { x } else { x - 1 };
                    let y0 = if y < pos { y } else { y - 1 };
                    assert(pc[x] == d.children(p)[x0]);
                    assert(pc[y] == d.children(p)[y0]);
                    if p == q {
                        assert(d.children(q).no_duplicates());
                    } else {
                        assert(o.children(p).no_duplicates());
                    }
                }
            }
        }
        // links of every position, depths aside
        assert forall|j: int| 0 <= j < v.n() implies #[trigger] self.wf_slot_links(j) by {
            assert(old.wf_slot(j));
            let s = v.nodes[j];
            let so = o.nodes[j];
            assert(s.data == so.data);
            if so.data is Some {
                // children: active, pointing back
                assert forall|x: int| 0 <= x < s.children.len() implies {
                    let c = #[trigger] s.children[x] as int;
                    &&& v.active(c)
                    &&& v.nodes[c].parent == Some(j as usize)
                } by {
                    let c = s.children[x] as int;
                    if j == p {
                        if x == pos {
                            assert(c == i);
                        } else {
                            assert(pc[x] != i && d.children(p).contains(pc[x]));
                            let y = d.children(p).index_of(pc[x]);
                            if p == q {
                                assert(qc.contains(d.children(q)[y]));
                                let z = qc.index_of(d.children(q)[y]);
                                assert(old.wf_slot(j));
                                assert(o.nodes[qc[z] as int].parent == Some(q as usize));
                            } else {
                                assert(o.children(p)[y] == c);
                            }
                        }
                    } else if j == q {
                        assert(d.children(q)[x] != i && qc.contains(d.children(q)[x]));
                        let z = qc.index_of(d.children(q)[x]);
                        assert(o.nodes[qc[z] as int].parent == Some(q as usize));
                    } else {
                        assert(s.children == so.children);
                        assert(so.children[x] == c);
                        if c == i {
                            assert(o.parent(i) == Some(j as usize));
                        }
                    }
                }
                if j == p {
                    assert(s.children.no_duplicates());
                    assert forall|x: int| 0 <= x < pc.len() implies (#[trigger] pc[x] as int) < v.n() by {
                        assert(v.active(pc[x] as int));
                    }
                    lemma_distinct_below(pc, v.n());
                } else if j == q {
                    assert(s.children.no_duplicates());
                } else {
                    assert(s.children == so.children);
                }
                // parent: active, listing the node, one level up
                match s.parent {
                    Some(r) => {
                        if j == i {
                            assert(r == p);
                            assert(pc[pos] == i);
                            assert(!old.in_subtree(p, i));
                            assert(self.depths@[p] == old.depth_of(p));
                        } else {
                            assert(so.parent == Some(r));
                            assert(old.wf_slot(r as int));
                            if r == q || r == p {
                                if r == q {
                                    let y = qc.index_of(j as usize);
                                    assert(y != k);
                                    let y1 = if y < k { y } else { y - 1 };
                                    assert(d.children(q)[y1] == j);
                                    if r == p {
                                        let y2 = if y1 < pos { y1 } else { y1 + 1 };
                                        assert(pc[y2] == j);
                                    }
                                } else {
                                    let y = o.children(p).index_of(j as usize);
                                    let y2 = if y < pos { y } else { y + 1 };
                                    assert(d.children(p) == o.children(p));
                                    assert(pc[y2] == j);
                                }
                            } else {
                                assert(v.nodes[r as int].children == o.nodes[r as int].children);
                            }
                            // depths shift together inside the subtree
                            if set.contains(j as usize) {
                                let y = set.index_of(j as usize);
                                assert(set[y] == j);
                                assert(set.contains(r));
                            } else {
                                if set.contains(r) {
                                    let y = set.index_of(r);
                                    let z = o.children(r as int).index_of(j as usize);
                                    assert(set[y] == r);
                                    assert(o.children(set[y] as int)[z] == j);
                                }
                            }
                        }
                    },
                    None => {
                        assert(j != i);
                    },
                }
            } else {
                assert(j != i && j != p && j != q);
                assert(s == so);
            }
            assert(s.children.len() <= v.n());
        }
        lemma_count_same(v.nodes, o.nodes);
        match v.root {
            Some(r) => {
                assert(o.root == Some(r));
                assert(r != i);
                if set.contains(r) {
                    let y = set.index_of(r);
                    assert(set[y] == r);
                    assert(old.depth_of(r as int) > old.depth_of(i));
                }
            },
            None => {},
        }
        assert(self.wf_links());
        assert forall|j: int| 0 <= j < v.n() implies #[trigger] self.wf_slot(j) by {
            if v.active(j) {
                self.lemma_depth_below_len(j);
                crate::tree::lemma_count_bound(v.nodes);
            } else {
                assert(old.wf_slot(j));
                if set.contains(j as usize) {
                    let y = set.index_of(j as usize);
                    assert(set[y] == j);
                }
            }
        }
    }
}

/// The subtree lists from child `k` on of a node `x` of the subtree of `i`
/// are the same in two well-formed trees that agree on the children of
/// every node of that subtree.
pub proof fn lemma_same_pre_list<T, M1, M2>(a: &Tree<T, M1>, b: &Tree<T, M2>, i: int, x: int, k: int)
    requires
        a.wf(),
        b.wf(),
        a@.active(i),
        a@.n() == b@.n(),
        0 <= x < a@.n(),
        a.in_subtree(x, i),
        0 <= k,
        forall|j: int|
            0 <= j < a@.n() && a.in_subtree(j, i) ==> (#[trigger] b@.nodes[j]).children == a@.nodes[j].children
                && b@.nodes[j].data == a@.nodes[j].data,
    ensures
        b.pre_list(x, k) == a.pre_list(x, k),
    decreases a@.n() - a.depth_of(x), 0int, a@.children(x).len() - k,
{
    a.lemma_pre_node_members(i);
    a.lemma_pre_node_closed(i);
    let y = a.pre_node(i).index_of(x as usize);
    assert(a.pre_node(i)[y] == x);
    assert(a@.active(x));
    assert(b@.nodes[x].children == a@.nodes[x].children);
    assert(b@.active(x));
    if k < a@.children(x).len() {
        a.lemma_pre_list_unfold(x, k);
        b.lemma_pre_list_unfold(x, k);
        let c = a@.children(x)[k] as int;
        assert(a.pre_node(i).contains(a@.children(a.pre_node(i)[y] as int)[k]));
        assert(a.wf_slot(c));
        lemma_same_pre_node(a, b, i, c);
        lemma_same_pre_list(a, b, i, x, k + 1);
    } else {
        a.lemma_list_end(x);
        b.lemma_list_end(x);
    }
}

/// The depth-first order of a node `x` of the subtree of `i` is the same in
/// two well-formed trees that agree on the children of every node of that
/// subtree.
pub proof fn lemma_same_pre_node<T, M1, M2>(a: &Tree<T, M1>, b: &Tree<T, M2>, i: int, x: int)
    requires
        a.wf(),
        b.wf(),
        a@.active(i),
        a@.n() == b@.n(),
        0 <= x < a@.n(),
        a.in_subtree(x, i),
        forall|j: int|
            0 <= j < a@.n() && a.in_subtree(j, i) ==> (#[trigger] b@.nodes[j]).children == a@.nodes[j].children
                && b@.nodes[j].data == a@.nodes[j].data,
    ensures
        b.pre_node(x) == a.pre_node(x),
    decreases a@.n() - a.depth_of(x), 1int, 0int,
{
    lemma_same_pre_list(a, b, i, x, 0);
}

/// Two well-formed trees that agree on the children and data of every node
/// of the subtree of `i` have the same depth-first sequence from `i`.
pub proof fn lemma_same_dfs_seq<T, M1, M2>(a: &Tree<T, M1>, b: &Tree<T, M2>, i: int)
    requires
        a.wf(),
        b.wf(),
        a@.active(i),
        a@.n() == b@.n(),
        forall|j: int|
            0 <= j < a@.n() && a.in_subtree(j, i) ==> (#[trigger] b@.nodes[j]).children == a@.nodes[j].children
                && b@.nodes[j].data == a@.nodes[j].data,
    ensures
        b.dfs_seq(i) == a.dfs_seq(i),
{
    a.lemma_pre_node_members(i);
    assert(a.pre_node(i)[0] == i);
    assert(a.in_subtree(i, i));
    lemma_same_pre_node(a, b, i, i);
    let s = a.pre_node(i);
    assert forall|x: int| 0 <= x < s.len() implies b.depth_of(#[trigger] s[x] as int) - b.depth_of(i) == a.depth_of(
        s[x] as int,
    ) - a.depth_of(i) by {
        lemma_same_depth_below(a, b, i, s[x] as int);
    }
    assert(b.dfs_seq(i) =~= a.dfs_seq(i)) by {
        assert forall|x: int| 0 <= x < s.len() implies #[trigger] b.dfs_seq(i)[x] == a.dfs_seq(i)[x] by {
            assert(a.in_subtree(s[x] as int, i));
            assert(b@.nodes[s[x] as int].data == a@.nodes[s[x] as int].data);
        }
    }
}

/// Depths below `i` agree in two well-formed trees that agree on the
/// children of every node of the subtree of `i`.
pub proof fn lemma_same_depth_below<T, M1, M2>(a: &Tree<T, M1>, b: &Tree<T, M2>, i: int, j: int)
    requires
        a.wf(),
        b.wf(),
        a@.active(i),
        a@.n() == b@.n(),
        0 <= j < a@.n(),
        a.in_subtree(j, i),
        forall|x: int|
            0 <= x < a@.n() && a.in_subtree(x, i) ==> (#[trigger] b@.nodes[x]).children == a@.nodes[x].children
                && b@.nodes[x].data == a@.nodes[x].data,
    ensures
        b.depth_of(j) - b.depth_of(i) == a.depth_of(j) - a.depth_of(i),
    decreases a.depth_of(j),
{
    a.lemma_pre_node_members(i);
    let y = a.pre_node(i).index_of(j as usize);
    assert(a.pre_node(i)[y] == j);
    if j != i {
        let p = a@.parent(j)->0 as int;
        assert(a.wf_slot(j));
        assert(a.wf_slot(p));
        let z = a.pre_node(i).index_of(p as usize);
        assert(a.pre_node(i)[z] == p);
        lemma_same_depth_below(a, b, i, p);
        // in `b` the node is still a child of `p`, hence its parent is `p`
        assert(b@.nodes[p].children == a@.nodes[p].children);
        assert(a@.active(p));
        assert(b@.active(p));
        assert(b.wf_slot(p));
        let k = a@.children(p).index_of(j as usize);
        assert(b@.children(p)[k] == j);
        assert(b.wf_slot(j));
    }
}

/// A subtree of a tree that is to be moved to another position of the same
/// tree: the index of its root.
pub struct MovedSubTreeWithin {
    idx: NodeIdx,
}

impl MovedSubTreeWithin {
    /// Index of the root of the subtree.
    pub closed spec fn spec_idx(&self) -> NodeIdx {
        self.idx
    }
}

impl NodeIdx {
    /// The subtree rooted at the indexed node, to be moved to another
    /// position of its tree.
    pub fn into_subtree_within(self) -> (r: MovedSubTreeWithin)
        ensures
            r.spec_idx() == self,
    {
        MovedSubTreeWithin { idx: self }
    }
}

impl<T, M: MemoryPolicy> Tree<T, M> {
    /// Moves the subtree rooted at position `i` below the node at position
    /// `p`, at position `pos` among its children once `i` is unlinked.
    fn move_subtree_to(&mut self, i: usize, p: usize, pos: usize)
        requires
            old(self).wf(),
            old(self)@.active(i as int),
            old(self)@.parent(i as int) is Some,
            old(self)@.active(p as int),
            !old(self).in_subtree(p as int, i as int),
            pos <= old(self)@.detach(i as int).children(p as int).len(),
        ensures
            final(self).wf(),
            final(self)@ == old(self)@.move_subtree(i as int, p as int, pos as int),
            final(self).memory_state() == old(self).memory_state(),
            final(self).dfs_seq(i as int) == old(self).dfs_seq(i as int),
    {
        let ghost old_tree = *self;
        let q = self.nodes[i].parent.unwrap();
        let k = self.sibling_idx(&NodeIdx { pos: i, state: self.state });
        proof {
            assert(self.wf_slot(i as int));
            assert(self.wf_slot(q as int));
            self.lemma_pre_node_members(i as int);
            assert(self.pre_node(i as int)[0] == i);
            assert(p != i);
        }
        let ghost d = old_tree@.detach(i as int);
        self.nodes[q].children.remove(k);
        proof {
            assert(self@.nodes =~= d.nodes);
        }
        self.nodes[p].children.insert(pos, i);
        proof {
            assert(self@.nodes =~= d.nodes.update(
                p as int,
                NodeView { data: d.nodes[p as int].data, parent: d.nodes[p as int].parent, children: d.children(p as int).insert(pos as int, i) },
            ));
        }
        self.nodes[i].parent = Some(p);
        proof {
            self.depths@ = old_tree.moved_depths(i as int, p as int);
            let target = old_tree@.move_subtree(i as int, p as int, pos as int);
            assert(self@.nodes =~= target.nodes);
            self.lemma_move_wf(&old_tree, i as int, p as int, pos as int);
            old_tree.lemma_pre_node_members(i as int);
            assert forall|j: int|
                0 <= j < old_tree@.n() && old_tree.in_subtree(j, i as int) implies (#[trigger] self@.nodes[j]).children
                == old_tree@.nodes[j].children && self@.nodes[j].data == old_tree@.nodes[j].data by {
                let y = old_tree.pre_node(i as int).index_of(j as usize);
                assert(old_tree.pre_node(i as int)[y] == j);
                if j == q {
                    assert(old_tree.wf_slot(i as int));
                }
            }
            lemma_same_dfs_seq(&old_tree, self, i as int);
        }
    }

    /// Moves the `subtree` of this tree to become the new right-most child of
    /// the node; its nodes keep their indices, and the index of its root is
    /// returned. The node must not belong to the subtree.
    pub fn push_child_tree_within(&mut self, idx: &NodeIdx, subtree: MovedSubTreeWithin) -> (r: NodeIdx)
        requires
            old(self).wf(),
            old(self).valid_idx(*idx),
            old(self).valid_idx(subtree.spec_idx()),
            !old(self).in_subtree(idx.spec_pos() as int, subtree.spec_idx().spec_pos() as int),
        ensures
            final(self).wf(),
            r == subtree.spec_idx(),
            final(self).valid_idx(r),
            final(self)@ == old(self)@.move_subtree(
                subtree.spec_idx().spec_pos() as int,
                idx.spec_pos() as int,
                old(self)@.detach(subtree.spec_idx().spec_pos() as int).children(idx.spec_pos() as int).len() as int,
            ),
            final(self).memory_state() == old(self).memory_state(),
            final(self).dfs_seq(r.spec_pos() as int) == old(self).dfs_seq(r.spec_pos() as int),
    {
        let i = subtree.idx.pos;
        let p = idx.pos;
        proof {
            self.lemma_not_root_of_outside(i as int, p as int);
        }
        let q = self.nodes[i].parent.unwrap();
        let n = self.nodes[p].children.len();
        proof {
            assert(self.wf_slot(i as int));
            assert(self.wf_slot(p as int));
            if q == p {
                assert(self@.children(p as int).contains(i as usize));
                assert(self@.children(p as int)[self@.sibling_index(i as int)] == i);
            }
        }
        let pos = if q == p { n - 1 } else { n };
        self.move_subtree_to(i, p, pos);
        subtree.idx
    }

    /// Moves the `subtree` of this tree to become the immediate sibling of
    /// the node on the given `side`; its nodes keep their indices, and the
    /// index of its root is returned. The node must not be the root and must
    /// not belong to the subtree.
    pub fn push_sibling_tree_within(&mut self, idx: &NodeIdx, side: Side, subtree: MovedSubTreeWithin) -> (r:
        NodeIdx)
        requires
            old(self).wf(),
            old(self).valid_idx(*idx),
            old(self)@.parent(idx.spec_pos() as int) is Some,
            old(self).valid_idx(subtree.spec_idx()),
            !old(self).in_subtree(idx.spec_pos() as int, subtree.spec_idx().spec_pos() as int),
        ensures
            final(self).wf(),
            r == subtree.spec_idx(),
            final(self).valid_idx(r),
            final(self)@ == old(self)@.move_subtree(
                subtree.spec_idx().spec_pos() as int,
                old(self)@.parent(idx.spec_pos() as int)->0 as int,
                old(self)@.detach(subtree.spec_idx().spec_pos() as int).sibling_index(idx.spec_pos() as int) + match side {
                    Side::Left => 0int,
                    Side::Right => 1int,
                },
            ),
            final(self).memory_state() == old(self).memory_state(),
            final(self).dfs_seq(r.spec_pos() as int) == old(self).dfs_seq(r.spec_pos() as int),
    {
        let i = subtree.idx.pos;
        let j = idx.pos;
        let p = self.nodes[j].parent.unwrap();
        proof {
            assert(self.wf_slot(j as int));
            self.lemma_pre_node_members(i as int);
            assert(self.pre_node(i as int)[0] == i);
            self.lemma_parent_outside(i as int, j as int);
            self.lemma_not_root_of_outside(i as int, p as int);
        }
        let q = self.nodes[i].parent.unwrap();
        let s = self.sibling_idx(idx);
        let k = self.sibling_idx(&subtree.idx);
        proof {
            assert(self.wf_slot(i as int));
            assert(self.wf_slot(p as int));
            self.lemma_detached_sibling_index(i as int, j as int);
        }
        let s1 = if q == p && k < s { s - 1 } else { s };
        let pos = match side {
            Side::Left => s1,
            Side::Right => s1 + 1,
        };
        self.move_subtree_to(i, p, pos);
        subtree.idx
    }

    /// A node outside the subtree of `i` has `i` not as an ancestor; in
    /// particular `i` is not the root.
    pub(crate) proof fn lemma_not_root_of_outside(&self, i: int, p: int)
        requires
            self.wf(),
            self@.active(i),
            self@.active(p),
            !self.in_subtree(p, i),
        ensures
            self@.parent(i) is Some,
    {
        assert(self.wf_slot(i));
        if self@.parent(i) is None {
            assert(self@.root == Some(i as usize));
            self.lemma_in_root_subtree(p);
        }
    }

    /// The parent of a node outside the subtree of `i` is outside it too.
    pub(crate) proof fn lemma_parent_outside(&self, i: int, j: int)
        requires
            self.wf(),
            self@.active(i),
            self@.active(j),
            self@.parent(j) is Some,
            !self.in_subtree(j, i),
        ensures
            !self.in_subtree(self@.parent(j)->0 as int, i),
            self@.active(self@.parent(j)->0 as int),
    {
        assert(self.wf_slot(j));
        let p = self@.parent(j)->0;
        self.lemma_pre_node_closed(i);
        let set = self.pre_node(i);
        if set.contains(p) {
            let y = set.index_of(p);
            let z = self@.children(p as int).index_of(j as usize);
            assert(set[y] == p);
            assert(self@.children(set[y] as int)[z] == j);
        }
    }

    /// Once `i` is unlinked, the position of a sibling `j` among the children
    /// of their parent drops by one if `i` was before it.
    pub(crate) proof fn lemma_detached_sibling_index(&self, i: int, j: int)
        requires
            self.wf(),
            self@.active(i),
            self@.active(j),
            i != j,
            self@.parent(i) is Some,
            self@.parent(j) is Some,
        ensures
            ({
                let p = self@.parent(j)->0 as int;
                let d = self@.detach(i);
                let s = self@.sibling_index(j);
                let k = self@.sibling_index(i);
                &&& d.parent(j) == self@.parent(j)
                &&& d.sibling_index(j) == if self@.parent(i) == Some(p as usize) && k < s {
                    s - 1
                } else {
                    s
                }
                &&& 0 <= d.sibling_index(j) < d.children(p).len()
            }),
    {
        assert(self.wf_slot(i));
        assert(self.wf_slot(j));
        let p = self@.parent(j)->0 as int;
        let q = self@.parent(i)->0 as int;
        assert(self.wf_slot(p));
        assert(self.wf_slot(q));
        let d = self@.detach(i);
        let s = self@.sibling_index(j);
        let k = self@.sibling_index(i);
        let pc = self@.children(p);
        assert(pc.contains(j as usize));
        assert(pc[s] == j);
        if q == p {
            assert(self@.children(q)[k] == i);
            let dc = pc.remove(k);
            assert(d.children(p) == dc);
            let s1 = if k < s { s - 1 } else { s };
            assert(dc[s1] == j);
            assert(dc.no_duplicates()) by {
                assert forall|x: int, y: int| 0 <= x < dc.len() && 0 <= y < dc.len() && x != y implies dc[x] != dc[y] by {
                    let x0 = if x < k { x } else { x + 1 };
                    let y0 = if y < k { y } else { y + 1 };
                    assert(dc[x] == pc[x0]);
                    assert(dc[y] == pc[y0]);
                }
            }
            assert(dc.index_of(j as usize) == s1) by {
                let w = dc.index_of(j as usize);
                assert(dc[w] == j);
            }
        } else {
            assert(d.children(p) == pc);
        }
    }
}

} // verus!
