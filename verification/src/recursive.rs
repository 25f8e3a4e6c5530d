use vstd::prelude::*;

use crate::memory::MemoryPolicy;
use crate::node_idx::NodeIdx;
use crate::traversal::{lemma_same_items_no_dup, lemma_same_items_same_set, Traverser};
use crate::tree::{Tree, TreeView};

verus! {

impl<T> TreeView<T> {
    /// Whether the two trees have the same positions, root and links, and
    /// the same positions hold data; the data itself may differ.
    pub open spec fn same_links(self, other: TreeView<T>) -> bool {
        &&& self.n() == other.n()
        &&& self.root == other.root
        &&& forall|x: int|
            0 <= x < self.n() ==> {
                &&& (#[trigger] self.nodes[x]).parent == other.nodes[x].parent
                &&& self.nodes[x].children == other.nodes[x].children
                &&& (self.nodes[x].data is Some <==> other.nodes[x].data is Some)
            }
    }
}

/// Whether `v` is the data that `f` computes from `current`, the data of a
/// node, and the data `children` holds, that of each child of the node, in
/// order.
pub open spec fn computed_from<T, F: Fn(&T, &[&T]) -> T>(
    f: F,
    current: T,
    children: Seq<T>,
    v: T,
) -> bool {
    exists|cs: &[&T]|
        {
            &&& cs@.len() == children.len()
            &&& forall|t: int| 0 <= t < cs@.len() ==> *(#[trigger] cs@[t]) == children[t]
            &&& #[trigger] f.ensures((&current, cs), v)
        }
}

impl<T, M> Tree<T, M> {
    /// The data of the children of the node at position `j`, in order.
    pub open spec fn children_data(&self, j: int) -> Seq<T> {
        Seq::new(self@.children(j).len(), |t: int| self@.data(self@.children(j)[t] as int))
    }
}

impl<T, M: MemoryPolicy> Tree<T, M> {
    /// Sets the data of every node of the subtree rooted at the node, in
    /// post-order: the new data of a node is what `compute_data` computes
    /// from its current data and the new data of its children, in order.
    /// Nodes outside the subtree and the links of the tree are unchanged.
    pub fn recursive_set<F: Fn(&T, &[&T]) -> T>(&mut self, idx: &NodeIdx, compute_data: F)
        requires
            old(self).wf(),
            old(self).valid_idx(*idx),
            forall|a: &T, b: &[&T]| #[trigger] compute_data.requires((a, b)),
        ensures
            final(self).wf(),
            final(self).memory_state() == old(self).memory_state(),
            final(self)@.same_links(old(self)@),
            forall|j: int|
                0 <= j < old(self)@.n() && old(self)@.active(j) && !old(self).in_subtree(j, idx.spec_pos() as int)
                    ==> #[trigger] final(self)@.data(j) == old(self)@.data(j),
            forall|j: int|
                0 <= j < old(self)@.n() && old(self).in_subtree(j, idx.spec_pos() as int) ==> computed_from(
                    compute_data,
                    old(self)@.data(j),
                    final(self).children_data(j),
                    #[trigger] final(self)@.data(j),
                ),
    {
        let i = idx.pos;
        let order = self.post_positions(i);
        let ghost old_tree = *self;
        proof {
            self.lemma_post_node_active(i as int);
            self.lemma_post_node_children_first(i as int);
            self.lemma_pre_node_no_dup(i as int);
            self.lemma_post_node_multiset(i as int);
            lemma_same_items_no_dup(self.pre_node(i as int), order@);
            lemma_same_items_same_set(self.pre_node(i as int), order@);
            assert forall|j: int| 0 <= j < self@.n() implies #[trigger] self.in_subtree(j, i as int) == order@.contains(
                j as usize,
            ) by {
                assert(self.pre_node(i as int).to_set().contains(j as usize) == order@.to_set().contains(j as usize));
            }
        }
        let mut k: usize = 0;
        while k < order.len()
            invariant
                self.wf(),
                self.memory_state() == old_tree.memory_state(),
                self@.same_links(old_tree@),
                old_tree.wf(),
                old(self)@ == old_tree@,
                old(self).memory_state() == old_tree.memory_state(),
                forall|a: &T, b: &[&T]| #[trigger] compute_data.requires((a, b)),
                i == idx.spec_pos(),
                k <= order@.len(),
                order@ == old_tree.post_node(i as int),
                order@.no_duplicates(),
                forall|x: int| 0 <= x < order@.len() ==> old_tree@.active(#[trigger] order@[x] as int),
                forall|j: int| 0 <= j < old_tree@.n() ==> #[trigger] old_tree.in_subtree(j, i as int) == order@.contains(
                    j as usize,
                ),
                forall|x: int, t: int|
                    0 <= x < order@.len() && 0 <= t < old_tree@.children(order@[x] as int).len()
                        ==> order@.subrange(0, x).contains(
                        #[trigger] old_tree@.children(#[trigger] order@[x] as int)[t],
                    ),
                forall|j: int|
                    0 <= j < old_tree@.n() && !order@.subrange(0, k as int).contains(j as usize) ==> #[trigger] self@.nodes[j].data
                        == old_tree@.nodes[j].data,
                forall|x: int|
                    0 <= x < k ==> computed_from(
                        compute_data,
                        old_tree@.data(order@[x] as int),
                        self.children_data(order@[x] as int),
                        #[trigger] self@.data(order@[x] as int),
                    ),
            decreases order@.len() - k,
        {
            let j = order[k];
            let ghost before = *self;
            proof {
                assert(self@.active(j as int));
                assert(!order@.subrange(0, k as int).contains(j)) by {
                    if order@.subrange(0, k as int).contains(j) {
                        let y = order@.subrange(0, k as int).index_of(j);
                        assert(order@[y] == order@[k as int]);
                    }
                }
                assert(self@.data(j as int) == old_tree@.data(j as int));
                assert(self.wf_slot(j as int));
            }
            let mut children_data: Vec<&T> = Vec::new();
            let mut t: usize = 0;
            while t < self.nodes[j].children.len()
                invariant
                    self.wf(),
                    self@.active(j as int),
                    t <= self@.children(j as int).len(),
                    children_data@.len() == t,
                    forall|u: int| 0 <= u < t ==> *(#[trigger] children_data@[u]) == self@.data(self@.children(j as int)[u] as int),
                decreases self@.children(j as int).len() - t,
            {
                proof {
                    assert(self.wf_slot(j as int));
                    assert(self@.nodes[j as int].children == self.nodes@[j as int].children@);
                }
                let c = self.nodes[j].children[t];
                children_data.push(self.data(&NodeIdx { pos: c, state: self.state }));
                t = t + 1;
            }
            let slice = children_data.as_slice();
            let value = compute_data(self.data(&NodeIdx { pos: j, state: self.state }), slice);
            proof {
                assert(slice@ == children_data@);
                assert(self@.data(j as int) == old_tree@.data(j as int));
                assert(computed_from(compute_data, old_tree@.data(j as int), before.children_data(j as int), value)) by {
                    assert(slice@.len() == before.children_data(j as int).len());
                    assert forall|u: int| 0 <= u < slice@.len() implies *(#[trigger] slice@[u]) == before.children_data(
                        j as int,
                    )[u] by {
                        assert(*children_data@[u] == before@.data(before@.children(j as int)[u] as int));
                    }
                }
            }
            self.replace_data(&NodeIdx { pos: j, state: self.state }, value);
            proof {
                assert(self@.same_links(old_tree@)) by {
                    assert forall|x: int| 0 <= x < self@.n() implies {
                        &&& (#[trigger] self@.nodes[x]).parent == old_tree@.nodes[x].parent
                        &&& self@.nodes[x].children == old_tree@.nodes[x].children
                        &&& (self@.nodes[x].data is Some <==> old_tree@.nodes[x].data is Some)
                    } by {
                        assert(before@.nodes[x].parent == old_tree@.nodes[x].parent);
                    }
                }
                // the children of the node keep their data
                let ch = self@.children(j as int);
                assert forall|u: int| 0 <= u < ch.len() implies self@.data(#[trigger] ch[u] as int) == before@.data(
                    ch[u] as int,
                ) by {
                    assert(order@.subrange(0, k as int).contains(old_tree@.children(order@[k as int] as int)[u]));
                    if ch[u] == j {
                        let y = order@.subrange(0, k as int).index_of(j);
                        assert(order@[y] == order@[k as int]);
                    }
                }
                assert(self.children_data(j as int) =~= before.children_data(j as int));
                // nodes handled earlier keep their data and that of their children
                assert forall|x: int| 0 <= x < k + 1 implies computed_from(
                    compute_data,
                    old_tree@.data(order@[x] as int),
                    self.children_data(order@[x] as int),
                    #[trigger] self@.data(order@[x] as int),
                ) by {
                    if x == k {
                        assert(order@[x] == j);
                        assert(self@.data(j as int) == value);
                        assert(computed_from(compute_data, old_tree@.data(j as int), before.children_data(j as int), value));
                    } else {
                        let jx = order@[x] as int;
                        assert(jx != j);
                        let chx = self@.children(jx);
                        assert forall|u: int| 0 <= u < chx.len() implies self@.data(#[trigger] chx[u] as int) == before@.data(
                            chx[u] as int,
                        ) by {
                            assert(order@.subrange(0, x).contains(old_tree@.children(order@[x] as int)[u]));
                            if chx[u] == j {
                                let y = order@.subrange(0, x).index_of(j);
                                assert(order@[y] == order@[k as int]);
                            }
                        }
                        assert(self.children_data(jx) =~= before.children_data(jx));
                        assert(self@.data(jx) == before@.data(jx));
                        assert(computed_from(compute_data, old_tree@.data(jx), before.children_data(jx), before@.data(jx)));
                    }
                }
                assert forall|jj: int|
                    0 <= jj < old_tree@.n() && !order@.subrange(0, k + 1).contains(jj as usize) implies #[trigger] self@.nodes[jj].data
                    == old_tree@.nodes[jj].data by {
                    assert(jj != j) by {
                        if jj == j {
                            assert(order@.subrange(0, k + 1)[k as int] == j);
                        }
                    }
                    if order@.subrange(0, k as int).contains(jj as usize) {
                        let y = order@.subrange(0, k as int).index_of(jj as usize);
                        assert(order@.subrange(0, k + 1)[y] == jj);
                    }
                }
            }
            k = k + 1;
        }
        proof {
            assert(order@.subrange(0, k as int) =~= order@);
            assert forall|j: int|
                0 <= j < old_tree@.n() && old_tree.in_subtree(j, i as int) implies computed_from(
                compute_data,
                old_tree@.data(j),
                self.children_data(j),
                #[trigger] self@.data(j),
            ) by {
                let x = order@.index_of(j as usize);
                assert(order@[x] == j);
            }
        }
    }

    /// Replaces the data of every node of the subtree rooted at the node by
    /// what `map` computes from the node's position in the visiting order of
    /// the traverser `Tr`, its depth below the node and its current data.
    /// Nodes outside the subtree and the links of the tree are unchanged.
    pub fn walk_mut<Tr: Traverser<T, M>, F: Fn(usize, usize, &T) -> T>(&mut self, idx: &NodeIdx, map: F)
        requires
            old(self).wf(),
            old(self).valid_idx(*idx),
            forall|k: usize, d: usize, a: &T| #[trigger] map.requires((k, d, a)),
        ensures
            final(self).wf(),
            final(self).memory_state() == old(self).memory_state(),
            final(self)@.same_links(old(self)@),
            forall|j: int|
                0 <= j < old(self)@.n() && old(self)@.active(j) && !old(self).in_subtree(j, idx.spec_pos() as int)
                    ==> #[trigger] final(self)@.data(j) == old(self)@.data(j),
            forall|k: int|
                0 <= k < Tr::spec_order(old(self), idx.spec_pos() as int).len() ==> map.ensures(
                    (
                        k as usize,
                        (old(self).depth_of(Tr::spec_order(old(self), idx.spec_pos() as int)[k] as int) - old(
                            self,
                        ).depth_of(idx.spec_pos() as int)) as usize,
                        &old(self)@.data(Tr::spec_order(old(self), idx.spec_pos() as int)[k] as int),
                    ),
                    #[trigger] final(self)@.data(Tr::spec_order(old(self), idx.spec_pos() as int)[k] as int),
                ),
    {
        let i = idx.pos;
        let order = Tr::order(self, i);
        let ghost old_tree = *self;
        let rel = self.relative_depths(idx, &order);
        proof {
            Tr::lemma_visits_subtree_once(self, i as int);
            self.lemma_pre_node_no_dup(i as int);
            lemma_same_items_same_set(self.pre_node(i as int), order@);
            assert forall|j: int| 0 <= j < self@.n() implies #[trigger] self.in_subtree(j, i as int) == order@.contains(
                j as usize,
            ) by {
                assert(self.pre_node(i as int).to_set().contains(j as usize) == order@.to_set().contains(j as usize));
            }
        }
        let mut k: usize = 0;
        while k < order.len()
            invariant
                self.wf(),
                self.memory_state() == old_tree.memory_state(),
                self@.same_links(old_tree@),
                old(self)@ == old_tree@,
                old(self).memory_state() == old_tree.memory_state(),
                forall|k: usize, d: usize, a: &T| #[trigger] map.requires((k, d, a)),
                i == idx.spec_pos(),
                k <= order@.len(),
                order@ == Tr::spec_order(&old_tree, i as int),
                order@.no_duplicates(),
                rel@.len() == order@.len(),
                forall|x: int| 0 <= x < order@.len() ==> old_tree@.active(#[trigger] order@[x] as int),
                forall|j: int| 0 <= j < old_tree@.n() ==> #[trigger] old_tree.in_subtree(j, i as int) == order@.contains(
                    j as usize,
                ),
                forall|j: int|
                    0 <= j < old_tree@.n() && !order@.subrange(0, k as int).contains(j as usize) ==> #[trigger] self@.nodes[j].data
                        == old_tree@.nodes[j].data,
                forall|x: int|
                    0 <= x < k ==> map.ensures(
                        (x as usize, rel@[x], &old_tree@.data(order@[x] as int)),
                        #[trigger] self@.data(order@[x] as int),
                    ),
            decreases order@.len() - k,
        {
            let j = order[k];
            let ghost before = *self;
            proof {
                assert(!order@.subrange(0, k as int).contains(j)) by {
                    if order@.subrange(0, k as int).contains(j) {
                        let y = order@.subrange(0, k as int).index_of(j);
                        assert(order@[y] == order@[k as int]);
                    }
                }
                assert(self@.data(j as int) == old_tree@.data(j as int));
            }
            let value = map(k, rel[k], self.data(&NodeIdx { pos: j, state: self.state }));
            self.replace_data(&NodeIdx { pos: j, state: self.state }, value);
            proof {
                assert(self@.same_links(old_tree@)) by {
                    assert forall|x: int| 0 <= x < self@.n() implies {
                        &&& (#[trigger] self@.nodes[x]).parent == old_tree@.nodes[x].parent
                        &&& self@.nodes[x].children == old_tree@.nodes[x].children
                        &&& (self@.nodes[x].data is Some <==> old_tree@.nodes[x].data is Some)
                    } by {
                        assert(before@.nodes[x].parent == old_tree@.nodes[x].parent);
                    }
                }
                assert forall|x: int| 0 <= x < k + 1 implies map.ensures(
                    (x as usize, rel@[x], &old_tree@.data(order@[x] as int)),
                    #[trigger] self@.data(order@[x] as int),
                ) by {
                    if x < k {
                        assert(order@[x] != j);
                        assert(map.ensures(
                            (x as usize, rel@[x], &old_tree@.data(order@[x] as int)),
                            before@.data(order@[x] as int),
                        ));
                    }
                }
                assert forall|jj: int|
                    0 <= jj < old_tree@.n() && !order@.subrange(0, k + 1).contains(jj as usize) implies #[trigger] self@.nodes[jj].data
                    == old_tree@.nodes[jj].data by {
                    assert(jj != j) by {
                        if jj == j {
                            assert(order@.subrange(0, k + 1)[k as int] == j);
                        }
                    }
                    if order@.subrange(0, k as int).contains(jj as usize) {
                        let y = order@.subrange(0, k as int).index_of(jj as usize);
                        assert(order@.subrange(0, k + 1)[y] == jj);
                    }
                }
            }
            k = k + 1;
        }
        proof {
            assert(order@.subrange(0, k as int) =~= order@);
        }
    }

    /// The depth below the node at `idx` of each node of `order`, which lies
    /// in the subtree of that node.
    pub(crate) fn relative_depths(&self, idx: &NodeIdx, order: &Vec<usize>) -> (r: Vec<usize>)
        requires
            self.wf(),
            self.valid_idx(*idx),
            forall|x: int| 0 <= x < order@.len() ==> self@.active(#[trigger] order@[x] as int)
                && self.depth_of(order@[x] as int) >= self.depth_of(idx.spec_pos() as int),
        ensures
            r@.len() == order@.len(),
            forall|x: int| 0 <= x < order@.len() ==> #[trigger] r@[x] == self.depth_of(order@[x] as int) - self.depth_of(
                idx.spec_pos() as int,
            ),
    {
        let base = self.depth(idx);
        let mut r: Vec<usize> = Vec::new();
        let mut k: usize = 0;
        while k < order.len()
            invariant
                self.wf(),
                base == self.depth_of(idx.spec_pos() as int),
                k <= order@.len(),
                forall|x: int| 0 <= x < order@.len() ==> self@.active(#[trigger] order@[x] as int)
                    && self.depth_of(order@[x] as int) >= self.depth_of(idx.spec_pos() as int),
                r@.len() == k,
                forall|x: int| 0 <= x < k ==> #[trigger] r@[x] == self.depth_of(order@[x] as int) - self.depth_of(
                    idx.spec_pos() as int,
                ),
            decreases order@.len() - k,
        {
            let d = self.depth(&NodeIdx { pos: order[k], state: self.state });
            r.push(d - base);
            k = k + 1;
        }
        r
    }

    /// Replaces the data of every leaf of the subtree rooted at the node by
    /// what `map` computes from the leaf's position among the leaves in the
    /// visiting order of the traverser `Tr`, its depth below the node and its
    /// current data. Other nodes and the links of the tree are unchanged.
    pub fn leaves_mut<Tr: Traverser<T, M>, F: Fn(usize, usize, &T) -> T>(&mut self, idx: &NodeIdx, map: F)
        requires
            old(self).wf(),
            old(self).valid_idx(*idx),
            forall|k: usize, d: usize, a: &T| #[trigger] map.requires((k, d, a)),
        ensures
            final(self).wf(),
            final(self).memory_state() == old(self).memory_state(),
            final(self)@.same_links(old(self)@),
            forall|j: int|
                0 <= j < old(self)@.n() && old(self)@.active(j) && !(old(self).in_subtree(j, idx.spec_pos() as int)
                    && old(self)@.children(j).len() == 0) ==> #[trigger] final(self)@.data(j) == old(self)@.data(j),
            forall|l: int|
                0 <= l < old(self).leaves_of(Tr::spec_order(old(self), idx.spec_pos() as int)).len() ==> map.ensures(
                    (
                        l as usize,
                        (old(self).depth_of(
                            old(self).leaves_of(Tr::spec_order(old(self), idx.spec_pos() as int))[l] as int,
                        ) - old(self).depth_of(idx.spec_pos() as int)) as usize,
                        &old(self)@.data(old(self).leaves_of(Tr::spec_order(old(self), idx.spec_pos() as int))[l] as int),
                    ),
                    #[trigger] final(self)@.data(
                        old(self).leaves_of(Tr::spec_order(old(self), idx.spec_pos() as int))[l] as int,
                    ),
                ),
    {
        let i = idx.pos;
        let order = Tr::order(self, i);
        let ghost old_tree = *self;
        let rel = self.relative_depths(idx, &order);
        proof {
            Tr::lemma_visits_subtree_once(self, i as int);
            self.lemma_pre_node_no_dup(i as int);
            lemma_same_items_same_set(self.pre_node(i as int), order@);
            assert forall|j: int| 0 <= j < self@.n() implies #[trigger] self.in_subtree(j, i as int) == order@.contains(
                j as usize,
            ) by {
                assert(self.pre_node(i as int).to_set().contains(j as usize) == order@.to_set().contains(j as usize));
            }
            reveal(Seq::filter);
            assert(order@.take(0) =~= Seq::<usize>::empty());
        }
        let mut k: usize = 0;
        let mut l: usize = 0;
        let ghost mut taken: Seq<usize> = Seq::empty();
        while k < order.len()
            invariant
                self.wf(),
                self.memory_state() == old_tree.memory_state(),
                self@.same_links(old_tree@),
                old(self)@ == old_tree@,
                old(self).memory_state() == old_tree.memory_state(),
                forall|k: usize, d: usize, a: &T| #[trigger] map.requires((k, d, a)),
                i == idx.spec_pos(),
                k <= order@.len(),
                order@ == Tr::spec_order(&old_tree, i as int),
                order@.no_duplicates(),
                rel@.len() == order@.len(),
                forall|x: int| 0 <= x < order@.len() ==> #[trigger] rel@[x] == old_tree.depth_of(order@[x] as int)
                    - old_tree.depth_of(i as int),
                forall|x: int| 0 <= x < order@.len() ==> old_tree@.active(#[trigger] order@[x] as int),
                forall|j: int| 0 <= j < old_tree@.n() ==> #[trigger] old_tree.in_subtree(j, i as int) == order@.contains(
                    j as usize,
                ),
                forall|j: int|
                    0 <= j < old_tree@.n() && !(order@.subrange(0, k as int).contains(j as usize) && old_tree@.children(j).len()
                        == 0) ==> #[trigger] self@.nodes[j].data == old_tree@.nodes[j].data,
                taken == old_tree.leaves_of(order@.take(k as int)),
                l == taken.len(),
                forall|x: int|
                    0 <= x < taken.len() ==> map.ensures(
                        (
                            x as usize,
                            (old_tree.depth_of(taken[x] as int) - old_tree.depth_of(i as int)) as usize,
                            &old_tree@.data(taken[x] as int),
                        ),
                        #[trigger] self@.data(taken[x] as int),
                    ),
            decreases order@.len() - k,
        {
            let j = order[k];
            let ghost before = *self;
            proof {
                assert(!order@.subrange(0, k as int).contains(j)) by {
                    if order@.subrange(0, k as int).contains(j) {
                        let y = order@.subrange(0, k as int).index_of(j);
                        assert(order@[y] == order@[k as int]);
                    }
                }
                assert(order@.take(k as int) =~= order@.subrange(0, k as int));
                assert(self@.data(j as int) == old_tree@.data(j as int));
                assert(self@.children(j as int) == old_tree@.children(j as int));
                reveal(Seq::filter);
                assert(order@.take(k + 1).drop_last() =~= order@.take(k as int));
                assert(order@.take(k + 1).last() == order@[k as int]);
                order@.take(k as int).lemma_filter_len(|y: usize| old_tree@.children(y as int).len() == 0);
                assert forall|x: int| 0 <= x < taken.len() implies #[trigger] taken[x] != j && old_tree@.active(
                    taken[x] as int,
                ) by {
                    order@.take(k as int).lemma_filter_contains_rev(
                        |y: usize| old_tree@.children(y as int).len() == 0,
                        taken[x],
                    );
                    let y = order@.take(k as int).index_of(taken[x]);
                    assert(order@[y] == taken[x]);
                }
            }
            if self.nodes[j].children.len() == 0 {
                let value = map(l, rel[k], self.data(&NodeIdx { pos: j, state: self.state }));
                let ghost new_value = value;
                proof {
                    assert(map.ensures((l, rel@[k as int], &old_tree@.data(j as int)), new_value));
                    assert((old_tree.depth_of(j as int) - old_tree.depth_of(i as int)) as usize == rel@[k as int]);
                }
                self.replace_data(&NodeIdx { pos: j, state: self.state }, value);
                proof {
                    assert(self@.data(j as int) == new_value);
                    assert(self@.same_links(old_tree@)) by {
                        assert forall|x: int| 0 <= x < self@.n() implies {
                            &&& (#[trigger] self@.nodes[x]).parent == old_tree@.nodes[x].parent
                            &&& self@.nodes[x].children == old_tree@.nodes[x].children
                            &&& (self@.nodes[x].data is Some <==> old_tree@.nodes[x].data is Some)
                        } by {
                            assert(before@.nodes[x].parent == old_tree@.nodes[x].parent);
                        }
                    }
                    let prev = taken;
                    taken = taken.push(j);
                    assert forall|x: int| 0 <= x < taken.len() implies map.ensures(
                        (
                            x as usize,
                            (old_tree.depth_of(taken[x] as int) - old_tree.depth_of(i as int)) as usize,
                            &old_tree@.data(taken[x] as int),
                        ),
                        #[trigger] self@.data(taken[x] as int),
                    ) by {
                        if x == prev.len() {
                            assert(taken[x] == j);
                            assert(x as usize == l);
                            assert(map.ensures((l, rel@[k as int], &old_tree@.data(j as int)), self@.data(j as int)));
                            assert((old_tree.depth_of(taken[x] as int) - old_tree.depth_of(i as int)) as usize == rel@[k as int]);
                        }
                        if x < prev.len() {
                            assert(taken[x] == prev[x]);
                            assert(prev[x] != j);
                            assert(map.ensures(
                                (
                                    x as usize,
                                    (old_tree.depth_of(prev[x] as int) - old_tree.depth_of(i as int)) as usize,
                                    &old_tree@.data(prev[x] as int),
                                ),
                                before@.data(prev[x] as int),
                            ));
                            assert(self@.data(prev[x] as int) == before@.data(prev[x] as int));
                        }
                    }
                    assert forall|jj: int|
                        0 <= jj < old_tree@.n() && !(order@.subrange(0, k + 1).contains(jj as usize) && old_tree@.children(jj).len()
                            == 0) implies #[trigger] self@.nodes[jj].data == old_tree@.nodes[jj].data by {
                        if jj != j {
                            if order@.subrange(0, k as int).contains(jj as usize) {
                                let y = order@.subrange(0, k as int).index_of(jj as usize);
                                assert(order@.subrange(0, k + 1)[y] == jj);
                            }
                        } else {
                            assert(order@.subrange(0, k + 1)[k as int] == j);
                        }
                    }
                }
                l = l + 1;
            } else {
                proof {
                    assert forall|jj: int|
                        0 <= jj < old_tree@.n() && !(order@.subrange(0, k + 1).contains(jj as usize) && old_tree@.children(jj).len()
                            == 0) implies #[trigger] self@.nodes[jj].data == old_tree@.nodes[jj].data by {
                        if jj != j {
                            if order@.subrange(0, k as int).contains(jj as usize) {
                                let y = order@.subrange(0, k as int).index_of(jj as usize);
                                assert(order@.subrange(0, k + 1)[y] == jj);
                            }
                        }
                    }
                }
            }
            k = k + 1;
        }
        proof {
            assert(order@.take(k as int) =~= order@);
        }
    }
}

} // verus!
