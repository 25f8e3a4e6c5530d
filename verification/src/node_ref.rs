use vstd::prelude::*;

use crate::memory::MemoryPolicy;
use crate::node_idx::NodeIdx;
use crate::traversal::Traverser;
use crate::tree::Tree;

verus! {

impl<T, M> Tree<T, M> {
    /// The node at `i` followed by its ancestors, up to the root.
    pub open(crate) spec fn ancestors_of(&self, i: int) -> Seq<usize>
        decreases self.depth_of(i),
    {
        match self@.parent(i) {
            Some(p) => if self.depth_of(p as int) < self.depth_of(i) {
                seq![i as usize] + self.ancestors_of(p as int)
            } else {
                seq![i as usize]
            },
            None => seq![i as usize],
        }
    }

    /// The leaves (nodes without children) among the positions of `order`, in order.
    pub open spec fn leaves_of(&self, order: Seq<usize>) -> Seq<usize> {
        order.filter(|j: usize| self@.children(j as int).len() == 0)
    }

    /// The node at `from` followed by its ancestors, up to the node at `to`
    /// (or up to the root if `to` is not an ancestor of `from`).
    pub open(crate) spec fn path_up(&self, from: int, to: int) -> Seq<usize>
        decreases self.depth_of(from),
    {
        if from == to {
            seq![from as usize]
        } else {
            match self@.parent(from) {
                Some(p) => if self.depth_of(p as int) < self.depth_of(from) {
                    seq![from as usize] + self.path_up(p as int, to)
                } else {
                    seq![from as usize]
                },
                None => seq![from as usize],
            }
        }
    }

    /// The index of the node at position `pos` in the current memory state.
    pub open spec fn idx_at(&self, idx: NodeIdx, pos: int) -> bool {
        idx.spec_pos() == pos && idx.spec_state() == self.memory_state()
    }
}

impl<T, M: MemoryPolicy> Tree<T, M> {
    /// Data of the nodes of the subtree rooted at the node, in the order of
    /// the traverser `Tr`.
    pub fn walk<Tr: Traverser<T, M>>(&self, idx: &NodeIdx) -> (r: Vec<&T>)
        requires
            self.wf(),
            self.valid_idx(*idx),
        ensures
            r@.len() == Tr::spec_order(self, idx.spec_pos() as int).len(),
            forall|k: int|
                0 <= k < r@.len() ==> *(#[trigger] r@[k]) == self@.data(
                    Tr::spec_order(self, idx.spec_pos() as int)[k] as int,
                ),
    {
        let order = Tr::order(self, idx.pos);
        let mut out: Vec<&T> = Vec::new();
        let mut k: usize = 0;
        while k < order.len()
            invariant
                self.wf(),
                k <= order@.len(),
                order@ == Tr::spec_order(self, idx.spec_pos() as int),
                forall|x: int| 0 <= x < order@.len() ==> self@.active(#[trigger] order@[x] as int),
                out@.len() == k,
                forall|x: int| 0 <= x < k ==> *(#[trigger] out@[x]) == self@.data(order@[x] as int),
            decreases order@.len() - k,
        {
            let j = order[k];
            out.push(self.data(&NodeIdx { pos: j, state: self.state }));
            k = k + 1;
        }
        out
    }

    /// Indices of the nodes of the subtree rooted at the node, in the order
    /// of the traverser `Tr`.
    pub fn indices<Tr: Traverser<T, M>>(&self, idx: &NodeIdx) -> (r: Vec<NodeIdx>)
        requires
            self.wf(),
            self.valid_idx(*idx),
        ensures
            r@.len() == Tr::spec_order(self, idx.spec_pos() as int).len(),
            forall|k: int|
                0 <= k < r@.len() ==> self.idx_at(
                    #[trigger] r@[k],
                    Tr::spec_order(self, idx.spec_pos() as int)[k] as int,
                ) && self.valid_idx(r@[k]),
    {
        let order = Tr::order(self, idx.pos);
        let mut out: Vec<NodeIdx> = Vec::new();
        let mut k: usize = 0;
        while k < order.len()
            invariant
                self.wf(),
                k <= order@.len(),
                order@ == Tr::spec_order(self, idx.spec_pos() as int),
                forall|x: int| 0 <= x < order@.len() ==> self@.active(#[trigger] order@[x] as int),
                out@.len() == k,
                forall|x: int| 0 <= x < k ==> self.idx_at(#[trigger] out@[x], order@[x] as int) && self.valid_idx(out@[x]),
            decreases order@.len() - k,
        {
            out.push(NodeIdx { pos: order[k], state: self.state });
            k = k + 1;
        }
        out
    }

    /// Depths, relative to the node, and data of the nodes of the subtree
    /// rooted at the node, in the order of the traverser `Tr`.
    pub fn walk_with_depth<Tr: Traverser<T, M>>(&self, idx: &NodeIdx) -> (r: Vec<(usize, &T)>)
        requires
            self.wf(),
            self.valid_idx(*idx),
        ensures
            r@.len() == Tr::spec_order(self, idx.spec_pos() as int).len(),
            forall|k: int|
                0 <= k < r@.len() ==> {
                    let j = Tr::spec_order(self, idx.spec_pos() as int)[k] as int;
                    &&& (#[trigger] r@[k]).0 == self.depth_of(j) - self.depth_of(idx.spec_pos() as int)
                    &&& *r@[k].1 == self@.data(j)
                },
    {
        let order = Tr::order(self, idx.pos);
        let base = self.depth(idx);
        let mut out: Vec<(usize, &T)> = Vec::new();
        let mut k: usize = 0;
        while k < order.len()
            invariant
                self.wf(),
                self.valid_idx(*idx),
                base == self.depth_of(idx.spec_pos() as int),
                k <= order@.len(),
                order@ == Tr::spec_order(self, idx.spec_pos() as int),
                forall|x: int| 0 <= x < order@.len() ==> self@.active(#[trigger] order@[x] as int)
                    && self.depth_of(order@[x] as int) >= self.depth_of(idx.spec_pos() as int),
                out@.len() == k,
                forall|x: int| 0 <= x < k ==> {
                    let j = order@[x] as int;
                    &&& (#[trigger] out@[x]).0 == self.depth_of(j) - self.depth_of(idx.spec_pos() as int)
                    &&& *out@[x].1 == self@.data(j)
                },
            decreases order@.len() - k,
        {
            let j = NodeIdx { pos: order[k], state: self.state };
            let d = self.depth(&j);
            out.push((d - base, self.data(&j)));
            k = k + 1;
        }
        out
    }

    /// Depths relative to the node, sibling indices (zero for the node
    /// itself) and data of the nodes of the subtree rooted at the node, in the
    /// order of the traverser `Tr`.
    pub fn walk_with_depth_and_sibling<Tr: Traverser<T, M>>(&self, idx: &NodeIdx) -> (r: Vec<(usize, usize, &T)>)
        requires
            self.wf(),
            self.valid_idx(*idx),
        ensures
            r@.len() == Tr::spec_order(self, idx.spec_pos() as int).len(),
            forall|k: int|
                0 <= k < r@.len() ==> {
                    let j = Tr::spec_order(self, idx.spec_pos() as int)[k] as int;
                    &&& (#[trigger] r@[k]).0 == self.depth_of(j) - self.depth_of(idx.spec_pos() as int)
                    &&& r@[k].1 == if j == idx.spec_pos() { 0 } else { self@.sibling_index(j) }
                    &&& *r@[k].2 == self@.data(j)
                },
    {
        let order = Tr::order(self, idx.pos);
        let base = self.depth(idx);
        let mut out: Vec<(usize, usize, &T)> = Vec::new();
        let mut k: usize = 0;
        while k < order.len()
            invariant
                self.wf(),
                self.valid_idx(*idx),
                base == self.depth_of(idx.spec_pos() as int),
                k <= order@.len(),
                order@ == Tr::spec_order(self, idx.spec_pos() as int),
                forall|x: int| 0 <= x < order@.len() ==> self@.active(#[trigger] order@[x] as int)
                    && self.depth_of(order@[x] as int) >= self.depth_of(idx.spec_pos() as int),
                out@.len() == k,
                forall|x: int| 0 <= x < k ==> {
                    let j = order@[x] as int;
                    &&& (#[trigger] out@[x]).0 == self.depth_of(j) - self.depth_of(idx.spec_pos() as int)
                    &&& out@[x].1 == if j == idx.spec_pos() { 0 } else { self@.sibling_index(j) }
                    &&& *out@[x].2 == self@.data(j)
                },
            decreases order@.len() - k,
        {
            let j = NodeIdx { pos: order[k], state: self.state };
            let d = self.depth(&j);
            let s = if order[k] == idx.pos { 0 } else { self.sibling_idx(&j) };
            out.push((d - base, s, self.data(&j)));
            k = k + 1;
        }
        out
    }

    /// Data of the leaves (nodes without children) of the subtree rooted at
    /// the node, in the order of the traverser `Tr`.
    pub fn leaves<Tr: Traverser<T, M>>(&self, idx: &NodeIdx) -> (r: Vec<&T>)
        requires
            self.wf(),
            self.valid_idx(*idx),
        ensures
            r@.len() == self.leaves_of(Tr::spec_order(self, idx.spec_pos() as int)).len(),
            forall|k: int|
                0 <= k < r@.len() ==> *(#[trigger] r@[k]) == self@.data(
                    self.leaves_of(Tr::spec_order(self, idx.spec_pos() as int))[k] as int,
                ),
    {
        let order = Tr::order(self, idx.pos);
        let mut out: Vec<&T> = Vec::new();
        let mut k: usize = 0;
        let ghost mut taken: Seq<usize> = Seq::empty();
        proof {
            assert(order@.take(0) =~= Seq::<usize>::empty());
            reveal(Seq::filter);
        }
        while k < order.len()
            invariant
                self.wf(),
                k <= order@.len(),
                order@ == Tr::spec_order(self, idx.spec_pos() as int),
                forall|x: int| 0 <= x < order@.len() ==> self@.active(#[trigger] order@[x] as int),
                taken == self.leaves_of(order@.take(k as int)),
                forall|x: int| 0 <= x < taken.len() ==> self@.active(#[trigger] taken[x] as int),
                out@.len() == taken.len(),
                forall|x: int| 0 <= x < taken.len() ==> *(#[trigger] out@[x]) == self@.data(taken[x] as int),
            decreases order@.len() - k,
        {
            let j = order[k];
            proof {
                reveal(Seq::filter);
                assert(order@.take(k + 1).drop_last() =~= order@.take(k as int));
                assert(order@.take(k + 1).last() == j);
            }
            if self.nodes[j].children.len() == 0 {
                out.push(self.data(&NodeIdx { pos: j, state: self.state }));
                proof {
                    taken = taken.push(j);
                }
            }
            k = k + 1;
        }
        proof {
            assert(order@.take(k as int) =~= order@);
        }
        out
    }

    /// For each leaf of the subtree rooted at the node, in the order of the
    /// traverser `Tr`, the data of the nodes on the path from the leaf up to
    /// the node.
    pub fn paths<Tr: Traverser<T, M>>(&self, idx: &NodeIdx) -> (r: Vec<Vec<&T>>)
        requires
            self.wf(),
            self.valid_idx(*idx),
        ensures
            r@.len() == self.leaves_of(Tr::spec_order(self, idx.spec_pos() as int)).len(),
            forall|k: int|
                0 <= k < r@.len() ==> {
                    let leaf = self.leaves_of(Tr::spec_order(self, idx.spec_pos() as int))[k] as int;
                    let path = self.path_up(leaf, idx.spec_pos() as int);
                    &&& (#[trigger] r@[k])@.len() == path.len()
                    &&& forall|x: int| 0 <= x < path.len() ==> *(#[trigger] r@[k]@[x]) == self@.data(path[x] as int)
                },
    {
        let order = Tr::order(self, idx.pos);
        let mut out: Vec<Vec<&T>> = Vec::new();
        let mut k: usize = 0;
        let ghost mut taken: Seq<usize> = Seq::empty();
        proof {
            assert(order@.take(0) =~= Seq::<usize>::empty());
            reveal(Seq::filter);
        }
        while k < order.len()
            invariant
                self.wf(),
                self.valid_idx(*idx),
                k <= order@.len(),
                order@ == Tr::spec_order(self, idx.spec_pos() as int),
                forall|x: int| 0 <= x < order@.len() ==> self@.active(#[trigger] order@[x] as int)
                    && self.depth_of(order@[x] as int) >= self.depth_of(idx.spec_pos() as int),
                taken == self.leaves_of(order@.take(k as int)),
                out@.len() == taken.len(),
                forall|x: int| 0 <= x < taken.len() ==> {
                    let path = self.path_up(taken[x] as int, idx.spec_pos() as int);
                    &&& (#[trigger] out@[x])@.len() == path.len()
                    &&& forall|y: int| 0 <= y < path.len() ==> *(#[trigger] out@[x]@[y]) == self@.data(path[y] as int)
                },
            decreases order@.len() - k,
        {
            let j = order[k];
            proof {
                reveal(Seq::filter);
                assert(order@.take(k + 1).drop_last() =~= order@.take(k as int));
                assert(order@.take(k + 1).last() == j);
            }
            if self.nodes[j].children.len() == 0 {
                let path = self.path_data(j, idx.pos);
                out.push(path);
                proof {
                    taken = taken.push(j);
                }
            }
            k = k + 1;
        }
        proof {
            assert(order@.take(k as int) =~= order@);
        }
        out
    }

    /// Data of the nodes on the path from the node at `from` up to the node at
    /// `to`, or up to the root if `to` is not an ancestor of `from`.
    fn path_data(&self, from: usize, to: usize) -> (r: Vec<&T>)
        requires
            self.wf(),
            self@.active(from as int),
        ensures
            r@.len() == self.path_up(from as int, to as int).len(),
            forall|x: int| 0 <= x < r@.len() ==> *(#[trigger] r@[x]) == self@.data(self.path_up(from as int, to as int)[x] as int),
    {
        let mut out: Vec<&T> = Vec::new();
        let mut current = from;
        let ghost target = self.path_up(from as int, to as int);
        loop
            invariant_except_break
                self.wf(),
                self@.active(current as int),
                out@.len() + self.path_up(current as int, to as int).len() == target.len(),
                forall|j: int| 0 <= j < out@.len() ==> *(#[trigger] out@[j]) == self@.data(target[j] as int),
                forall|j: int| 0 <= j < self.path_up(current as int, to as int).len() ==> #[trigger] target[out@.len() + j] == self.path_up(current as int, to as int)[j],
            ensures
                out@.len() == target.len(),
                forall|j: int| 0 <= j < out@.len() ==> *(#[trigger] out@[j]) == self@.data(target[j] as int),
            decreases self.depth_of(current as int),
        {
            proof {
                assert(self.wf_slot(current as int));
                assert(target[out@.len() + 0int] == self.path_up(current as int, to as int)[0]);
            }
            out.push(self.data(&NodeIdx { pos: current, state: self.state }));
            if current == to {
                break;
            }
            match self.nodes[current].parent {
                Some(p) => {
                    proof {
                        let a = self.path_up(current as int, to as int);
                        assert(a == seq![current] + self.path_up(p as int, to as int));
                        assert forall|j: int| 0 <= j < self.path_up(p as int, to as int).len() implies #[trigger] target[out@.len() + j] == self.path_up(p as int, to as int)[j] by {
                            assert(target[(out@.len() - 1) + (j + 1)] == a[j + 1]);
                        }
                    }
                    current = p;
                },
                None => {
                    break;
                },
            }
        }
        out
    }

    /// Whether the node is the root of the tree.
    pub fn is_root(&self, idx: &NodeIdx) -> (r: bool)
        requires
            self.wf(),
            self.valid_idx(*idx),
        ensures
            r == (self@.parent(idx.spec_pos() as int) is None),
            r == (self@.root == Some(idx.spec_pos())),
    {
        proof {
            assert(self.wf_slot(idx.spec_pos() as int));
        }
        self.nodes[idx.pos].parent.is_none()
    }

    /// Number of children of the node.
    pub fn num_children(&self, idx: &NodeIdx) -> (r: usize)
        requires
            self.wf(),
            self.valid_idx(*idx),
        ensures
            r == self@.children(idx.spec_pos() as int).len(),
    {
        self.nodes[idx.pos].children.len()
    }

    /// Whether the node has no children.
    pub fn is_leaf(&self, idx: &NodeIdx) -> (r: bool)
        requires
            self.wf(),
            self.valid_idx(*idx),
        ensures
            r == (self@.children(idx.spec_pos() as int).len() == 0),
    {
        self.num_children(idx) == 0
    }

    /// Index of the parent of the node; `None` for the root.
    pub fn parent(&self, idx: &NodeIdx) -> (r: Option<NodeIdx>)
        requires
            self.wf(),
            self.valid_idx(*idx),
        ensures
            match r {
                Some(pi) => self@.parent(idx.spec_pos() as int) == Some(pi.spec_pos()) && self.idx_at(
                    pi,
                    pi.spec_pos() as int,
                ) && self.valid_idx(pi),
                None => self@.parent(idx.spec_pos() as int) is None,
            },
    {
        proof {
            assert(self.wf_slot(idx.spec_pos() as int));
        }
        match self.nodes[idx.pos].parent {
            Some(p) => Some(NodeIdx { pos: p, state: self.state }),
            None => None,
        }
    }

    /// Index of the `child_index`-th child of the node, or `None` if it has
    /// fewer children.
    pub fn child(&self, idx: &NodeIdx, child_index: usize) -> (r: Option<NodeIdx>)
        requires
            self.wf(),
            self.valid_idx(*idx),
        ensures
            child_index < self@.children(idx.spec_pos() as int).len() ==> r is Some && self.idx_at(
                r->0,
                self@.children(idx.spec_pos() as int)[child_index as int] as int,
            ) && self.valid_idx(r->0),
            child_index >= self@.children(idx.spec_pos() as int).len() ==> r is None,
    {
        let ch = &self.nodes[idx.pos].children;
        if child_index < ch.len() {
            proof {
                assert(self.wf_slot(idx.spec_pos() as int));
                assert(self@.active(ch@[child_index as int] as int));
            }
            Some(NodeIdx { pos: ch[child_index], state: self.state })
        } else {
            None
        }
    }

    /// Indices of the children of the node, from left to right.
    pub fn children(&self, idx: &NodeIdx) -> (r: Vec<NodeIdx>)
        requires
            self.wf(),
            self.valid_idx(*idx),
        ensures
            r@.len() == self@.children(idx.spec_pos() as int).len(),
            forall|k: int|
                0 <= k < r@.len() ==> self.idx_at(
                    #[trigger] r@[k],
                    self@.children(idx.spec_pos() as int)[k] as int,
                ) && self.valid_idx(r@[k]),
    {
        let ch = &self.nodes[idx.pos].children;
        let mut out: Vec<NodeIdx> = Vec::new();
        let mut k: usize = 0;
        proof {
            assert(self.wf_slot(idx.spec_pos() as int));
        }
        while k < ch.len()
            invariant
                self.wf(),
                self.valid_idx(*idx),
                ch@ == self@.children(idx.spec_pos() as int),
                k <= ch@.len(),
                out@.len() == k,
                forall|j: int| 0 <= j < k ==> self.idx_at(#[trigger] out@[j], ch@[j] as int) && self.valid_idx(out@[j]),
            decreases ch@.len() - k,
        {
            proof {
                assert(self.wf_slot(idx.spec_pos() as int));
                assert(self@.active(ch@[k as int] as int));
            }
            out.push(NodeIdx { pos: ch[k], state: self.state });
            k = k + 1;
        }
        out
    }

    /// Position of the node among the children of its parent; zero for the root.
    pub fn sibling_idx(&self, idx: &NodeIdx) -> (r: usize)
        requires
            self.wf(),
            self.valid_idx(*idx),
        ensures
            r == self@.sibling_index(idx.spec_pos() as int),
            self@.parent(idx.spec_pos() as int) is Some ==> r < self@.children(
                self@.parent(idx.spec_pos() as int)->0 as int,
            ).len() && self@.children(self@.parent(idx.spec_pos() as int)->0 as int)[r as int]
                == idx.spec_pos(),
    {
        let i = idx.pos;
        proof {
            assert(self.wf_slot(i as int));
        }
        match self.nodes[i].parent {
            None => 0,
            Some(p) => {
                let ch = &self.nodes[p].children;
                proof {
                    assert(self.wf_slot(p as int));
                    assert(ch@.contains(i));
                }
                let mut k: usize = 0;
                while k < ch.len()
                    invariant
                        k <= ch@.len(),
                        ch@.contains(i),
                        ch@.no_duplicates(),
                        ch@ == self@.children(p as int),
                        self@.parent(i as int) == Some(p),
                        i == idx.spec_pos(),
                        forall|j: int| 0 <= j < k ==> ch@[j] != i,
                    decreases ch@.len() - k,
                {
                    if ch[k] == i {
                        proof {
                            let w = ch@.index_of(i);
                            assert(ch@.no_duplicates());
                            assert(ch@[w] == i);
                        }
                        return k;
                    }
                    k = k + 1;
                }
                proof {
                    let w = ch@.index_of(i);
                    assert(ch@[w] == i);
                    assert(false);
                }
                0
            },
        }
    }

    /// Depth of the node: the number of edges between it and the root.
    pub fn depth(&self, idx: &NodeIdx) -> (r: usize)
        requires
            self.wf(),
            self.valid_idx(*idx),
        ensures
            r == self.depth_of(idx.spec_pos() as int),
    {
        let mut current = idx.pos;
        let mut depth: usize = 0;
        proof {
            assert(self.wf_slot(current as int));
        }
        while self.nodes[current].parent.is_some()
            invariant
                self.wf(),
                self@.active(current as int),
                depth + self.depth_of(current as int) == self.depth_of(idx.spec_pos() as int),
                self.depth_of(idx.spec_pos() as int) < self@.n(),
            decreases self.depth_of(current as int),
        {
            proof {
                assert(self.wf_slot(current as int));
            }
            current = self.nodes[current].parent.unwrap();
            depth = depth + 1;
        }
        proof {
            assert(self.wf_slot(current as int));
            assert(self@.root == Some(current));
        }
        depth
    }

    /// Indices of the node and its ancestors, from the node up to the root.
    pub fn ancestors(&self, idx: &NodeIdx) -> (r: Vec<NodeIdx>)
        requires
            self.wf(),
            self.valid_idx(*idx),
        ensures
            r@.len() == self.ancestors_of(idx.spec_pos() as int).len(),
            forall|k: int|
                0 <= k < r@.len() ==> self.idx_at(
                    #[trigger] r@[k],
                    self.ancestors_of(idx.spec_pos() as int)[k] as int,
                ) && self.valid_idx(r@[k]),
    {
        let mut out: Vec<NodeIdx> = Vec::new();
        let mut current = idx.pos;
        let ghost target = self.ancestors_of(idx.spec_pos() as int);
        loop
            invariant_except_break
                self.wf(),
                self@.active(current as int),
                out@.len() + self.ancestors_of(current as int).len() == target.len(),
                forall|j: int| 0 <= j < out@.len() ==> self.idx_at(#[trigger] out@[j], target[j] as int) && self.valid_idx(out@[j]),
                forall|j: int| 0 <= j < self.ancestors_of(current as int).len() ==> #[trigger] target[out@.len() + j] == self.ancestors_of(current as int)[j],
            ensures
                out@.len() == target.len(),
                forall|j: int| 0 <= j < out@.len() ==> self.idx_at(#[trigger] out@[j], target[j] as int) && self.valid_idx(out@[j]),
            decreases self.depth_of(current as int),
        {
            proof {
                assert(self.wf_slot(current as int));
                assert(target[out@.len() + 0int] == self.ancestors_of(current as int)[0]);
            }
            out.push(NodeIdx { pos: current, state: self.state });
            match self.nodes[current].parent {
                Some(p) => {
                    proof {
                        let a = self.ancestors_of(current as int);
                        assert(a == seq![current] + self.ancestors_of(p as int));
                        assert forall|j: int| 0 <= j < self.ancestors_of(p as int).len() implies #[trigger] target[out@.len() + j] == self.ancestors_of(p as int)[j] by {
                            assert(target[(out@.len() - 1) + (j + 1)] == a[j + 1]);
                        }
                    }
                    current = p;
                },
                None => {
                    break;
                },
            }
        }
        out
    }
}

} // verus!
