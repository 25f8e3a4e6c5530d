use vstd::prelude::*;

use crate::memory::MemoryPolicy;
use crate::node::Node;
use crate::node_idx::NodeIdx;
use crate::reclaim::{keep_active, lemma_distinct_below, lemma_keep_active, rank};
use crate::tree::{Tree, TreeView};

verus! {

impl<T, M> Tree<T, M> {
    /// The node at position `pos`, as a walking function receives it.
    pub open(crate) spec fn node_at<'a>(&'a self, pos: int) -> Node<'a, T, M> {
        Node { tree: self, idx: NodeIdx::spec_new(pos as usize, self.memory_state()) }
    }

    /// Whether `next_node`, called on the node at position `from`, may
    /// return a node whose index has position `to` in the current state.
    pub open(crate) spec fn steps_to<'a, F: Fn(Node<'a, T, M>) -> Option<Node<'a, T, M>>>(
        &'a self,
        next_node: F,
        from: int,
        to: int,
    ) -> bool {
        exists|m: Option<Node<'a, T, M>>|
            #[trigger] next_node.ensures((self.node_at(from),), m) && m is Some && m->0.spec_idx()
                == NodeIdx::spec_new(to as usize, self.memory_state())
    }

    /// Whether `next_node`, called on the node at position `from`, may end a
    /// walk that has visited `order`: it returns no node, a node whose index
    /// is not valid for this tree, or a node already visited.
    pub open(crate) spec fn stops_at<'a, F: Fn(Node<'a, T, M>) -> Option<Node<'a, T, M>>>(
        &'a self,
        next_node: F,
        from: int,
        order: Seq<usize>,
    ) -> bool {
        exists|m: Option<Node<'a, T, M>>|
            #[trigger] next_node.ensures((self.node_at(from),), m) && (m is None || !self.valid_idx(m->0.spec_idx())
                || order.contains(m->0.spec_idx().spec_pos()))
    }

    /// Whether `order` is a walk along `next_node` from the node at
    /// `order[0]`: distinct active positions, each one what `next_node`
    /// returns for the one before, up to a node for which `next_node` ends the
    /// walk.
    pub open(crate) spec fn custom_walk_of<'a, F: Fn(Node<'a, T, M>) -> Option<Node<'a, T, M>>>(
        &'a self,
        next_node: F,
        order: Seq<usize>,
    ) -> bool {
        &&& order.len() >= 1
        &&& order.no_duplicates()
        &&& forall|k: int| 0 <= k < order.len() ==> self@.active(#[trigger] order[k] as int)
        &&& forall|k: int|
            0 <= k < order.len() - 1 ==> #[trigger] self.steps_to(next_node, order[k] as int, order[k + 1] as int)
        &&& self.stops_at(next_node, order.last() as int, order)
    }
}

impl<T, M: MemoryPolicy> Tree<T, M> {
    /// The positions visited by a walk from the node at `idx` along
    /// `next_node`.
    fn custom_walk_positions<'a, F: Fn(Node<'a, T, M>) -> Option<Node<'a, T, M>>>(
        &'a self,
        idx: &NodeIdx,
        next_node: F,
    ) -> (r: Vec<usize>)
        requires
            self.wf(),
            self.valid_idx(*idx),
            forall|n: Node<'a, T, M>| #[trigger] next_node.requires((n,)),
        ensures
            self.custom_walk_of(next_node, r@),
            r@[0] == idx.spec_pos(),
    {
        let n = self.nodes.len();
        let mut visited: Vec<bool> = Vec::new();
        let mut p: usize = 0;
        while p < n
            invariant
                p <= n,
                visited@.len() == p,
                forall|x: int| 0 <= x < p ==> !(#[trigger] visited@[x]),
            decreases n - p,
        {
            visited.push(false);
            p = p + 1;
        }
        let start = idx.pos;
        visited.set(start, true);
        let mut out: Vec<usize> = Vec::new();
        out.push(start);
        let mut cur = start;
        let mut done = false;
        proof {
            assert forall|x: int| 0 <= x < n implies #[trigger] visited@[x] == out@.contains(x as usize) by {
                if x == start {
                    assert(out@[0] == start);
                }
            }
        }
        while !done
            invariant
                self.wf(),
                n == self@.n(),
                forall|n: Node<'a, T, M>| #[trigger] next_node.requires((n,)),
                out@.len() >= 1,
                out@[0] == start,
                start == idx.spec_pos(),
                cur == out@.last(),
                out@.no_duplicates(),
                forall|k: int| 0 <= k < out@.len() ==> self@.active(#[trigger] out@[k] as int),
                visited@.len() == n,
                forall|x: int| 0 <= x < n ==> #[trigger] visited@[x] == out@.contains(x as usize),
                out@.len() <= n,
                forall|k: int|
                    0 <= k < out@.len() - 1 ==> #[trigger] self.steps_to(next_node, out@[k] as int, out@[k + 1] as int),
                done ==> self.stops_at(next_node, cur as int, out@),
            decreases n + 1 - out@.len() - (if done { 1int } else { 0int }),
        {
            let here = Node { tree: self, idx: NodeIdx { pos: cur, state: self.state } };
            proof {
                assert(here == self.node_at(cur as int));
            }
            let m = next_node(here);
            match m {
                None => {
                    proof {
                        assert(next_node.ensures((self.node_at(cur as int),), m));
                    }
                    done = true;
                },
                Some(node) => {
                    let j = node.idx();
                    if !self.is_node_idx_valid(&j) {
                        proof {
                            assert(next_node.ensures((self.node_at(cur as int),), m));
                        }
                        done = true;
                    } else if visited[j.pos] {
                        proof {
                            assert(next_node.ensures((self.node_at(cur as int),), m));
                            assert(out@.contains(j.spec_pos()));
                        }
                        done = true;
                    } else {
                        let ghost before = out@;
                        let ghost prev = cur as int;
                        let ghost visited_before = visited@;
                        proof {
                            assert(next_node.ensures((self.node_at(cur as int),), m));
                            assert(self.steps_to(next_node, cur as int, j.pos as int));
                        }
                        visited.set(j.pos, true);
                        out.push(j.pos);
                        cur = j.pos;
                        proof {
                            assert(out@ == before.push(j.pos));
                            assert forall|x: int| 0 <= x < n implies #[trigger] visited@[x] == out@.contains(x as usize) by {
                                if x == j.pos {
                                    assert(out@[out@.len() - 1] == j.pos);
                                } else {
                                    assert(visited@[x] == visited_before[x]);
                                }
                                if out@.contains(x as usize) && x != j.pos {
                                    let y = out@.index_of(x as usize);
                                    assert(before[y] == x);
                                }
                                if before.contains(x as usize) {
                                    let y = before.index_of(x as usize);
                                    assert(out@[y] == x);
                                }
                            }
                            assert forall|k: int| 0 <= k < out@.len() - 1 implies #[trigger] self.steps_to(
                                next_node,
                                out@[k] as int,
                                out@[k + 1] as int,
                            ) by {
                                if k < before.len() - 1 {
                                    assert(out@[k] == before[k] && out@[k + 1] == before[k + 1]);
                                } else {
                                    assert(out@[k] == prev && out@[k + 1] == j.pos);
                                }
                            }
                            assert forall|k: int| 0 <= k < out@.len() implies self@.active(#[trigger] out@[k] as int) by {
                                if k < before.len() {
                                    assert(out@[k] == before[k]);
                                }
                            }
                            assert(!before.contains(j.pos));
                            assert forall|a: int, b: int| 0 <= a < out@.len() && 0 <= b < out@.len() && a != b implies out@[a]
                                != out@[b] by {
                                if a < before.len() && b < before.len() {
                                    assert(before[a] != before[b]);
                                } else if a < before.len() {
                                    assert(before.contains(before[a]));
                                } else if b < before.len() {
                                    assert(before.contains(before[b]));
                                }
                            }
                            assert forall|k: int| 0 <= k < out@.len() implies (#[trigger] out@[k] as int) < n by {
                                assert(self@.active(out@[k] as int));
                            }
                            lemma_distinct_below(out@, n as nat);
                        }
                    }
                },
            }
        }
        out
    }

    /// Walks from the node at `idx` along `next_node` and returns the data of
    /// the visited nodes in the order of the walk: first the node itself, then
    /// what `next_node` returns for the node before, for as long as it returns
    /// a node of this tree that the walk has not visited yet (a walk that
    /// comes back to a visited node would go round forever: it ends there).
    pub fn custom_walk<'a, F: Fn(Node<'a, T, M>) -> Option<Node<'a, T, M>>>(
        &'a self,
        idx: &NodeIdx,
        next_node: F,
    ) -> (r: Vec<&'a T>)
        requires
            self.wf(),
            self.valid_idx(*idx),
            forall|n: Node<'a, T, M>| #[trigger] next_node.requires((n,)),
        ensures
            exists|order: Seq<usize>|
                {
                    &&& #[trigger] self.custom_walk_of(next_node, order)
                    &&& order[0] == idx.spec_pos()
                    &&& r@.len() == order.len()
                    &&& forall|k: int| 0 <= k < r@.len() ==> *(#[trigger] r@[k]) == self@.data(order[k] as int)
                },
    {
        let order = self.custom_walk_positions(idx, next_node);
        let mut out: Vec<&'a T> = Vec::new();
        let mut k: usize = 0;
        while k < order.len()
            invariant
                self.wf(),
                k <= order@.len(),
                forall|x: int| 0 <= x < order@.len() ==> self@.active(#[trigger] order@[x] as int),
                out@.len() == k,
                forall|x: int| 0 <= x < k ==> *(#[trigger] out@[x]) == self@.data(order@[x] as int),
            decreases order@.len() - k,
        {
            out.push(self.data(&NodeIdx { pos: order[k], state: self.state }));
            k = k + 1;
        }
        proof {
            assert(self.custom_walk_of(next_node, order@));
        }
        out
    }

    /// Walks from the node at `idx` along `next_node`, as `custom_walk` does
    /// on the tree as it is before the call, and replaces the data of the
    /// `k`-th visited node by what `map` computes from `k` and its data.
    /// Other nodes and the links of the tree are unchanged.
    pub fn custom_walk_mut<F: Fn(Node<'_, T, M>) -> Option<Node<'_, T, M>>, G: Fn(usize, &T) -> T>(
        &mut self,
        idx: &NodeIdx,
        next_node: F,
        map: G,
    )
        requires
            old(self).wf(),
            old(self).valid_idx(*idx),
            forall|n: Node<T, M>| #[trigger] next_node.requires((n,)),
            forall|k: usize, a: &T| #[trigger] map.requires((k, a)),
        ensures
            final(self).wf(),
            final(self).memory_state() == old(self).memory_state(),
            final(self)@.same_links(old(self)@),
            exists|order: Seq<usize>|
                {
                    &&& #[trigger] old(self).custom_walk_of(next_node, order)
                    &&& order[0] == idx.spec_pos()
                    &&& forall|j: int|
                        0 <= j < old(self)@.n() && old(self)@.active(j) && !order.contains(j as usize)
                            ==> #[trigger] final(self)@.data(j) == old(self)@.data(j)
                    &&& forall|k: int|
                        0 <= k < order.len() ==> map.ensures(
                            (k as usize, &old(self)@.data(order[k] as int)),
                            #[trigger] final(self)@.data(order[k] as int),
                        )
                },
    {
        let order = self.custom_walk_positions(idx, next_node);
        let ghost old_tree = *self;
        let mut k: usize = 0;
        while k < order.len()
            invariant
                self.wf(),
                self.memory_state() == old_tree.memory_state(),
                self@.same_links(old_tree@),
                old(self)@ == old_tree@,
                old(self).memory_state() == old_tree.memory_state(),
                forall|k: usize, a: &T| #[trigger] map.requires((k, a)),
                k <= order@.len(),
                order@.no_duplicates(),
                forall|x: int| 0 <= x < order@.len() ==> old_tree@.active(#[trigger] order@[x] as int),
                forall|j: int|
                    0 <= j < old_tree@.n() && !order@.subrange(0, k as int).contains(j as usize) ==> #[trigger] self@.nodes[j].data
                        == old_tree@.nodes[j].data,
                forall|x: int|
                    0 <= x < k ==> map.ensures(
                        (x as usize, &old_tree@.data(order@[x] as int)),
                        #[trigger] self@.data(order@[x] as int),
                    ),
            decreases order@.len() - k,
        {
            let j = order[k];
            let ghost before = *self;
            proof {
                assert(!order@.subrange(0, k as int).contains(j)) by {
                    if order@.subrange(0, k as int).contains(j) {
                        let y = order@.subrange(0, k as int).index_of(j);
                        assert(order@[y] == order@[k as int]);
                    }
                }
                assert(self@.data(j as int) == old_tree@.data(j as int));
            }
            let value = map(k, self.data(&NodeIdx { pos: j, state: self.state }));
            self.replace_data(&NodeIdx { pos: j, state: self.state }, value);
            proof {
                assert(self@.same_links(old_tree@)) by {
                    assert forall|x: int| 0 <= x < self@.n() implies {
                        &&& (#[trigger] self@.nodes[x]).parent == old_tree@.nodes[x].parent
                        &&& self@.nodes[x].children == old_tree@.nodes[x].children
                        &&& (self@.nodes[x].data is Some <==> old_tree@.nodes[x].data is Some)
                    } by {
                        assert(before@.nodes[x].parent == old_tree@.nodes[x].parent);
                    }
                }
                assert forall|x: int| 0 <= x < k + 1 implies map.ensures(
                    (x as usize, &old_tree@.data(order@[x] as int)),
                    #[trigger] self@.data(order@[x] as int),
                ) by {
                    if x < k {
                        assert(order@[x] != j);
                        assert(map.ensures((x as usize, &old_tree@.data(order@[x] as int)), before@.data(order@[x] as int)));
                    }
                }
                assert forall|jj: int|
                    0 <= jj < old_tree@.n() && !order@.subrange(0, k + 1).contains(jj as usize) implies #[trigger] self@.nodes[jj].data
                    == old_tree@.nodes[jj].data by {
                    assert(jj != j) by {
                        if jj == j {
                            assert(order@.subrange(0, k + 1)[k as int] == j);
                        }
                    }
                    if order@.subrange(0, k as int).contains(jj as usize) {
                        let y = order@.subrange(0, k as int).index_of(jj as usize);
                        assert(order@.subrange(0, k + 1)[y] == jj);
                    }
                }
            }
            k = k + 1;
        }
        proof {
            assert(order@.subrange(0, k as int) =~= order@);
            assert(old_tree.custom_walk_of(next_node, order@));
        }
    }
}

/// The positions of the active nodes of `v`, in storage order.
pub open spec fn active_positions<T>(v: TreeView<T>) -> Seq<usize> {
    keep_active(v.nodes, Seq::new(v.n(), |j: int| j as usize), v.n() as int)
}

impl<T, M: MemoryPolicy> Tree<T, M> {
    /// The data of all nodes of the tree, in the order in which they are
    /// stored (which is no traversal order of the tree).
    pub fn iter(&self) -> (r: Vec<&T>)
        requires
            self.wf(),
        ensures
            r@.len() == active_positions(self@).len(),
            r@.len() == self@.num_nodes(),
            forall|k: int| 0 <= k < r@.len() ==> *(#[trigger] r@[k]) == self@.data(active_positions(self@)[k] as int),
    {
        let n = self.nodes.len();
        let ghost nodes = self@.nodes;
        let ghost pos = Seq::new(n as nat, |j: int| j as usize);
        let mut out: Vec<&T> = Vec::new();
        let mut j: usize = 0;
        while j < n
            invariant
                self.wf(),
                n == self@.n(),
                nodes == self@.nodes,
                pos == Seq::new(n as nat, |j: int| j as usize),
                j <= n,
                out@.len() == keep_active(nodes, pos, j as int).len(),
                forall|k: int|
                    0 <= k < out@.len() ==> *(#[trigger] out@[k]) == self@.data(keep_active(nodes, pos, j as int)[k] as int),
            decreases n - j,
        {
            let ghost prev = keep_active(nodes, pos, j as int);
            proof {
                assert(self.nodes@[j as int]@ == nodes[j as int]);
            }
            if self.nodes[j].data.is_some() {
                out.push(self.data(&NodeIdx { pos: j, state: self.state }));
            }
            proof {
                let cur = keep_active(nodes, pos, j + 1);
                assert(cur == prev + if nodes[j as int].data is Some {
                    seq![pos[j as int]]
                } else {
                    Seq::<usize>::empty()
                });
                assert forall|k: int| 0 <= k < out@.len() implies *(#[trigger] out@[k]) == self@.data(cur[k] as int) by {
                    if k < prev.len() {
                        assert(cur[k] == prev[k]);
                    }
                }
            }
            j = j + 1;
        }
        proof {
            lemma_keep_active(nodes, pos, n as int);
            assert(nodes.take(n as int) =~= nodes);
            assert(rank(nodes, n as int) == self@.num_nodes());
        }
        out
    }

    /// Replaces the data of every node of the tree by what `map` computes
    /// from it, visiting the nodes in the order in which they are stored. The
    /// links of the tree are unchanged.
    pub fn iter_mut<F: Fn(&T) -> T>(&mut self, map: F)
        requires
            old(self).wf(),
            forall|a: &T| #[trigger] map.requires((a,)),
        ensures
            final(self).wf(),
            final(self).memory_state() == old(self).memory_state(),
            final(self)@.same_links(old(self)@),
            forall|j: int| old(self)@.active(j) ==> map.ensures((&old(self)@.data(j),), #[trigger] final(self)@.data(j)),
    {
        let n = self.nodes.len();
        let ghost old_tree = *self;
        let mut j: usize = 0;
        while j < n
            invariant
                self.wf(),
                n == old_tree@.n(),
                self.memory_state() == old_tree.memory_state(),
                self@.same_links(old_tree@),
                old(self)@ == old_tree@,
                old(self).memory_state() == old_tree.memory_state(),
                forall|a: &T| #[trigger] map.requires((a,)),
                j <= n,
                forall|x: int| j <= x < n ==> #[trigger] self@.nodes[x].data == old_tree@.nodes[x].data,
                forall|x: int|
                    0 <= x < j && old_tree@.active(x) ==> map.ensures((&old_tree@.data(x),), #[trigger] self@.data(x)),
            decreases n - j,
        {
            let ghost before = *self;
            proof {
                assert(self.nodes@[j as int]@ == self@.nodes[j as int]);
            }
            if self.nodes[j].data.is_some() {
                let idx = NodeIdx { pos: j, state: self.state };
                let value = map(self.data(&idx));
                self.replace_data(&idx, value);
                proof {
                    assert(self@.same_links(old_tree@)) by {
                        assert forall|x: int| 0 <= x < self@.n() implies {
                            &&& (#[trigger] self@.nodes[x]).parent == old_tree@.nodes[x].parent
                            &&& self@.nodes[x].children == old_tree@.nodes[x].children
                            &&& (self@.nodes[x].data is Some <==> old_tree@.nodes[x].data is Some)
                        } by {
                            assert(before@.nodes[x].parent == old_tree@.nodes[x].parent);
                        }
                    }
                    assert forall|x: int| 0 <= x < j + 1 && old_tree@.active(x) implies map.ensures(
                        (&old_tree@.data(x),),
                        #[trigger] self@.data(x),
                    ) by {
                        if x < j {
                            assert(map.ensures((&old_tree@.data(x),), before@.data(x)));
                        }
                    }
                }
            }
            j = j + 1;
        }
    }
}

} // verus!
