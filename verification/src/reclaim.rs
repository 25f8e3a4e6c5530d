use vstd::prelude::*;

use crate::tree::{count_active, lemma_count_bound, NodeSlot, NodeView, Tree, TreeView};

verus! {

/// Number of active positions before position `j`: the position that the node
/// at `j` takes once closed positions are reclaimed.
pub open spec fn rank<T>(nodes: Seq<NodeView<T>>, j: int) -> nat {
    count_active(nodes.take(j))
}

/// Whether some active position among the first `m` has rank `r`.
pub open spec fn has_source<T>(nodes: Seq<NodeView<T>>, m: int, r: int) -> bool {
    exists|j: int| 0 <= j < m && nodes[j].data is Some && #[trigger] rank(nodes, j) == r
}

/// The values of `vals` at the active positions among the first `m`, in order.
pub open spec fn keep_active<T, A>(nodes: Seq<NodeView<T>>, vals: Seq<A>, m: int) -> Seq<A>
    decreases m,
{
    if m <= 0 {
        Seq::empty()
    } else {
        keep_active(nodes, vals, m - 1) + if nodes[m - 1].data is Some {
            seq![vals[m - 1]]
        } else {
            Seq::<A>::empty()
        }
    }
}

/// The node `x` with its links renamed to the positions they take once the
/// closed positions of `nodes` are reclaimed.
pub open spec fn remap_node<T>(nodes: Seq<NodeView<T>>, x: NodeView<T>) -> NodeView<T> {
    NodeView {
        data: x.data,
        parent: match x.parent {
            Some(p) => Some(rank(nodes, p as int) as usize),
            None => None,
        },
        children: x.children.map_values(|c: usize| rank(nodes, c as int) as usize),
    }
}

impl<T> TreeView<T> {
    /// The tree after its closed positions are reclaimed: active nodes are
    /// moved, in order, to the front of the storage and links are renamed.
    pub open spec fn compact(self) -> TreeView<T> {
        TreeView {
            nodes: keep_active(
                self.nodes,
                Seq::new(self.nodes.len(), |j: int| remap_node(self.nodes, self.nodes[j])),
                self.nodes.len() as int,
            ),
            root: match self.root {
                Some(r) => Some(rank(self.nodes, r as int) as usize),
                None => None,
            },
        }
    }

    /// Whether reclaiming the closed positions moves a node: some active
    /// node stands behind a closed position.
    pub open spec fn compact_moves(self) -> bool {
        exists|j: int| 0 <= j < self.n() && self.nodes[j].data is Some && #[trigger] rank(self.nodes, j) != j
    }
}

/// One more position adds its activity to the rank.
pub proof fn lemma_rank_step<T>(nodes: Seq<NodeView<T>>, j: int)
    requires
        0 <= j < nodes.len(),
    ensures
        rank(nodes, j + 1) == rank(nodes, j) + if nodes[j].data is Some {
            1nat
        } else {
            0nat
        },
{
    assert(nodes.take(j + 1).drop_last() =~= nodes.take(j));
    assert(nodes.take(j + 1).last() == nodes[j]);
}

/// Ranks grow with positions, strictly past an active position.
pub proof fn lemma_rank_mono<T>(nodes: Seq<NodeView<T>>, a: int, b: int)
    requires
        0 <= a <= b <= nodes.len(),
    ensures
        rank(nodes, a) <= rank(nodes, b),
        a < b && nodes[a].data is Some ==> rank(nodes, a) < rank(nodes, b),
    decreases b - a,
{
    if a < b {
        lemma_rank_mono(nodes, a, b - 1);
        lemma_rank_step(nodes, b - 1);
        if a == b - 1 {
        }
    }
}

/// Facts about `keep_active`: its length is the rank of `m`, the value kept
/// for an active position `j` sits at its rank, and every kept value comes
/// from an active position.
pub proof fn lemma_keep_active<T, A>(nodes: Seq<NodeView<T>>, vals: Seq<A>, m: int)
    requires
        0 <= m <= nodes.len(),
        vals.len() == nodes.len(),
    ensures
        keep_active(nodes, vals, m).len() == rank(nodes, m),
        forall|j: int|
            0 <= j < m && nodes[j].data is Some ==> #[trigger] keep_active(nodes, vals, m)[rank(
                nodes,
                j,
            ) as int] == vals[j],
        forall|r: int| 0 <= r < rank(nodes, m) ==> #[trigger] has_source(nodes, m, r),
    decreases m,
{
    if m > 0 {
        lemma_keep_active(nodes, vals, m - 1);
        lemma_rank_step(nodes, m - 1);
        let prev = keep_active(nodes, vals, m - 1);
        let cur = keep_active(nodes, vals, m);
        assert forall|j: int| 0 <= j < m && nodes[j].data is Some implies #[trigger] cur[rank(nodes, j) as int] == vals[j] by {
            if j < m - 1 {
                lemma_rank_mono(nodes, j, m - 1);
                assert(cur[rank(nodes, j) as int] == prev[rank(nodes, j) as int]);
            }
        }
        assert forall|r: int| 0 <= r < rank(nodes, m) implies #[trigger] has_source(nodes, m, r) by {
            if r < rank(nodes, m - 1) {
                assert(has_source(nodes, m - 1, r));
                let j = choose|j: int| 0 <= j < m - 1 && nodes[j].data is Some && #[trigger] rank(nodes, j) == r;
                assert(0 <= j < m && nodes[j].data is Some && rank(nodes, j) == r);
            } else {
                assert(0 <= m - 1 < m && nodes[m - 1].data is Some && rank(nodes, m - 1) == r);
            }
        }
    }
}

/// A storage whose positions are all active counts all of them.
pub proof fn lemma_count_all<T>(nodes: Seq<NodeView<T>>)
    requires
        forall|i: int| 0 <= i < nodes.len() ==> (#[trigger] nodes[i]).data is Some,
    ensures
        count_active(nodes) == nodes.len(),
    decreases nodes.len(),
{
    if nodes.len() > 0 {
        let d = nodes.drop_last();
        assert forall|i: int| 0 <= i < d.len() implies (#[trigger] d[i]).data is Some by {
            assert(d[i] == nodes[i]);
        }
        lemma_count_all(d);
        assert(nodes[nodes.len() - 1] == nodes.last());
    }
}

impl<T, M> Tree<T, M> {
    /// Reclaims the closed positions: active nodes move, in order, to the
    /// front of a new storage and their links are renamed accordingly. If a
    /// node moved, the memory state changes, invalidating all node indices
    /// created before; otherwise every index stays valid.
    pub(crate) fn reclaim_closed_nodes(&mut self)
        requires
            old(self).wf(),
        ensures
            final(self).wf(),
            final(self)@ == old(self)@.compact(),
            old(self)@.compact_moves() <==> final(self).memory_state() != old(self).memory_state(),
    {
        let n = self.nodes.len();
        let ghost nodes = self@.nodes;
        let ghost vals = Seq::new(n as nat, |j: int| remap_node(nodes, nodes[j]));
        let mut new_pos: Vec<usize> = Vec::new();
        let mut count: usize = 0;
        let mut moved = false;
        let mut j: usize = 0;
        proof {
            assert(nodes.take(0) =~= Seq::<NodeView<T>>::empty());
        }
        while j < n
            invariant
                moved <==> exists|k: int|
                    0 <= k < j && nodes[k].data is Some && #[trigger] rank(nodes, k) != k,
                j <= n,
                n == nodes.len(),
                nodes == self@.nodes,
                n < usize::MAX,
                new_pos@.len() == j,
                count == rank(nodes, j as int),
                count <= j,
                forall|k: int| 0 <= k < j ==> #[trigger] new_pos@[k] == rank(nodes, k) as usize,
            decreases n - j,
        {
            new_pos.push(count);
            proof {
                lemma_rank_step(nodes, j as int);
            }
            if self.nodes[j].data.is_some() {
                if count != j {
                    moved = true;
                }
                count = count + 1;
            }
            proof {
                assert(self.nodes@[j as int]@ == nodes[j as int]);
            }
            j = j + 1;
        }
        let ghost old_depths = self.depths@;
        let mut old_nodes: Vec<NodeSlot<T>> = Vec::new();
        core::mem::swap(&mut old_nodes, &mut self.nodes);
        let ghost old_seq = old_nodes@;
        proof {
            assert forall|k: int| 0 <= k < n implies #[trigger] old_seq[k]@ == nodes[k] by {}
        }
        let mut new_nodes: Vec<NodeSlot<T>> = Vec::new();
        let mut j: usize = 0;
        proof {
            lemma_keep_active(nodes, vals, 0);
        }
        for slot in it: old_nodes.into_iter()
            invariant
                it.seq() == old_seq,
                old_seq.len() == n,
                j == it.index(),
                n == nodes.len(),
                n < usize::MAX,
                old(self).wf(),
                nodes == old(self)@.nodes,
                vals == Seq::new(n as nat, |j: int| remap_node(nodes, nodes[j])),
                forall|k: int| 0 <= k < n ==> #[trigger] old_seq[k]@ == nodes[k],
                new_pos@.len() == n,
                forall|k: int| 0 <= k < n ==> #[trigger] new_pos@[k] == rank(nodes, k) as usize,
                new_nodes@.len() == keep_active(nodes, vals, j as int).len(),
                forall|r: int|
                    0 <= r < new_nodes@.len() ==> #[trigger] new_nodes@[r]@ == keep_active(
                        nodes,
                        vals,
                        j as int,
                    )[r],
        {
            proof {
                assert(j < n);
                assert(slot == old_seq[j as int]);
                assert(slot@ == nodes[j as int]);
                assert(old(self).wf_slot(j as int));
            }
            let ghost was_active = slot.data is Some;
            let ghost len_before = new_nodes@.len();
            proof {
                assert(was_active == nodes[j as int].data is Some);
            }
            if slot.data.is_some() {
                proof {
                    assert(slot@ == nodes[j as int]);
                    assert(nodes[j as int].data is Some);
                    assert(slot.children@ == nodes[j as int].children);
                    if slot.parent is Some {
                        assert(old(self)@.active(slot.parent->0 as int));
                    }
                }
                let parent = match slot.parent {
                    Some(p) => Some(new_pos[p]),
                    None => None,
                };
                let mut children: Vec<usize> = Vec::new();
                let mut k: usize = 0;
                while k < slot.children.len()
                    invariant
                        k <= slot.children@.len(),
                        slot.children@ == nodes[j as int].children,
                        nodes[j as int].data is Some,
                        old(self).wf_slot(j as int),
                        old(self).wf(),
                        nodes == old(self)@.nodes,
                        n == nodes.len(),
                        new_pos@.len() == n,
                        forall|x: int| 0 <= x < n ==> #[trigger] new_pos@[x] == rank(nodes, x) as usize,
                        children@ == slot.children@.take(k as int).map_values(
                            |c: usize| rank(nodes, c as int) as usize,
                        ),
                    decreases slot.children@.len() - k,
                {
                    proof {
                        assert(old(self)@.active(slot.children@[k as int] as int));
                    }
                    children.push(new_pos[slot.children[k]]);
                    k = k + 1;
                    proof {
                        assert(children@ =~= slot.children@.take(k as int).map_values(
                            |c: usize| rank(nodes, c as int) as usize,
                        ));
                    }
                }
                let new_slot = NodeSlot { data: slot.data, parent, children };
                proof {
                    assert(slot.children@.take(k as int) =~= slot.children@);
                    assert(new_slot@ == vals[j as int]);
                }
                new_nodes.push(new_slot);
            }
            j = j + 1;
            proof {
                lemma_keep_active(nodes, vals, j as int);
                let cur = keep_active(nodes, vals, j as int);
                let prev = keep_active(nodes, vals, j - 1);
                assert(new_nodes@.len() == len_before + if was_active { 1int } else { 0int });
                assert(cur == prev + if nodes[j - 1].data is Some {
                    seq![vals[j - 1]]
                } else {
                    Seq::<NodeView<T>>::empty()
                });
                assert forall|r: int| 0 <= r < new_nodes@.len() implies #[trigger] new_nodes@[r]@ == cur[r] by {
                    if r < prev.len() {
                        assert(cur[r] == prev[r]);
                    }
                }
            }
        }
        self.nodes = new_nodes;
        proof {
            assert(self@.nodes =~= keep_active(nodes, vals, n as int));
            if old(self)@.root is Some {
                assert(old(self)@.active(old(self)@.root->0 as int));
            }
        }
        self.root = match self.root {
            Some(r) => Some(new_pos[r]),
            None => None,
        };
        if moved {
            self.state = self.state.wrapping_add(1);
        }
        proof {
            self.depths@ = keep_active(nodes, old_depths, n as int);
            assert(self@ == old(self)@.compact());
            self.lemma_compact_wf(old(self));
        }
    }

    /// Reclaiming the closed positions of a well-formed tree, with depths
    /// moved along with their nodes, leaves a well-formed tree.
    pub(crate) proof fn lemma_compact_wf(&self, old: &Self)
        requires
            old.wf(),
            self@ == old@.compact(),
            self.depths@ == keep_active(old@.nodes, old.depths@, old@.n() as int),
            self.len == old.len,
        ensures
            self.wf(),
    {
        let nodes = old@.nodes;
        let n = nodes.len() as int;
        let vals = Seq::new(n as nat, |j: int| remap_node(nodes, nodes[j]));
        lemma_keep_active(nodes, vals, n);
        lemma_keep_active(nodes, old.depths@, n);
        assert(nodes.take(n) =~= nodes);
        let np = rank(nodes, n);
        assert(np == count_active(nodes));
        lemma_count_bound(nodes);
        let v = self@;
        assert(v.nodes.len() == np);
        // ranks of active positions are distinct and below the number of nodes
        assert forall|a: int, b: int| 0 <= a < n && 0 <= b < n && nodes[a].data is Some && nodes[b].data is Some && a != b
            implies #[trigger] rank(nodes, a) != #[trigger] rank(nodes, b) by {
            if a < b {
                lemma_rank_mono(nodes, a, b);
            } else {
                lemma_rank_mono(nodes, b, a);
            }
        }
        assert forall|a: int| 0 <= a < n && nodes[a].data is Some implies #[trigger] rank(nodes, a) < np by {
            lemma_rank_mono(nodes, a, n);
        }
        // every new position holds the renamed node of its source
        assert forall|r: int| 0 <= r < np implies (#[trigger] v.nodes[r]).data is Some by {
            assert(has_source(nodes, n, r));
            let j = choose|j: int| 0 <= j < n && nodes[j].data is Some && #[trigger] rank(nodes, j) == r;
            assert(v.nodes[r] == vals[j]);
        }
        lemma_count_all(v.nodes);
        assert forall|r: int| 0 <= r < v.n() implies #[trigger] self.wf_slot(r) by {
            assert(has_source(nodes, n, r));
            let j = choose|j: int| 0 <= j < n && nodes[j].data is Some && #[trigger] rank(nodes, j) == r;
            assert(old.wf_slot(j));
            let x = nodes[j];
            let s = v.nodes[r];
            assert(s == remap_node(nodes, x));
            assert(self.depths@[r] == old.depths@[j]);
            old.lemma_wf_links();
            old.lemma_depth_below_len(j);
            let ch = x.children;
            let nch = s.children;
            assert(nch.len() == ch.len());
            assert forall|k: int| 0 <= k < ch.len() implies #[trigger] nch[k] == rank(nodes, ch[k] as int) as usize
                && nodes[ch[k] as int].data is Some && (ch[k] as int) < n by {
                assert(old@.active(ch[k] as int));
            }
            assert(nch.no_duplicates()) by {
                assert forall|a: int, b: int| 0 <= a < nch.len() && 0 <= b < nch.len() && a != b implies nch[a] != nch[b] by {
                    assert(ch[a] != ch[b]);
                    assert(rank(nodes, ch[a] as int) != rank(nodes, ch[b] as int));
                    assert(rank(nodes, ch[a] as int) < np);
                    assert(rank(nodes, ch[b] as int) < np);
                }
            }
            assert forall|k: int| 0 <= k < nch.len() implies (#[trigger] nch[k] as int) < np by {
                assert(rank(nodes, ch[k] as int) < np);
            }
            lemma_distinct_below(nch, np);
            assert forall|k: int| 0 <= k < nch.len() implies {
                let c = #[trigger] nch[k] as int;
                &&& v.active(c)
                &&& v.nodes[c].parent == Some(r as usize)
            } by {
                let c0 = ch[k] as int;
                assert(old.wf_slot(c0));
                assert(rank(nodes, c0) < np);
                assert(v.nodes[rank(nodes, c0) as int] == vals[c0]);
            }
            match x.parent {
                Some(p) => {
                    assert(old.wf_slot(p as int));
                    let rp = rank(nodes, p as int);
                    assert(rp < np);
                    assert(v.nodes[rp as int] == vals[p as int]);
                    assert(self.depths@[rp as int] == old.depths@[p as int]);
                    let pch = nodes[p as int].children;
                    let w = pch.index_of(j as usize);
                    assert(pch[w] == j as usize);
                    assert(v.nodes[rp as int].children[w] == rank(nodes, j) as usize);
                    assert(v.nodes[rp as int].children.contains(r as usize));
                },
                None => {
                    assert(old@.root == Some(j as usize));
                },
            }
        }
        match old@.root {
            Some(r0) => {
                assert(old@.active(r0 as int));
                let rr = rank(nodes, r0 as int);
                assert(rr < np);
                assert(v.nodes[rr as int] == vals[r0 as int]);
                assert(self.depths@[rr as int] == old.depths@[r0 as int]);
            },
            None => {
                assert(count_active(v.nodes) == 0);
            },
        }
    }
}

/// The data and links that the node at active position `j` has once closed
/// positions are reclaimed.
pub proof fn lemma_compact_node<T>(v: TreeView<T>, j: int)
    requires
        v.active(j),
    ensures
        rank(v.nodes, j) < v.compact().n(),
        v.compact().nodes[rank(v.nodes, j) as int] == remap_node(v.nodes, v.nodes[j]),
{
    let nodes = v.nodes;
    let n = nodes.len() as int;
    let vals = Seq::new(n as nat, |x: int| remap_node(nodes, nodes[x]));
    lemma_keep_active(nodes, vals, n);
    lemma_rank_mono(nodes, j, n);
    assert(vals[j] == remap_node(nodes, nodes[j]));
}

/// The positions `s` renamed to the positions they take once the closed
/// positions of `nodes` are reclaimed.
pub open spec fn renamed<T>(nodes: Seq<NodeView<T>>, s: Seq<usize>) -> Seq<usize> {
    s.map_values(|c: usize| rank(nodes, c as int) as usize)
}

/// Depths are kept by reclaiming closed positions: the node at active
/// position `j` has the same depth at its new position.
pub proof fn lemma_compact_depth<T, M1, M2>(a: &Tree<T, M1>, b: &Tree<T, M2>, j: int)
    requires
        a.wf(),
        b.wf(),
        b@ == a@.compact(),
        a@.active(j),
    ensures
        b.depth_of(rank(a@.nodes, j) as int) == a.depth_of(j),
    decreases a.depth_of(j),
{
    let nodes = a@.nodes;
    lemma_compact_node(a@, j);
    let rj = rank(nodes, j) as int;
    assert(a.wf_slot(j));
    assert(b.wf_slot(rj));
    match a@.parent(j) {
        Some(p) => {
            assert(a.wf_slot(p as int));
            lemma_compact_depth(a, b, p as int);
            lemma_compact_node(a@, p as int);
        },
        None => {
            assert(a@.root == Some(j as usize));
            assert(b@.root == Some(rj as usize));
        },
    }
}

/// Reclaiming closed positions renames the depth-first lists of the
/// children of a node from child `k` on to the new positions.
pub proof fn lemma_compact_pre_list<T, M1, M2>(a: &Tree<T, M1>, b: &Tree<T, M2>, x: int, k: int)
    requires
        a.wf(),
        b.wf(),
        b@ == a@.compact(),
        a@.active(x),
        0 <= k,
    ensures
        b.pre_list(rank(a@.nodes, x) as int, k) == renamed(a@.nodes, a.pre_list(x, k)),
    decreases a@.n() - a.depth_of(x), 0int, a@.children(x).len() - k,
{
    let nodes = a@.nodes;
    lemma_compact_node(a@, x);
    let rx = rank(nodes, x) as int;
    assert(b@.children(rx) =~= renamed(nodes, a@.children(x)));
    assert(b@.active(rx));
    if k < a@.children(x).len() {
        a.lemma_pre_list_unfold(x, k);
        b.lemma_pre_list_unfold(rx, k);
        let c = a@.children(x)[k] as int;
        assert(a@.active(c));
        lemma_compact_node(a@, c);
        assert(b@.children(rx)[k] == rank(nodes, c) as usize);
        assert(a.wf_slot(c));
        lemma_compact_pre_node(a, b, c);
        lemma_compact_pre_list(a, b, x, k + 1);
        assert(renamed(nodes, a.pre_node(c) + a.pre_list(x, k + 1)) =~= renamed(nodes, a.pre_node(c)) + renamed(
            nodes,
            a.pre_list(x, k + 1),
        ));
        assert(b.pre_node(rank(nodes, c) as int) == renamed(nodes, a.pre_node(c)));
        assert(b.pre_list(rx, k) == b.pre_node(b@.children(rx)[k] as int) + b.pre_list(rx, k + 1));
        assert(b.pre_list(rx, k) == renamed(nodes, a.pre_list(x, k)));
    } else {
        a.lemma_list_end(x);
        b.lemma_list_end(rx);
        assert(renamed(nodes, a.pre_list(x, k)) =~= Seq::<usize>::empty());
    }
}

/// Reclaiming closed positions renames the depth-first order of the
/// subtree of a node to the new positions.
pub proof fn lemma_compact_pre_node<T, M1, M2>(a: &Tree<T, M1>, b: &Tree<T, M2>, x: int)
    requires
        a.wf(),
        b.wf(),
        b@ == a@.compact(),
        a@.active(x),
    ensures
        b.pre_node(rank(a@.nodes, x) as int) == renamed(a@.nodes, a.pre_node(x)),
    decreases a@.n() - a.depth_of(x), 1int, 0int,
{
    let nodes = a@.nodes;
    lemma_compact_pre_list(a, b, x, 0);
    lemma_compact_node(a@, x);
    assert(renamed(nodes, seq![x as usize] + a.pre_list(x, 0)) =~= seq![rank(nodes, x) as usize] + renamed(
        nodes,
        a.pre_list(x, 0),
    ));
}

/// A sequence without duplicates whose elements are all below `m` has at
/// most `m` elements.
pub proof fn lemma_distinct_below(s: Seq<usize>, m: nat)
    requires
        s.no_duplicates(),
        forall|k: int| 0 <= k < s.len() ==> (#[trigger] s[k] as int) < m,
    ensures
        s.len() <= m,
{
    let ints = s.map_values(|x: usize| x as int);
    assert(ints.no_duplicates()) by {
        assert forall|a: int, b: int| 0 <= a < ints.len() && 0 <= b < ints.len() && a != b implies ints[a] != ints[b] by {
            assert(s[a] != s[b]);
        }
    }
    ints.unique_seq_to_set();
    let range = vstd::set_lib::set_int_range(0, m as int);
    vstd::set_lib::lemma_int_range(0, m as int);
    assert(ints.to_set().subset_of(range)) by {
        assert forall|x: int| ints.to_set().contains(x) implies range.contains(x) by {
            let k = ints.index_of(x);
            assert(ints[k] == s[k] as int);
        }
    }
    vstd::set_lib::lemma_len_subset(ints.to_set(), range);
}

} // verus!
