use std::collections::VecDeque;
use vstd::prelude::*;

use crate::memory::MemoryPolicy;
use crate::tree::Tree;

verus! {

impl<T, M> Tree<T, M> {
    /// Concatenated pre-orders of the subtrees of the nodes in the stack `s`,
    /// starting with the top of the stack (its last element).
    pub open(crate) spec fn flat_stack(&self, s: Seq<usize>) -> Seq<usize>
        decreases s.len(),
    {
        if s.len() == 0 {
            Seq::empty()
        } else {
            self.pre_node(s.last() as int) + self.flat_stack(s.drop_last())
        }
    }

    /// Remaining post-order below the entries `s` of a descent path, each
    /// entry being a node and the index of its child currently being visited.
    pub open(crate) spec fn path_lower(&self, s: Seq<(usize, usize)>) -> Seq<usize>
        decreases s.len(),
    {
        if s.len() == 0 {
            Seq::empty()
        } else {
            self.post_list(s.last().0 as int, s.last().1 + 1).push(s.last().0) + self.path_lower(
                s.drop_last(),
            )
        }
    }

    /// Remaining post-order of a descent path whose last entry is the node
    /// currently visited together with the index of its next child.
    pub open(crate) spec fn path_rest(&self, s: Seq<(usize, usize)>) -> Seq<usize> {
        if s.len() == 0 {
            Seq::empty()
        } else {
            self.post_list(s.last().0 as int, s.last().1 as int).push(s.last().0) + self.path_lower(
                s.drop_last(),
            )
        }
    }

    /// A descent path from `start`: each entry is an active node one level
    /// deeper than the previous one, reached through the child index recorded
    /// in the previous entry.
    pub open(crate) spec fn path_ok(&self, start: int, path: Seq<(usize, usize)>) -> bool {
        &&& path.len() > 0 ==> path[0].0 == start
        &&& forall|l: int| 0 <= l < path.len() ==> {
            let e = #[trigger] path[l];
            &&& self@.active(e.0 as int)
            &&& self.depth_of(e.0 as int) == self.depth_of(start) + l
            &&& e.1 <= self@.children(e.0 as int).len()
            &&& (l + 1 < path.len() ==> e.1 < self@.children(e.0 as int).len()
                && self@.children(e.0 as int)[e.1 as int] == path[l + 1].0)
        }
    }

    /// Descending into the next child keeps the path valid and the remaining
    /// post-order unchanged.
    pub proof fn lemma_path_descend(&self, start: int, before: Seq<(usize, usize)>)
        requires
            self.wf(),
            self.path_ok(start, before),
            before.len() > 0,
            before.last().1 < self@.children(before.last().0 as int).len(),
        ensures
            ({
                let (p, k) = before.last();
                let c = self@.children(p as int)[k as int];
                &&& self.path_ok(start, before.push((c, 0usize)))
                &&& self.path_rest(before.push((c, 0usize))) == self.path_rest(before)
            }),
    {
        let (p, k) = before.last();
        let c = self@.children(p as int)[k as int];
        let path = before.push((c, 0usize));
        self.lemma_pre_list_unfold(p as int, k as int);
        let below = before.drop_last();
        assert(path.drop_last() == before);
        assert(self.path_lower(before) == self.post_list(p as int, k + 1).push(p) + self.path_lower(below));
        assert(self.post_node(c as int) == self.post_list(c as int, 0).push(c));
        assert(self.path_rest(path) =~= self.path_rest(before));
        assert(before[before.len() - 1] == before.last());
        assert forall|l: int| 0 <= l < path.len() implies {
            let e = #[trigger] path[l];
            &&& self@.active(e.0 as int)
            &&& self.depth_of(e.0 as int) == self.depth_of(start) + l
            &&& e.1 <= self@.children(e.0 as int).len()
            &&& (l + 1 < path.len() ==> e.1 < self@.children(e.0 as int).len()
                && self@.children(e.0 as int)[e.1 as int] == path[l + 1].0)
        } by {
            if l < before.len() {
                assert(path[l] == before[l]);
            }
        }
    }

    /// Leaving a node whose children are all visited outputs it and moves the
    /// path up, advancing the child index of the parent entry.
    pub proof fn lemma_path_ascend(&self, start: int, before: Seq<(usize, usize)>)
        requires
            self.wf(),
            self.path_ok(start, before),
            before.len() > 0,
            before.last().1 == self@.children(before.last().0 as int).len(),
        ensures
            self.path_rest(before) == seq![before.last().0] + self.path_lower(before.drop_last()),
            before.len() > 1 ==> ({
                let mid = before.drop_last();
                let (q, kq) = mid.last();
                &&& kq < self@.children(q as int).len()
                &&& self.path_ok(start, mid.update(mid.len() - 1, (q, (kq + 1) as usize)))
                &&& self.path_rest(mid.update(mid.len() - 1, (q, (kq + 1) as usize))) == self.path_lower(mid)
            }),
            before.len() == 1 ==> self.path_lower(before.drop_last()) == Seq::<usize>::empty(),
    {
        let p = before.last().0;
        self.lemma_list_end(p as int);
        assert(self.path_rest(before) =~= seq![p] + self.path_lower(before.drop_last()));
        if before.len() > 1 {
            let mid = before.drop_last();
            let last2 = mid.len() - 1;
            let (q, kq) = mid.last();
            assert(mid[last2] == before[last2]);
            assert(self.wf_slot(q as int));
            assert(kq + 1 < usize::MAX);
            let path = mid.update(last2, (q, (kq + 1) as usize));
            assert(path.drop_last() == mid.drop_last());
            assert(self.path_rest(path) =~= self.path_lower(mid));
            assert forall|l: int| 0 <= l < path.len() implies {
                let e = #[trigger] path[l];
                &&& self@.active(e.0 as int)
                &&& self.depth_of(e.0 as int) == self.depth_of(start) + l
                &&& e.1 <= self@.children(e.0 as int).len()
                &&& (l + 1 < path.len() ==> e.1 < self@.children(e.0 as int).len()
                    && self@.children(e.0 as int)[e.1 as int] == path[l + 1].0)
            } by {
                assert(before[l] == mid[l]);
                if l < last2 {
                    assert(path[l] == mid[l]);
                    assert(before[l + 1] == mid[l + 1]);
                }
            }
        } else {
            assert(before.drop_last() =~= Seq::<(usize, usize)>::empty());
        }
    }

    /// Positions of the nodes of the subtree rooted at `start`, in depth-first
    /// post-order, computed by walking down and up a path of (node, next child)
    /// pairs.
    pub(crate) fn post_positions(&self, start: usize) -> (r: Vec<usize>)
        requires
            self.wf(),
            self@.active(start as int),
        ensures
            r@ == self.post_node(start as int),
    {
        let mut out: Vec<usize> = Vec::new();
        let mut path: Vec<(usize, usize)> = Vec::new();
        path.push((start, 0));
        proof {
            assert(path@.drop_last() =~= Seq::<(usize, usize)>::empty());
            assert(out@ =~= Seq::<usize>::empty());
            assert(out@ + self.path_rest(path@) =~= self.post_node(start as int));
            assert(self.wf_slot(start as int));
            assert(path@[0] == (start, 0usize));
        }
        while path.len() > 0
            invariant
                self.wf(),
                self@.active(start as int),
                out@ + self.path_rest(path@) == self.post_node(start as int),
                self.path_ok(start as int, path@),
            decreases self.post_node(start as int).len() - out@.len(), self@.n() - path@.len(),
        {
            let ghost before = path@;
            let last = path.len() - 1;
            let (p, k) = path[last];
            proof {
                assert(before[last as int] == before.last());
                assert(self.wf_slot(p as int));
                assert(self.depth_of(p as int) < self@.n());
            }
            if k < self.nodes[p].children.len() {
                let c = self.nodes[p].children[k];
                path.push((c, 0));
                proof {
                    self.lemma_path_descend(start as int, before);
                    self.lemma_pre_list_unfold(p as int, k as int);
                    assert(self.wf_slot(c as int));
                    assert(path@.len() <= self@.n());
                }
            } else {
                proof {
                    self.lemma_path_ascend(start as int, before);
                }
                path.pop();
                out.push(p);
                if path.len() > 0 {
                    let last2 = path.len() - 1;
                    let (q, kq) = path[last2];
                    proof {
                        assert(path@[last2 as int] == path@.last());
                        assert(path@ == before.drop_last());
                        assert(self.wf_slot(q as int));
                    }
                    path.set(last2, (q, kq + 1));
                }
                proof {
                    assert(out@ + self.path_rest(path@) =~= self.post_node(start as int));
                }
            }
        }
        out
    }

    /// The children of the nodes of `level`, in order: the next level of a
    /// breadth-first walk.
    pub open(crate) spec fn next_level(&self, level: Seq<usize>) -> Seq<usize>
        decreases level.len(),
    {
        if level.len() == 0 {
            Seq::empty()
        } else {
            self.next_level(level.drop_last()) + self@.children(level.last() as int)
        }
    }

    /// Breadth-first order from the nodes of `level`: the level itself, then
    /// the following levels, for at most `fuel` levels.
    pub open(crate) spec fn levels(&self, level: Seq<usize>, fuel: nat) -> Seq<usize>
        decreases fuel,
    {
        if fuel == 0 || level.len() == 0 {
            Seq::empty()
        } else {
            level + self.levels(self.next_level(level), (fuel - 1) as nat)
        }
    }

    /// Nodes of the subtree rooted at `i` in breadth-first order: level by
    /// level, each level from left to right.
    pub open(crate) spec fn bfs_node(&self, i: int) -> Seq<usize> {
        self.levels(seq![i as usize], self@.n())
    }

    /// All nodes of a level are active and share the same depth.
    pub open(crate) spec fn level_ok(&self, level: Seq<usize>, depth: nat) -> bool {
        forall|j: int|
            0 <= j < level.len() ==> {
                &&& self@.active(#[trigger] level[j] as int)
                &&& self.depth_of(level[j] as int) == depth
            }
    }

    /// The next level of a level of active nodes at depth `d` is made of
    /// active nodes at depth `d + 1`.
    pub proof fn lemma_next_level_ok(&self, level: Seq<usize>, depth: nat)
        requires
            self.wf(),
            self.level_ok(level, depth),
        ensures
            self.level_ok(self.next_level(level), depth + 1),
        decreases level.len(),
    {
        if level.len() > 0 {
            let rest = level.drop_last();
            assert(self.level_ok(rest, depth)) by {
                assert forall|j: int| 0 <= j < rest.len() implies {
                    &&& self@.active(#[trigger] rest[j] as int)
                    &&& self.depth_of(rest[j] as int) == depth
                } by {
                    assert(rest[j] == level[j]);
                }
            }
            self.lemma_next_level_ok(rest, depth);
            let x = level.last() as int;
            assert(level[level.len() - 1] == level.last());
            let a = self.next_level(rest);
            let ch = self@.children(x);
            assert forall|j: int| 0 <= j < a.len() + ch.len() implies {
                &&& self@.active(#[trigger] (a + ch)[j] as int)
                &&& self.depth_of((a + ch)[j] as int) == depth + 1
            } by {
                if j >= a.len() {
                    self.lemma_pre_list_unfold(x, j - a.len());
                }
            }
        }
    }

    /// Every node of a breadth-first walk from the nodes of a level of
    /// active nodes is active.
    pub proof fn lemma_levels_active(&self, level: Seq<usize>, depth: nat, fuel: nat)
        requires
            self.wf(),
            self.level_ok(level, depth),
        ensures
            forall|x: int| 0 <= x < self.levels(level, fuel).len() ==> self@.active(#[trigger] self.levels(level, fuel)[x] as int)
                && self.depth_of(self.levels(level, fuel)[x] as int) >= depth,
        decreases fuel,
    {
        if fuel > 0 && level.len() > 0 {
            self.lemma_next_level_ok(level, depth);
            self.lemma_levels_active(self.next_level(level), depth + 1, (fuel - 1) as nat);
            let rest = self.levels(self.next_level(level), (fuel - 1) as nat);
            let all = self.levels(level, fuel);
            assert(all == level + rest);
            assert forall|x: int| 0 <= x < all.len() implies self@.active(#[trigger] all[x] as int)
                && self.depth_of(all[x] as int) >= depth by {
                if x < level.len() {
                    assert(all[x] == level[x]);
                } else {
                    assert(all[x] == rest[x - level.len()]);
                }
            }
        }
    }

    /// Every node of the breadth-first walk of the subtree of `i` is active.
    pub proof fn lemma_bfs_active(&self, i: int)
        requires
            self.wf(),
            self@.active(i),
        ensures
            forall|x: int| 0 <= x < self.bfs_node(i).len() ==> self@.active(#[trigger] self.bfs_node(i)[x] as int)
                && self.depth_of(self.bfs_node(i)[x] as int) >= self.depth_of(i),
    {
        assert(self.level_ok(seq![i as usize], self.depth_of(i)));
        self.lemma_levels_active(seq![i as usize], self.depth_of(i), self@.n());
    }

    /// Positions of the nodes of the subtree rooted at `start`, in
    /// breadth-first order, computed with a queue.
    pub(crate) fn bfs_positions(&self, start: usize) -> (r: Vec<usize>)
        requires
            self.wf(),
            self@.active(start as int),
        ensures
            r@ == self.bfs_node(start as int),
    {
        let mut out: Vec<usize> = Vec::new();
        let mut queue: VecDeque<usize> = VecDeque::new();
        queue.push_back(start);
        let ghost mut level: Seq<usize> = seq![start];
        let ghost mut p: int = 0;
        let ghost mut d: nat = 0;
        let ghost total = self.bfs_node(start as int);
        proof {
            assert(self.wf_slot(start as int));
            assert(self.next_level(level.subrange(0, 0)) =~= Seq::<usize>::empty());
            assert(queue@ =~= level.subrange(0, 1int) + self.next_level(level.subrange(0, 0int)));
            assert(out@ + self.levels(level, (self@.n() - d) as nat).subrange(p, self.levels(level, (self@.n() - d) as nat).len() as int) =~= total);
        }
        while queue.len() > 0
            invariant
                self.wf(),
                self@.active(start as int),
                total == self.bfs_node(start as int),
                0 <= p < level.len() || (p == 0 && level.len() == 0),
                self.level_ok(level, self.depth_of(start as int) + d),
                queue@ == level.subrange(p, level.len() as int) + self.next_level(level.subrange(0, p)),
                out@ + self.levels(level, (self@.n() - d) as nat).subrange(p, self.levels(level, (self@.n() - d) as nat).len() as int) == total,
                level.len() > 0 ==> d < self@.n(),
            decreases total.len() - out@.len(),
        {
            let x = queue.pop_front().unwrap();
            proof {
                assert(level.len() > 0);
                assert(x == level[p]);
                assert(self@.active(x as int));
            }
            out.push(x);
            let ch = &self.nodes[x].children;
            let mut j: usize = 0;
            let ghost base = queue@;
            while j < ch.len()
                invariant
                    j <= ch@.len(),
                    queue@ == base + ch@.subrange(0, j as int),
                decreases ch@.len() - j,
            {
                queue.push_back(ch[j]);
                j = j + 1;
                proof {
                    assert(ch@.subrange(0, j as int) =~= ch@.subrange(0, j - 1).push(ch@[j - 1]));
                }
            }
            proof {
                let f = (self@.n() - d) as nat;
                let lv = self.levels(level, f);
                assert(lv == level + self.levels(self.next_level(level), (f - 1) as nat));
                assert(level.subrange(0, p + 1).drop_last() =~= level.subrange(0, p));
                assert(level.subrange(0, p + 1).last() == x);
                assert(self.next_level(level.subrange(0, p + 1)) == self.next_level(level.subrange(0, p)) + self@.children(x as int));
                assert(out@ + lv.subrange(p + 1, lv.len() as int) =~= total);
                assert(queue@ =~= level.subrange(p + 1, level.len() as int) + self.next_level(level.subrange(0, p + 1)));
                p = p + 1;
                if p == level.len() {
                    let next = self.next_level(level);
                    assert(level.subrange(0, p) =~= level);
                    self.lemma_next_level_ok(level, self.depth_of(start as int) + d);
                    assert(lv.subrange(p, lv.len() as int) =~= self.levels(next, (f - 1) as nat));
                    assert(queue@ =~= next);
                    level = next;
                    p = 0;
                    d = d + 1;
                    let f2 = (self@.n() - d) as nat;
                    assert(f2 == f - 1);
                    let lv2 = self.levels(level, f2);
                    assert(lv2.subrange(0, lv2.len() as int) =~= lv2);
                    assert(self.next_level(level.subrange(0, 0)) =~= Seq::<usize>::empty());
                    assert(level.subrange(0, 0) =~= Seq::<usize>::empty());
                    assert(queue@ =~= level.subrange(p, level.len() as int) + self.next_level(level.subrange(0, p)));
                    if level.len() > 0 {
                        assert(self@.active(level[0] as int));
                        assert(self.wf_slot(level[0] as int));
                    }
                }
            }
        }
        proof {
            if level.len() > 0 {
                assert(queue@.len() == 0);
                assert(false);
            }
            let f = (self@.n() - d) as nat;
            assert(self.levels(level, f) =~= Seq::<usize>::empty());
            assert(out@ =~= total);
        }
        out
    }

    /// Positions of the nodes of the subtree rooted at `start`, in depth-first
    /// pre-order.
    pub(crate) fn dfs_positions(&self, start: usize) -> (r: Vec<usize>)
        requires
            self.wf(),
            self@.active(start as int),
        ensures
            r@ == self.pre_node(start as int),
    {
        let mut out: Vec<usize> = Vec::new();
        let mut stack: Vec<usize> = Vec::new();
        stack.push(start);
        proof {
            assert(stack@.drop_last() =~= Seq::<usize>::empty());
            assert(self.flat_stack(stack@) == self.pre_node(start as int) + self.flat_stack(Seq::empty()));
            assert(out@ =~= Seq::<usize>::empty());
            assert(out@ + self.flat_stack(stack@) =~= self.pre_node(start as int));
        }
        while stack.len() > 0
            invariant
                self.wf(),
                out@ + self.flat_stack(stack@) == self.pre_node(start as int),
                forall|j: int| 0 <= j < stack@.len() ==> self@.active(#[trigger] stack@[j] as int),
            decreases self.pre_node(start as int).len() - out@.len(),
        {
            let ghost before = stack@;
            let t = stack.pop().unwrap();
            proof {
                assert(stack@ == before.drop_last());
                assert(self@.active(before[before.len() - 1] as int));
            }
            let ghost base = stack@;
            let ghost out_before = out@;
            out.push(t);
            let ch = &self.nodes[t].children;
            let mut k = ch.len();
            proof {
                self.lemma_list_end(t as int);
                assert(self.flat_stack(stack@) =~= self.pre_list(t as int, k as int) + self.flat_stack(
                    base,
                ));
            }
            while k > 0
                invariant
                    self.wf(),
                    self@.active(t as int),
                    ch@ == self@.children(t as int),
                    k <= ch@.len(),
                    self.flat_stack(stack@) == self.pre_list(t as int, k as int) + self.flat_stack(
                        base,
                    ),
                    forall|j: int| 0 <= j < stack@.len() ==> self@.active(#[trigger] stack@[j] as int),
                decreases k,
            {
                k = k - 1;
                let c = ch[k];
                let ghost prev = stack@;
                stack.push(c);
                proof {
                    self.lemma_pre_list_unfold(t as int, k as int);
                    assert(stack@.drop_last() == prev);
                    assert(self.flat_stack(stack@) == self.pre_node(c as int) + self.flat_stack(prev));
                    assert(self.flat_stack(stack@) =~= self.pre_list(t as int, k as int)
                        + self.flat_stack(base));
                }
            }
            proof {
                assert(self.flat_stack(before) == self.pre_node(t as int) + self.flat_stack(base));
                assert(out@ + self.flat_stack(stack@) =~= out_before + self.flat_stack(before));
            }
        }
        out
    }
}


/// A traversal order of the nodes of a subtree.
pub trait Traverser<T, M: MemoryPolicy> {
    /// The positions of the nodes of the subtree rooted at `i`, in this order.
    spec fn spec_order(tree: &Tree<T, M>, i: int) -> Seq<usize>;

    /// Computes the positions of the nodes of the subtree rooted at `start`,
    /// in this order.
    fn order(tree: &Tree<T, M>, start: usize) -> (r: Vec<usize>)
        requires
            tree.wf(),
            tree@.active(start as int),
        ensures
            r@ == Self::spec_order(tree, start as int),
            forall|k: int| 0 <= k < r@.len() ==> tree@.active(#[trigger] r@[k] as int)
                && tree.depth_of(r@[k] as int) >= tree.depth_of(start as int),
    ;

    /// The order visits every node of the subtree rooted at `i` exactly once.
    proof fn lemma_visits_subtree_once(tree: &Tree<T, M>, i: int)
        requires
            tree.wf(),
            tree@.active(i),
        ensures
            Self::spec_order(tree, i).no_duplicates(),
            Self::spec_order(tree, i).to_multiset() == tree.pre_node(i).to_multiset(),
    ;
}

/// A sequence holding the same items as a sequence without duplicates has no
/// duplicates either.
pub proof fn lemma_same_items_no_dup(a: Seq<usize>, b: Seq<usize>)
    requires
        a.no_duplicates(),
        a.to_multiset() == b.to_multiset(),
    ensures
        b.no_duplicates(),
{
    a.lemma_multiset_has_no_duplicates();
    b.lemma_multiset_has_no_duplicates_conv();
}

/// Two sequences holding the same items have the same set of items.
pub proof fn lemma_same_items_same_set(a: Seq<usize>, b: Seq<usize>)
    requires
        a.to_multiset() == b.to_multiset(),
    ensures
        a.to_set() == b.to_set(),
{
    broadcast use vstd::seq_lib::group_to_multiset_ensures;
    assert forall|x: usize| a.to_set().contains(x) <==> b.to_set().contains(x) by {
        assert(a.contains(x) <==> a.to_multiset().count(x) > 0);
        assert(b.contains(x) <==> b.to_multiset().count(x) > 0);
    }
    assert(a.to_set() =~= b.to_set());
}

/// Depth-first (pre-order) traversal: a node, then the subtrees of its
/// children from left to right.
#[derive(Clone, Copy, Debug, Default)]
pub struct Dfs;

impl<T, M: MemoryPolicy> Traverser<T, M> for Dfs {
    open spec fn spec_order(tree: &Tree<T, M>, i: int) -> Seq<usize> {
        tree.pre_node(i)
    }

    fn order(tree: &Tree<T, M>, start: usize) -> (r: Vec<usize>) {
        proof {
            tree.lemma_pre_node_members(start as int);
        }
        tree.dfs_positions(start)
    }

    proof fn lemma_visits_subtree_once(tree: &Tree<T, M>, i: int) {
        tree.lemma_pre_node_no_dup(i);
    }
}

/// Breadth-first traversal: level by level, each level from left to right.
#[derive(Clone, Copy, Debug, Default)]
pub struct Bfs;

impl<T, M: MemoryPolicy> Traverser<T, M> for Bfs {
    open spec fn spec_order(tree: &Tree<T, M>, i: int) -> Seq<usize> {
        tree.bfs_node(i)
    }

    fn order(tree: &Tree<T, M>, start: usize) -> (r: Vec<usize>) {
        proof {
            tree.lemma_bfs_active(start as int);
        }
        tree.bfs_positions(start)
    }

    proof fn lemma_visits_subtree_once(tree: &Tree<T, M>, i: int) {
        tree.lemma_pre_node_no_dup(i);
        tree.lemma_bfs_node_multiset(i);
        lemma_same_items_no_dup(tree.pre_node(i), tree.bfs_node(i));
    }
}

/// Depth-first post-order traversal: the subtrees of a node's children from
/// left to right, then the node.
#[derive(Clone, Copy, Debug, Default)]
pub struct PostOrder;

impl<T, M: MemoryPolicy> Traverser<T, M> for PostOrder {
    open spec fn spec_order(tree: &Tree<T, M>, i: int) -> Seq<usize> {
        tree.post_node(i)
    }

    fn order(tree: &Tree<T, M>, start: usize) -> (r: Vec<usize>) {
        proof {
            tree.lemma_post_node_active(start as int);
        }
        tree.post_positions(start)
    }

    proof fn lemma_visits_subtree_once(tree: &Tree<T, M>, i: int) {
        tree.lemma_pre_node_no_dup(i);
        tree.lemma_post_node_multiset(i);
        lemma_same_items_no_dup(tree.pre_node(i), tree.post_node(i));
    }
}

} // verus!
