use vstd::prelude::*;

use crate::memory::MemoryPolicy;
use crate::node_idx::NodeIdx;
use crate::tree::{NodeView, Tree, TreeView};

verus! {

/// Position of the last item of `s` before position `k` whose depth is `d`;
/// -1 if there is none.
pub open spec fn last_at<T>(s: Seq<(usize, T)>, k: int, d: int) -> int
    decreases k,
{
    if k <= 0 {
        -1
    } else if s[k - 1].0 == d {
        k - 1
    } else {
        last_at(s, k - 1, d)
    }
}

/// Position of the parent of item `k` of a depth-first sequence: the last
/// item before it that is one level higher.
pub open spec fn seq_parent<T>(s: Seq<(usize, T)>, k: int) -> int {
    last_at(s, k, s[k].0 - 1)
}

/// Storage positions `n + k` of the items `k` among the first `m` items of
/// `s` whose parent is item `j`, in increasing order.
pub open spec fn seq_children<T>(s: Seq<(usize, T)>, j: int, m: int, n: nat) -> Seq<usize>
    decreases m,
{
    if m <= 0 {
        Seq::empty()
    } else {
        seq_children(s, j, m - 1, n) + if seq_parent(s, m - 1) == j {
            seq![(n + m - 1) as usize]
        } else {
            Seq::empty()
        }
    }
}

/// Whether `s` describes a single subtree in depth-first order: it is not
/// empty, its first item (the root of the subtree) has depth zero and every
/// other item is deeper.
pub open spec fn rooted_seq<T>(s: Seq<(usize, T)>) -> bool {
    &&& s.len() >= 1
    &&& s[0].0 == 0
    &&& forall|k: int| 1 <= k < s.len() ==> #[trigger] s[k].0 >= 1
}

/// Whether, among the first `m` items of `s`, no depth exceeds the depth of
/// the previous item by more than one.
pub open spec fn steps_ok<T>(s: Seq<(usize, T)>, m: int) -> bool {
    forall|k: int| 1 <= k < m ==> #[trigger] s[k].0 <= s[k - 1].0 + 1
}

/// The first position `k >= from` whose depth exceeds the depth of the
/// previous item by more than one; the length of `s` if there is none.
pub open spec fn first_jump_from<T>(s: Seq<(usize, T)>, from: int) -> int
    decreases s.len() - from,
{
    if from >= s.len() {
        s.len() as int
    } else if s[from].0 > s[from - 1].0 + 1 {
        from
    } else {
        first_jump_from(s, from + 1)
    }
}

/// The number of leading items of `s` that form a valid depth-first
/// sequence: the first position whose depth rises by more than one, or the
/// length of `s`.
pub open spec fn first_jump<T>(s: Seq<(usize, T)>) -> int {
    first_jump_from(s, 1)
}

/// Whether `s` is a valid depth-first sequence of a subtree.
pub open spec fn valid_dfs_seq<T>(s: Seq<(usize, T)>) -> bool {
    rooted_seq(s) && steps_ok(s, s.len() as int)
}

impl<T> TreeView<T> {
    /// The tree after the items of the depth-first sequence `s` from the
    /// second one up to (excluding) item `m` are appended to the storage, item
    /// zero being the node at the last storage position: every appended item
    /// becomes the last child of its parent in the sequence.
    pub open spec fn extend_seq(self, s: Seq<(usize, T)>, m: int) -> TreeView<T> {
        let off = self.nodes.len() - 1;
        TreeView {
            nodes: Seq::new(
                (self.nodes.len() + m - 1) as nat,
                |x: int|
                    if x < off {
                        self.nodes[x]
                    } else if x == off {
                        NodeView {
                            data: self.nodes[off].data,
                            parent: self.nodes[off].parent,
                            children: seq_children(s, 0, m, off as nat),
                        }
                    } else {
                        NodeView {
                            data: Some(s[x - off].1),
                            parent: Some((off + seq_parent(s, x - off)) as usize),
                            children: seq_children(s, x - off, m, off as nat),
                        }
                    },
            ),
            root: self.root,
        }
    }

    /// The tree after the first `m` items of the depth-first sequence `s` are
    /// appended to the storage: the first item becomes the child of `p` at
    /// position `pos` among its children, and every other item the last child
    /// of its parent in the sequence.
    pub open spec fn append_seq(self, p: int, pos: int, s: Seq<(usize, T)>, m: int) -> TreeView<T> {
        self.insert_child(p, pos, s[0].1).extend_seq(s, m)
    }
}

/// Basic facts of `last_at`: it is before `k`, and where it exists the item
/// there has the searched depth and no later item before `k` has it.
pub proof fn lemma_last_at<T>(s: Seq<(usize, T)>, k: int, d: int)
    requires
        0 <= k <= s.len(),
    ensures
        -1 <= last_at(s, k, d) < k,
        last_at(s, k, d) >= 0 ==> s[last_at(s, k, d)].0 == d,
        forall|x: int| last_at(s, k, d) < x < k ==> #[trigger] s[x].0 != d,
    decreases k,
{
    if k > 0 && s[k - 1].0 != d {
        lemma_last_at(s, k - 1, d);
    }
}

/// In a sequence starting at depth zero whose depth never rises by more than
/// one, every depth from zero up to that of item `k - 1` occurs before `k`.
pub proof fn lemma_last_at_exists<T>(s: Seq<(usize, T)>, k: int, e: int)
    requires
        1 <= k <= s.len(),
        s[0].0 == 0,
        steps_ok(s, k),
        0 <= e <= s[k - 1].0,
    ensures
        0 <= last_at(s, k, e) < k,
        s[last_at(s, k, e)].0 == e,
    decreases k,
{
    lemma_last_at(s, k, e);
    if s[k - 1].0 != e {
        assert(k >= 2);
        assert(s[k - 1].0 <= s[k - 2].0 + 1);
        lemma_last_at_exists(s, k - 1, e);
    }
}

/// After the last item of depth `e` before `k`, every item before `k` is
/// deeper than `e`, provided item `k - 1` is at least as deep as `e`.
pub proof fn lemma_after_last<T>(s: Seq<(usize, T)>, k: int, e: int)
    requires
        1 <= k <= s.len(),
        s[0].0 == 0,
        steps_ok(s, k),
        0 <= e <= s[k - 1].0,
    ensures
        forall|x: int| last_at(s, k, e) < x < k ==> #[trigger] s[x].0 > e,
    decreases k,
{
    lemma_last_at(s, k, e);
    if s[k - 1].0 != e {
        assert(k >= 2);
        assert(s[k - 1].0 <= s[k - 2].0 + 1);
        lemma_after_last(s, k - 1, e);
    }
}

/// The ancestor one level above the last item of depth `e` before `k` is
/// the last item of depth `e - 1` before `k`.
pub proof fn lemma_parent_of_last<T>(s: Seq<(usize, T)>, k: int, e: int)
    requires
        1 <= k <= s.len(),
        s[0].0 == 0,
        steps_ok(s, k),
        1 <= e <= s[k - 1].0,
    ensures
        1 <= last_at(s, k, e) < k,
        seq_parent(s, last_at(s, k, e)) == last_at(s, k, e - 1),
{
    lemma_last_at_exists(s, k, e);
    lemma_after_last(s, k, e);
    let j = last_at(s, k, e);
    lemma_last_at_exists(s, k, e - 1);
    lemma_last_at(s, k, e - 1);
    lemma_last_at(s, j, e - 1);
    let a = last_at(s, k, e - 1);
    let b = last_at(s, j, e - 1);
    if a > j {
        assert(s[a].0 > e);
    }
    assert(a != j);
    if a < j {
        lemma_last_at_exists(s, j, e - 1);
        assert(b >= 0);
        if b > a {
            assert(s[b].0 == e - 1);
        }
        if b < a {
            assert(s[a].0 == e - 1);
        }
    } else {
        assert(false);
    }
}

/// A sequence whose first `k` items have no rising jump and whose item `k`
/// rises by more than one (or which ends at `k`) has its first jump at `k`.
pub proof fn lemma_first_jump_at<T>(s: Seq<(usize, T)>, from: int, k: int)
    requires
        1 <= from <= k <= s.len(),
        steps_ok(s, k),
        k == s.len() || s[k].0 > s[k - 1].0 + 1,
    ensures
        first_jump_from(s, from) == k,
    decreases k - from,
{
    if from < k {
        assert(s[from].0 <= s[from - 1].0 + 1);
        lemma_first_jump_at(s, from + 1, k);
    }
}

/// The children lists of the appended items grow only at the item whose
/// parent is `j`.
pub proof fn lemma_seq_children_step<T>(s: Seq<(usize, T)>, j: int, m: int, n: nat)
    requires
        m >= 0,
    ensures
        seq_children(s, j, m + 1, n) == seq_children(s, j, m, n) + if seq_parent(s, m) == j {
            seq![(n + m) as usize]
        } else {
            Seq::<usize>::empty()
        },
{
}

/// With only its first item, a sequence appends nothing below a leaf.
pub proof fn lemma_extend_first<T>(v: TreeView<T>, s: Seq<(usize, T)>)
    requires
        v.n() >= 1,
        v.nodes[v.n() - 1].children.len() == 0,
        s.len() >= 1,
    ensures
        v.extend_seq(s, 1) == v,
{
    let off = v.n() - 1;
    assert(seq_children(s, 0, 1, off as nat) =~= Seq::<usize>::empty()) by {
        lemma_last_at(s, 0, s[0].0 - 1);
        assert(seq_children(s, 0, 0, off as nat) =~= Seq::<usize>::empty());
    }
    assert(v.nodes[off].children =~= Seq::<usize>::empty());
    assert(v.extend_seq(s, 1).nodes[off] == v.nodes[off]);
    assert(v.extend_seq(s, 1).nodes =~= v.nodes);
}

/// Appending one more item of a sequence is inserting it as the last child
/// of its parent in the sequence.
pub proof fn lemma_extend_step<T>(v: TreeView<T>, s: Seq<(usize, T)>, m: int)
    requires
        v.n() >= 1,
        1 <= m < s.len(),
        0 <= seq_parent(s, m) < m,
    ensures
        v.extend_seq(s, m).insert_child(
            v.n() - 1 + seq_parent(s, m),
            seq_children(s, seq_parent(s, m), m, (v.n() - 1) as nat).len() as int,
            s[m].1,
        ) == v.extend_seq(s, m + 1),
{
    let off = v.n() - 1;
    let q = seq_parent(s, m);
    let a0 = v.extend_seq(s, m);
    let a = a0.insert_child(off + q, seq_children(s, q, m, off as nat).len() as int, s[m].1);
    let b = v.extend_seq(s, m + 1);
    lemma_last_at(s, m, s[m].0 - 1);
    assert forall|x: int| 0 <= x < off + m + 1 implies a.nodes[x] == b.nodes[x] by {
        if x >= off && x < off + m {
            lemma_seq_children_step(s, x - off, m, off as nat);
            if x == off + q {
                assert(seq_children(s, q, m, off as nat).insert(
                    seq_children(s, q, m, off as nat).len() as int,
                    (off + m) as usize,
                ) =~= seq_children(s, q, m, off as nat) + seq![(off + m) as usize]);
            } else {
                assert(seq_children(s, x - off, m + 1, off as nat) =~= seq_children(s, x - off, m, off as nat));
            }
        } else if x == off + m {
            assert(seq_children(s, m, m + 1, off as nat) =~= Seq::<usize>::empty()) by {
                lemma_seq_children_none(s, m, m, off as nat);
                lemma_seq_children_step(s, m, m, off as nat);
            }
        }
    }
    assert(a.nodes =~= b.nodes);
}

/// No item before `m` has a parent at or after `m`.
pub proof fn lemma_seq_children_none<T>(s: Seq<(usize, T)>, j: int, m: int, n: nat)
    requires
        0 <= m <= j,
        m <= s.len(),
    ensures
        seq_children(s, j, m, n) == Seq::<usize>::empty(),
    decreases m,
{
    if m > 0 {
        lemma_last_at(s, m - 1, s[m - 1].0 - 1);
        lemma_seq_children_none(s, j, m - 1, n);
        assert(seq_children(s, j, m, n) =~= Seq::<usize>::empty());
    }
}

impl<T, M: MemoryPolicy> Tree<T, M> {
    /// From the last appended item of depth `s[k - 1].0`, moves `moves` levels
    /// up along parent links.
    fn climb(
        &self,
        from: usize,
        moves: usize,
        Ghost(v): Ghost<TreeView<T>>,
        Ghost(s): Ghost<Seq<(usize, T)>>,
        Ghost(k): Ghost<int>,
    ) -> (r: usize)
        requires
            self@ == v.extend_seq(s, k),
            self.nodes@.len() == self@.n(),
            v.n() >= 1,
            1 <= k <= s.len(),
            s[0].0 == 0,
            steps_ok(s, k),
            v.n() + k < usize::MAX,
            1 <= moves <= s[k - 1].0,
            from == v.n() - 1 + last_at(s, k, s[k - 1].0 as int),
        ensures
            r == v.n() - 1 + last_at(s, k, s[k - 1].0 - moves),
    {
        let mut dst = from;
        let mut t: usize = 0;
        let ghost off = v.n() - 1;
        proof {
            assert forall|j: int| 1 <= j < k implies #[trigger] self.nodes@[off + j].parent == Some(
                (off + seq_parent(s, j)) as usize,
            ) by {
                assert(self@.nodes[off + j] == self.nodes@[off + j]@);
            }
        }
        while t < moves
            invariant
                off == v.n() - 1,
                off >= 0,
                self.nodes@.len() == off + k,
                off + k < usize::MAX,
                forall|j: int| 1 <= j < k ==> #[trigger] self.nodes@[off + j].parent == Some(
                    (off + seq_parent(s, j)) as usize,
                ),
                1 <= k <= s.len(),
                s[0].0 == 0,
                steps_ok(s, k),
                1 <= moves <= s[k - 1].0,
                t <= moves,
                dst == off + last_at(s, k, s[k - 1].0 - t),
            decreases moves - t,
        {
            let ghost e = s[k - 1].0 - t;
            proof {
                lemma_parent_of_last(s, k, e);
                lemma_last_at_exists(s, k, e - 1);
                let j = last_at(s, k, e);
                assert(self.nodes@[off + j].parent == Some((off + seq_parent(s, j)) as usize));
                assert(0 <= off + seq_parent(s, j) < usize::MAX);
            }
            dst = self.nodes[dst].parent.unwrap();
            t = t + 1;
            proof {
                assert(s[k - 1].0 - t == e - 1);
            }
        }
        dst
    }

    /// Appends the items of the depth-first sequence `s` after its first one,
    /// given as `items`, below the node at the last storage position, which
    /// stands for the first item: every item becomes the last child of the
    /// last preceding item one level higher. Stops at the first item whose
    /// depth exceeds the depth of the previous item by more than one, and
    /// returns both depths.
    #[verifier::spinoff_prover]
    #[verifier::rlimit(40)]
    pub(crate) fn extend_from(&mut self, items: Vec<(usize, T)>, Ghost(s): Ghost<Seq<(usize, T)>>) -> (r: Result<
        (),
        (usize, usize),
    >)
        requires
            old(self).wf(),
            old(self)@.n() >= 1,
            old(self)@.active(old(self)@.n() - 1),
            old(self)@.children(old(self)@.n() - 1).len() == 0,
            rooted_seq(s),
            items@ == s.subrange(1, s.len() as int),
            old(self)@.n() + s.len() <= usize::MAX,
        ensures
            final(self).wf(),
            final(self).memory_state() == old(self).memory_state(),
            final(self)@ == old(self)@.extend_seq(s, first_jump(s)),
            r is Ok ==> steps_ok(s, s.len() as int),
            match r {
                Ok(_) => first_jump(s) == s.len(),
                Err((a, b)) => {
                    &&& first_jump(s) < s.len()
                    &&& a == s[first_jump(s) - 1].0
                    &&& b == s[first_jump(s)].0
                },
            },
    {
        let ghost v0 = self@;
        let off = self.nodes.len() - 1;
        proof {
            lemma_extend_first(v0, s);
        }
        let mut current_depth: usize = 0;
        let mut dst: usize = off;
        let mut k: usize = 1;
        for item in it: items.into_iter()
            invariant
                self.wf(),
                self.memory_state() == old(self).memory_state(),
                old(self)@ == v0,
                v0.n() >= 1,
                off == v0.n() - 1,
                v0.nodes[off as int].data is Some,
                rooted_seq(s),
                it.seq() == s.subrange(1, s.len() as int),
                k == it.index() + 1,
                1 <= k <= s.len(),
                steps_ok(s, k as int),
                v0.n() + s.len() <= usize::MAX,
                self@ == v0.extend_seq(s, k as int),
                dst == off + k - 1,
                current_depth == s[k - 1].0,
        {
            let (depth, value) = item;
            proof {
                assert(it.seq()[k - 1] == s[k as int]);
                assert(self.nodes@.len() == self@.n());
            }
            if depth > current_depth {
                if depth > current_depth + 1 {
                    proof {
                        lemma_first_jump_at(s, 1, k as int);
                    }
                    return Err((current_depth, depth));
                }
                proof {
                    lemma_last_at(s, k as int, current_depth as int);
                    assert(seq_parent(s, k as int) == k - 1);
                }
            } else {
                let moves = current_depth - depth + 1;
                proof {
                    lemma_last_at(s, k as int, current_depth as int);
                }
                dst = self.climb(dst, moves, Ghost(v0), Ghost(s), Ghost(k as int));
            }
            proof {
                assert(seq_parent(s, k as int) == last_at(s, k as int, s[k as int].0 - 1));
                lemma_last_at_exists(s, k as int, s[k as int].0 - 1);
                lemma_extend_step(v0, s, k as int);
                assert(self@.active(dst as int));
            }
            let len = self.nodes[dst].children.len();
            dst = self.insert_child_at(dst, len, value);
            current_depth = depth;
            k = k + 1;
            proof {
                assert forall|x: int| 1 <= x < k implies #[trigger] s[x].0 <= s[x - 1].0 + 1 by {
                    if x < k - 1 {
                        assert(steps_ok(s, k - 1));
                    }
                }
            }
        }
        proof {
            lemma_first_jump_at(s, 1, k as int);
        }
        Ok(())
    }

    /// Appends the depth-first sequence `subtree` of `(depth, value)` items as
    /// the `child_position`-th child of the node: its first item becomes the
    /// new child and every other item the last child of the last preceding
    /// item one level higher.
    ///
    /// Stops at the first item whose depth exceeds the depth of the previous
    /// item by more than one and returns both depths, the items before it
    /// staying appended; otherwise returns the index of the new child. A valid
    /// depth-first sequence is always appended whole, and the depth-first
    /// sequence of the new child is then `subtree` itself.
    pub fn try_append_subtree_as_child(
        &mut self,
        idx: &NodeIdx,
        subtree: Vec<(usize, T)>,
        child_position: usize,
    ) -> (r: Result<NodeIdx, (usize, usize)>)
        requires
            old(self).wf(),
            old(self).valid_idx(*idx),
            rooted_seq(subtree@),
            child_position <= old(self)@.children(idx.spec_pos() as int).len(),
            old(self)@.n() + subtree@.len() + 1 < usize::MAX,
        ensures
            final(self).wf(),
            final(self).memory_state() == old(self).memory_state(),
            final(self)@ == old(self)@.append_seq(
                idx.spec_pos() as int,
                child_position as int,
                subtree@,
                first_jump(subtree@),
            ),
            match r {
                Ok(id) => first_jump(subtree@) == subtree@.len() && final(self).idx_at(id, old(self)@.n() as int)
                    && final(self).valid_idx(id),
                Err((a, b)) => {
                    &&& first_jump(subtree@) < subtree@.len()
                    &&& a == subtree@[first_jump(subtree@) - 1].0
                    &&& b == subtree@[first_jump(subtree@)].0
                },
            },
            r is Ok <==> valid_dfs_seq(subtree@),
            r is Ok ==> final(self).dfs_seq(old(self)@.n() as int) == subtree@,
    {
        let ghost s = subtree@;
        let ghost v = self@.insert_child(idx.spec_pos() as int, child_position as int, s[0].1);
        let mut rest = subtree;
        let (_, first_value) = rest.remove(0);
        let first = self.insert_child_at(idx.pos, child_position, first_value);
        proof {
            assert(rest@ =~= s.subrange(1, s.len() as int));
        }
        let extended = self.extend_from(rest, Ghost(s));
        proof {
            if valid_dfs_seq(s) {
                lemma_first_jump_at(s, 1, s.len() as int);
            }
            if extended is Ok {
                self.lemma_extend_dfs_seq(v, s);
            }
        }
        match extended {
            Ok(()) => Ok(NodeIdx { pos: first, state: self.state }),
            Err(e) => Err(e),
        }
    }
}

} // verus!
