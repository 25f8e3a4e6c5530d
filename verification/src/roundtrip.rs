use vstd::prelude::*;

use crate::append::{
    last_at, lemma_last_at, lemma_last_at_exists, seq_children, seq_parent, steps_ok, valid_dfs_seq,
};
use crate::tree::{Tree, TreeView};

verus! {

/// The first position from `k` on whose item is not deeper than item `j`;
/// the length of `s` if there is none.
pub open spec fn end_from<T>(s: Seq<(usize, T)>, j: int, k: int) -> int
    decreases s.len() - k,
{
    if k >= s.len() {
        s.len() as int
    } else if s[k].0 <= s[j].0 {
        k
    } else {
        end_from(s, j, k + 1)
    }
}

/// The end of the items that descend from item `j` in a depth-first
/// sequence: the first later item that is not deeper than it.
pub open spec fn subtree_end<T>(s: Seq<(usize, T)>, j: int) -> int {
    end_from(s, j, j + 1)
}

/// The storage positions `from, from + 1, ..., to - 1`.
pub open spec fn positions(from: int, to: int) -> Seq<usize> {
    Seq::new((to - from) as nat, |y: int| (from + y) as usize)
}

/// Two adjacent runs of positions make one run.
pub proof fn lemma_positions_concat(a: int, b: int, c: int)
    requires
        a <= b <= c,
    ensures
        positions(a, b) + positions(b, c) == positions(a, c),
{
    assert(positions(a, b) + positions(b, c) =~= positions(a, c));
}

/// Scanning from `k` for the end of the descendants of item `j` finds a
/// position at or past `k` before which every item is deeper than `j`.
pub proof fn lemma_end_from<T>(s: Seq<(usize, T)>, j: int, k: int)
    requires
        0 <= j < k <= s.len(),
        forall|x: int| j < x < k ==> #[trigger] s[x].0 > s[j].0,
    ensures
        k <= end_from(s, j, k) <= s.len(),
        forall|x: int| j < x < end_from(s, j, k) ==> #[trigger] s[x].0 > s[j].0,
        end_from(s, j, k) < s.len() ==> s[end_from(s, j, k)].0 <= s[j].0,
    decreases s.len() - k,
{
    if k < s.len() && s[k].0 > s[j].0 {
        lemma_end_from(s, j, k + 1);
    }
}

/// The descendants of item `j` are the items after it up to its subtree
/// end; they are all deeper than it, and the item at the end is not.
pub proof fn lemma_subtree_end<T>(s: Seq<(usize, T)>, j: int)
    requires
        0 <= j < s.len(),
    ensures
        j < subtree_end(s, j) <= s.len(),
        forall|x: int| j < x < subtree_end(s, j) ==> #[trigger] s[x].0 > s[j].0,
        subtree_end(s, j) < s.len() ==> s[subtree_end(s, j)].0 <= s[j].0,
{
    lemma_end_from(s, j, j + 1);
}

/// Between an item no deeper than `e` and a later item deeper than `e`, some
/// item has depth exactly `e`.
pub proof fn lemma_pass_through<T>(s: Seq<(usize, T)>, a: int, k: int, e: int)
    requires
        0 <= a < k < s.len(),
        steps_ok(s, s.len() as int),
        s[a].0 <= e < s[k].0,
    ensures
        last_at(s, k, e) >= a,
    decreases k - a,
{
    lemma_last_at(s, k, e);
    if s[k - 1].0 != e {
        assert(s[k].0 <= s[k - 1].0 + 1);
        lemma_pass_through(s, a, k - 1, e);
    }
}

/// If item `j` has depth `d` and no item between it and `k` has depth `d`,
/// the last item of depth `d` before `k` is `j`.
pub proof fn lemma_last_at_is<T>(s: Seq<(usize, T)>, j: int, k: int, d: int)
    requires
        0 <= j < k <= s.len(),
        s[j].0 == d,
        forall|x: int| j < x < k ==> #[trigger] s[x].0 != d,
    ensures
        last_at(s, k, d) == j,
{
    lemma_last_at(s, k, d);
    let l = last_at(s, k, d);
    if l > j {
        assert(s[l].0 == d);
    } else if l < j {
        assert(s[j].0 != d);
    }
}

/// In a valid depth-first sequence, item `k` is a child of item `j` exactly
/// when it lies among the descendants of `j` one level deeper.
pub proof fn lemma_is_child<T>(s: Seq<(usize, T)>, j: int, k: int)
    requires
        valid_dfs_seq(s),
        0 <= j < k < s.len(),
    ensures
        seq_parent(s, k) == j <==> (k < subtree_end(s, j) && s[k].0 == s[j].0 + 1),
{
    lemma_subtree_end(s, j);
    if k < subtree_end(s, j) && s[k].0 == s[j].0 + 1 {
        assert forall|x: int| j < x < k implies #[trigger] s[x].0 != s[k].0 - 1 by {
            assert(s[x].0 > s[j].0);
        }
        lemma_last_at_is(s, j, k, s[k].0 - 1);
    }
    if seq_parent(s, k) == j {
        lemma_last_at(s, k, s[k].0 - 1);
        assert(s[j].0 == s[k].0 - 1);
        let e = subtree_end(s, j);
        if e <= k {
            if e == k {
                assert(false);
            } else {
                lemma_pass_through(s, e, k, s[j].0 as int);
            }
        }
    }
}

/// The children list of item `j` holds, in increasing order, the positions
/// `off + k` of exactly the items `k < m` whose parent is `j`.
pub proof fn lemma_seq_children_members<T>(s: Seq<(usize, T)>, j: int, m: int, off: nat)
    requires
        0 <= m <= s.len(),
        off + m <= usize::MAX,
    ensures
        forall|x: int|
            0 <= x < seq_children(s, j, m, off).len() ==> {
                let c = #[trigger] seq_children(s, j, m, off)[x] - off;
                &&& 0 <= c < m
                &&& seq_parent(s, c) == j
            },
        forall|x: int, y: int|
            0 <= x < y < seq_children(s, j, m, off).len() ==> #[trigger] seq_children(s, j, m, off)[x]
                < #[trigger] seq_children(s, j, m, off)[y],
        forall|k: int| 0 <= k < m && seq_parent(s, k) == j ==> seq_children(s, j, m, off).contains((off + k) as usize),
    decreases m,
{
    if m > 0 {
        lemma_seq_children_members(s, j, m - 1, off);
        let a = seq_children(s, j, m - 1, off);
        let b = seq_children(s, j, m, off);
        if seq_parent(s, m - 1) == j {
            assert(b == a.push((off + m - 1) as usize));
            assert forall|k: int| 0 <= k < m && seq_parent(s, k) == j implies b.contains((off + k) as usize) by {
                if k < m - 1 {
                    let y = a.index_of((off + k) as usize);
                    assert(b[y] == a[y]);
                } else {
                    assert(b[a.len() as int] == (off + k) as usize);
                }
            }
        } else {
            assert(b =~= a);
        }
    }
}

/// The children list of item `j` of a valid depth-first sequence is empty
/// exactly when item `j` has no descendants; otherwise it starts with item
/// `j + 1`.
pub proof fn lemma_children_shape<T>(s: Seq<(usize, T)>, j: int, off: nat)
    requires
        valid_dfs_seq(s),
        0 <= j < s.len(),
        off + s.len() <= usize::MAX,
    ensures
        seq_children(s, j, s.len() as int, off).len() == 0 <==> subtree_end(s, j) == j + 1,
        seq_children(s, j, s.len() as int, off).len() > 0 ==> seq_children(s, j, s.len() as int, off)[0] == off + j + 1,
{
    let cs = seq_children(s, j, s.len() as int, off);
    lemma_seq_children_members(s, j, s.len() as int, off);
    lemma_subtree_end(s, j);
    let e = subtree_end(s, j);
    if e > j + 1 {
        assert(s[j + 1].0 <= s[j].0 + 1);
        lemma_is_child(s, j, j + 1);
        assert(cs.contains((off + j + 1) as usize));
        let y = cs.index_of((off + j + 1) as usize);
        if y > 0 {
            let c0 = cs[0] - off;
            assert(seq_parent(s, c0) == j);
            lemma_last_at(s, c0, s[c0].0 - 1);
            assert(cs[0] < cs[y]);
        }
    } else {
        if cs.len() > 0 {
            let c0 = cs[0] - off;
            lemma_last_at(s, c0, s[c0].0 - 1);
            lemma_is_child(s, j, c0);
        }
    }
}

/// The `t`-th child `c` of item `j` of a valid depth-first sequence is a
/// descendant of `j` whose own descendants end no later than those of `j`;
/// the next child, if any, is the item at the subtree end of `c`.
#[verifier::spinoff_prover]
pub proof fn lemma_child_next<T>(s: Seq<(usize, T)>, j: int, off: nat, t: int)
    requires
        valid_dfs_seq(s),
        0 <= j < s.len(),
        off + s.len() <= usize::MAX,
        0 <= t < seq_children(s, j, s.len() as int, off).len(),
    ensures
        ({
            let cs = seq_children(s, j, s.len() as int, off);
            let c = cs[t] - off;
            &&& j < c < subtree_end(s, j)
            &&& subtree_end(s, c) <= subtree_end(s, j)
            &&& (t + 1 < cs.len() <==> subtree_end(s, c) < subtree_end(s, j))
            &&& (t + 1 < cs.len() ==> cs[t + 1] == off + subtree_end(s, c))
            &&& (t + 1 == cs.len() ==> subtree_end(s, c) == subtree_end(s, j))
        }),
{
    let cs = seq_children(s, j, s.len() as int, off);
    lemma_seq_children_members(s, j, s.len() as int, off);
    lemma_subtree_end(s, j);
    let e = subtree_end(s, j);
    let c = cs[t] - off;
    lemma_last_at(s, c, s[c].0 - 1);
    lemma_is_child(s, j, c);
    lemma_subtree_end(s, c);
    let ec = subtree_end(s, c);
    if ec > e {
        assert(s[e].0 > s[c].0);
        assert(s[e].0 <= s[j].0);
    }
    assert forall|x: int| c < x < ec implies seq_parent(s, x) != j by {
        lemma_is_child(s, j, x);
    }
    if ec < e {
        assert(s[ec].0 <= s[c].0);
        assert(s[ec].0 > s[j].0);
        lemma_is_child(s, j, ec);
        assert(cs.contains((off + ec) as usize));
        let y = cs.index_of((off + ec) as usize);
        if y <= t {
            if y == t {
                assert(false);
            } else {
                assert(cs[y] < cs[t]);
            }
        }
        assert(t + 1 < cs.len());
        let c1 = cs[t + 1] - off;
        assert(cs[t] < cs[t + 1]);
        if t + 1 < y {
            assert(cs[t + 1] < cs[y]);
            assert(seq_parent(s, c1) == j);
        }
    } else {
        if t + 1 < cs.len() {
            let c1 = cs[t + 1] - off;
            assert(cs[t] < cs[t + 1]);
            assert(seq_parent(s, c1) == j);
            lemma_last_at(s, c1, s[c1].0 - 1);
            lemma_is_child(s, j, c1);
        }
    }
}

impl<T, M> Tree<T, M> {
    /// Along an appended depth-first sequence, depths below the node standing
    /// for its first item are the depths of the sequence.
    pub proof fn lemma_extend_depths(&self, v: TreeView<T>, s: Seq<(usize, T)>, k: int)
        requires
            self.wf(),
            v.n() >= 1,
            self@ == v.extend_seq(s, s.len() as int),
            valid_dfs_seq(s),
            0 <= k < s.len(),
            v.n() + s.len() <= usize::MAX,
        ensures
            self.depth_of(v.n() - 1 + k) == self.depth_of(v.n() - 1) + s[k].0,
        decreases k,
    {
        if k > 0 {
            let off = v.n() - 1;
            lemma_last_at_exists(s, k, s[k].0 - 1);
            let q = seq_parent(s, k);
            self.lemma_extend_depths(v, s, q);
            assert(self.wf_slot(off + k));
            assert(self@.nodes[off + k].parent == Some((off + q) as usize));
        }
    }

    /// The depth-first order of the subtree of the node standing for item `c`
    /// of an appended depth-first sequence is the run of positions from it up
    /// to its subtree end.
    #[verifier::spinoff_prover]
    pub proof fn lemma_extend_pre_node(&self, v: TreeView<T>, s: Seq<(usize, T)>, c: int)
        requires
            self.wf(),
            v.n() >= 1,
            self@ == v.extend_seq(s, s.len() as int),
            valid_dfs_seq(s),
            0 <= c < s.len(),
            v.n() + s.len() <= usize::MAX,
        ensures
            self.pre_node(v.n() - 1 + c) == positions(v.n() - 1 + c, v.n() - 1 + subtree_end(s, c)),
        decreases subtree_end(s, c) - c, 0int,
    {
        let off = v.n() - 1;
        let cs = self@.children(off + c);
        assert(cs == seq_children(s, c, s.len() as int, off as nat));
        lemma_children_shape(s, c, off as nat);
        lemma_subtree_end(s, c);
        let e = subtree_end(s, c);
        if cs.len() == 0 {
            self.lemma_list_end(off + c);
            assert(self.pre_node(off + c) =~= positions(off + c, off + e));
        } else {
            self.lemma_extend_pre_list(v, s, c, 0);
            lemma_positions_concat(off + c, off + c + 1, off + e);
            assert(positions(off + c, off + c + 1) =~= seq![(off + c) as usize]);
        }
    }

    /// The concatenated depth-first orders of the subtrees of the children of
    /// the node standing for item `j`, from its `t`-th child on, are the run
    /// of positions from that child up to the subtree end of `j`.
    #[verifier::spinoff_prover]
    pub proof fn lemma_extend_pre_list(&self, v: TreeView<T>, s: Seq<(usize, T)>, j: int, t: int)
        requires
            self.wf(),
            v.n() >= 1,
            self@ == v.extend_seq(s, s.len() as int),
            valid_dfs_seq(s),
            0 <= j < s.len(),
            0 <= t < self@.children(v.n() - 1 + j).len(),
            v.n() + s.len() <= usize::MAX,
        ensures
            self.pre_list(v.n() - 1 + j, t) == positions(
                self@.children(v.n() - 1 + j)[t] as int,
                v.n() - 1 + subtree_end(s, j),
            ),
        decreases subtree_end(s, j) - (self@.children(v.n() - 1 + j)[t] - (v.n() - 1)), 1int,
    {
        let off = v.n() - 1;
        let cs = self@.children(off + j);
        assert(cs == seq_children(s, j, s.len() as int, off as nat));
        lemma_child_next(s, j, off as nat, t);
        let c = cs[t] - off;
        let ej = subtree_end(s, j);
        let ec = subtree_end(s, c);
        assert(j < c < ej && ec <= ej);
        assert(t + 1 < cs.len() ==> cs[t + 1] == off + ec);
        assert(t + 1 == cs.len() ==> ec == ej);
        assert(self@.active(off + j)) by {
            assert(self.wf_slot(off + j));
        }
        self.lemma_pre_list_unfold(off + j, t);
        lemma_subtree_end(s, c);
        self.lemma_extend_pre_node(v, s, c);
        if t + 1 < cs.len() {
            self.lemma_extend_pre_list(v, s, j, t + 1);
            lemma_positions_concat(off + c, off + ec, off + ej);
        } else {
            self.lemma_list_end(off + j);
            lemma_positions_concat(off + c, off + ec, off + ej);
        }
    }

    /// Appending a valid depth-first sequence below a node holding its first
    /// item builds a subtree whose depth-first sequence is that sequence.
    pub proof fn lemma_extend_dfs_seq(&self, v: TreeView<T>, s: Seq<(usize, T)>)
        requires
            self.wf(),
            v.n() >= 1,
            v.nodes[v.n() - 1].data == Some(s[0].1),
            self@ == v.extend_seq(s, s.len() as int),
            valid_dfs_seq(s),
            v.n() + s.len() <= usize::MAX,
        ensures
            self.dfs_seq(v.n() - 1) == s,
    {
        let off = v.n() - 1;
        lemma_subtree_end(s, 0);
        if subtree_end(s, 0) < s.len() {
            assert(s[subtree_end(s, 0)].0 >= 1);
        }
        self.lemma_extend_pre_node(v, s, 0);
        let d = self.dfs_seq(off);
        assert(d.len() == s.len());
        assert forall|x: int| 0 <= x < s.len() implies #[trigger] d[x] == s[x] by {
            assert(self.pre_node(off)[x] == off + x);
            self.lemma_extend_depths(v, s, x);
        }
        assert(d =~= s);
    }
}

} // verus!
