use vstd::prelude::*;

use crate::memory::MemoryPolicy;
use crate::node_mut::Side;
use crate::tree::{NodeView, Tree, TreeView};

verus! {

/// In a sequence without duplicates, the item at `t` is found at `t`.
proof fn lemma_index_of_at(s: Seq<usize>, t: int)
    requires
        s.no_duplicates(),
        0 <= t < s.len(),
    ensures
        s.index_of(s[t]) == t,
{
    assert(s.contains(s[t]));
    let u = s.index_of(s[t]);
    assert(s[u] == s[t]);
}

/// The positions `n`, `n + 1`, ... of `len` appended nodes.
pub open spec fn new_positions(n: nat, len: nat) -> Seq<usize> {
    Seq::new(len, |k: int| (n + k) as usize)
}

/// Inserting children at position `pos` of the children of `p` appends one
/// node per value, each a child of `p`, and places them, in order, at `pos`
/// among the children of `p`; every other storage position is unchanged.
pub proof fn lemma_insert_children<T>(v: TreeView<T>, p: int, pos: int, values: Seq<T>)
    requires
        0 <= p < v.n(),
        0 <= pos <= v.children(p).len(),
    ensures
        v.insert_children(p, pos, values).n() == v.n() + values.len(),
        v.insert_children(p, pos, values).children(p) == v.children(p).take(pos) + new_positions(v.n(), values.len())
            + v.children(p).skip(pos),
        v.insert_children(p, pos, values).parent(p) == v.parent(p),
        forall|k: int|
            0 <= k < values.len() ==> #[trigger] v.insert_children(p, pos, values).parent(v.n() + k) == Some(
                p as usize,
            ),
        forall|x: int| 0 <= x < v.n() && x != p ==> #[trigger] v.insert_children(p, pos, values).nodes[x] == v.nodes[x],
    decreases values.len(),
{
    if values.len() > 0 {
        let m = (values.len() - 1) as nat;
        let w = v.insert_children(p, pos, values.drop_last());
        lemma_insert_children(v, p, pos, values.drop_last());
        let after = w.insert_child(p, pos + m, values.last());
        assert(after == v.insert_children(p, pos, values));
        let old_ch = v.children(p);
        let wch = w.children(p);
        assert(wch == old_ch.take(pos) + new_positions(v.n(), m) + old_ch.skip(pos));
        assert(after.children(p) == wch.insert(pos + m, (v.n() + m) as usize));
        let target = old_ch.take(pos) + new_positions(v.n(), values.len()) + old_ch.skip(pos);
        assert forall|t: int| 0 <= t < target.len() implies #[trigger] wch.insert(pos + m, (v.n() + m) as usize)[t]
            == target[t] by {
            if t < pos {
            } else if t < pos + m {
            } else if t == pos + m {
            } else {
            }
        }
        assert(wch.insert(pos + m, (v.n() + m) as usize) =~= target);
        assert(w.n() == v.n() + m);
        assert forall|k: int| 0 <= k < values.len() implies #[trigger] after.parent(v.n() + k) == Some(p as usize) by {
            if k < m {
                assert(after.nodes[v.n() + k] == w.nodes[v.n() + k]);
                assert(w.parent(v.n() + k) == Some(p as usize));
            } else {
                assert(after.nodes[v.n() + k] == NodeView {
                    data: Some(values.last()),
                    parent: Some(p as usize),
                    children: Seq::empty(),
                });
            }
        }
        assert forall|x: int| 0 <= x < v.n() && x != p implies #[trigger] after.nodes[x] == v.nodes[x] by {
            assert(after.nodes[x] == w.nodes[x]);
        }
    } else {
        assert(v.children(p).take(pos) + new_positions(v.n(), 0) + v.children(p).skip(pos) =~= v.children(p));
    }
}

/// The sibling index of every node among the children of `p` once the
/// children of `p` are `ch`, a sequence without duplicates.
proof fn lemma_sibling_indices<T>(w: TreeView<T>, p: usize, t: int)
    requires
        w.children(p as int).no_duplicates(),
        0 <= t < w.children(p as int).len(),
        w.parent(w.children(p as int)[t] as int) == Some(p),
    ensures
        w.sibling_index(w.children(p as int)[t] as int) == t,
{
    lemma_index_of_at(w.children(p as int), t);
}

/// The position among the children of its parent at which a sibling of the
/// node at `i` is inserted on the given side: where `i` stands, or just
/// after it.
spec fn insert_position<T>(v: TreeView<T>, i: int, side: Side) -> int {
    match side {
        Side::Left => v.sibling_index(i),
        Side::Right => v.sibling_index(i) + 1,
    }
}

/// Inserting new children of the parent of `i` at `insert_position` puts
/// them, in order, immediately after `i` (right) or immediately before it
/// (left), the other children keeping their order.
proof fn lemma_insert_siblings<T>(v: TreeView<T>, i: int, side: Side, values: Seq<T>)
    requires
        v.parent(i) is Some,
        ({
            let p = v.parent(i)->0 as int;
            let ch = v.children(p);
            &&& 0 <= p < v.n()
            &&& p != i
            &&& 0 <= i < v.n()
            &&& ch.no_duplicates()
            &&& 0 <= v.sibling_index(i) < ch.len()
            &&& ch[v.sibling_index(i)] == i as usize
            &&& forall|t: int| 0 <= t < ch.len() ==> (#[trigger] ch[t] as int) < v.n()
        }),
        v.n() + values.len() < usize::MAX,
    ensures
        ({
            let p = v.parent(i)->0 as int;
            let n = v.n();
            let w = v.insert_children(p, insert_position(v, i, side), values);
            &&& w.parent(i) == Some(p as usize)
            &&& forall|k: int| 0 <= k < values.len() ==> #[trigger] w.parent(n + k) == Some(p as usize)
            &&& forall|k: int|
                0 <= k < values.len() ==> #[trigger] w.sibling_index(n + k) == match side {
                    Side::Right => w.sibling_index(i) + 1 + k,
                    Side::Left => w.sibling_index(i) - values.len() + k,
                }
            &&& w.children(p).len() == v.children(p).len() + values.len()
            &&& w.children(p).take(w.sibling_index(i)) + w.children(p).skip(w.sibling_index(i) + 1) == v.children(
                p,
            ).take(v.sibling_index(i)) + new_positions(n, values.len()) + v.children(p).skip(v.sibling_index(i) + 1)
        }),
{
    let pu = v.parent(i)->0;
    let p = pu as int;
    let n = v.n();
    let s = v.sibling_index(i);
    let pos = insert_position(v, i, side);
    let after = v.insert_children(p, pos, values);
    lemma_insert_children(v, p, pos, values);
    let ch = v.children(p);
    let nch = after.children(p);
    let news = new_positions(n, values.len());
    assert(nch == ch.take(pos) + news + ch.skip(pos));
    assert(after.nodes[i] == v.nodes[i]);
    assert(nch.no_duplicates()) by {
        assert forall|a: int, b: int| 0 <= a < nch.len() && 0 <= b < nch.len() && a != b implies nch[a] != nch[b] by {
            let l1 = pos;
            let l2 = pos + values.len();
            if a < l1 && b < l1 {
                assert(nch[a] == ch[a] && nch[b] == ch[b]);
            } else if a >= l2 && b >= l2 {
                assert(nch[a] == ch[a - values.len()] && nch[b] == ch[b - values.len()]);
            } else if l1 <= a < l2 && l1 <= b < l2 {
            } else if l1 <= a < l2 {
                if b < l1 {
                    assert(nch[b] == ch[b]);
                } else {
                    assert(nch[b] == ch[b - values.len()]);
                }
            } else if l1 <= b < l2 {
                if a < l1 {
                    assert(nch[a] == ch[a]);
                } else {
                    assert(nch[a] == ch[a - values.len()]);
                }
            } else if a < l1 {
                assert(nch[a] == ch[a] && nch[b] == ch[b - values.len()]);
            } else {
                assert(nch[a] == ch[a - values.len()] && nch[b] == ch[b]);
            }
        }
    }
    let si = match side {
        Side::Right => s,
        Side::Left => s + values.len(),
    };
    assert(nch[si] == i as usize);
    lemma_sibling_indices(after, pu, si);
    assert(after.sibling_index(i) == si);
    assert forall|k: int| 0 <= k < values.len() implies #[trigger] after.sibling_index(n + k) == match side {
        Side::Right => after.sibling_index(i) + 1 + k,
        Side::Left => after.sibling_index(i) - values.len() + k,
    } by {
        assert(nch[pos + k] == (n + k) as usize);
        assert(after.parent(n + k) == Some(pu));
        lemma_sibling_indices(after, pu, pos + k);
    }
    let rest = nch.take(si) + nch.skip(si + 1);
    assert(rest =~= ch.take(s) + news + ch.skip(s + 1));
}

impl<T, M: MemoryPolicy> Tree<T, M> {
    /// The facts about the parent of `i` and its children that inserting
    /// siblings of `i` relies on, with the insert position of `push_sibling`.
    proof fn lemma_sibling_setting(&self, i: int, side: Side)
        requires
            self.wf(),
            self@.active(i),
            self@.parent(i) is Some,
        ensures
            ({
                let p = self@.parent(i)->0 as int;
                let ch = self@.children(p);
                &&& 0 <= p < self@.n()
                &&& p != i
                &&& 0 <= i < self@.n()
                &&& ch.no_duplicates()
                &&& 0 <= self@.sibling_index(i) < ch.len()
                &&& ch[self@.sibling_index(i)] == i as usize
                &&& forall|t: int| 0 <= t < ch.len() ==> (#[trigger] ch[t] as int) < self@.n()
            }),
            self.sibling_position(i, side) == insert_position(self@, i, side),
    {
        assert(self.wf_slot(i));
        let p = self@.parent(i)->0 as int;
        assert(self.wf_slot(p));
        let ch = self@.children(p);
        let y = ch.index_of(i as usize);
        assert(ch[y] == i as usize);
        assert forall|t: int| 0 <= t < ch.len() implies (#[trigger] ch[t] as int) < self@.n() by {
            assert(self@.active(ch[t] as int));
        }
    }
}

/// Siblings pushed on the right of a node come, in order, immediately after
/// it among its parent's children; pushed on the left, immediately before
/// it. The other children of the parent keep their order, and the node and
/// the new siblings share the parent.
pub proof fn law_push_siblings_are_adjacent<T, M: MemoryPolicy>(
    before: &Tree<T, M>,
    after: &Tree<T, M>,
    i: int,
    side: Side,
    values: Seq<T>,
)
    requires
        before.wf(),
        before@.active(i),
        before@.parent(i) is Some,
        before@.n() + values.len() < usize::MAX,
        after@ == before@.insert_children(before@.parent(i)->0 as int, before.sibling_position(i, side), values),
    ensures
        ({
            let p = before@.parent(i)->0 as int;
            let n = before@.n();
            &&& after@.parent(i) == Some(p as usize)
            &&& forall|k: int| 0 <= k < values.len() ==> #[trigger] after@.parent(n + k) == Some(p as usize)
            &&& forall|k: int|
                0 <= k < values.len() ==> #[trigger] after@.sibling_index(n + k) == match side {
                    Side::Right => after@.sibling_index(i) + 1 + k,
                    Side::Left => after@.sibling_index(i) - values.len() + k,
                }
            &&& after@.children(p).len() == before@.children(p).len() + values.len()
            &&& after@.children(p).take(after@.sibling_index(i)) + after@.children(p).skip(
                after@.sibling_index(i) + 1,
            ) == before@.children(p).take(before@.sibling_index(i)) + new_positions(n, values.len())
                + before@.children(p).skip(before@.sibling_index(i) + 1)
        }),
{
    before.lemma_sibling_setting(i, side);
    lemma_insert_siblings(before@, i, side, values);
}

/// A sibling pushed on the right of a node becomes its immediate right
/// neighbour among its parent's children, one pushed on the left its
/// immediate left neighbour; the other children keep their order.
pub proof fn law_push_sibling_is_adjacent<T, M: MemoryPolicy>(
    before: &Tree<T, M>,
    after: &Tree<T, M>,
    i: int,
    side: Side,
    value: T,
)
    requires
        before.wf(),
        before@.active(i),
        before@.parent(i) is Some,
        before@.n() + 1 < usize::MAX,
        after@ == before@.insert_child(before@.parent(i)->0 as int, before.sibling_position(i, side), value),
    ensures
        ({
            let p = before@.parent(i)->0 as int;
            let n = before@.n() as int;
            &&& after@.parent(i) == Some(p as usize)
            &&& after@.parent(n) == Some(p as usize)
            &&& match side {
                Side::Right => after@.sibling_index(n) == after@.sibling_index(i) + 1,
                Side::Left => after@.sibling_index(i) == after@.sibling_index(n) + 1,
            }
            &&& after@.children(p).len() == before@.children(p).len() + 1
            &&& after@.children(p).take(after@.sibling_index(i)) + after@.children(p).skip(
                after@.sibling_index(i) + 1,
            ) == before@.children(p).take(before@.sibling_index(i)) + seq![n as usize] + before@.children(p).skip(
                before@.sibling_index(i) + 1,
            )
        }),
{
    let p = before@.parent(i)->0 as int;
    let values = seq![value];
    before.lemma_sibling_setting(i, side);
    let pos = insert_position(before@, i, side);
    assert(values.drop_last() =~= Seq::<T>::empty());
    assert(before@.insert_children(p, pos, values.drop_last()) == before@);
    assert(values.last() == value);
    assert(before@.insert_children(p, pos, values) == before@.insert_child(p, pos, value));
    lemma_insert_siblings(before@, i, side, values);
    assert(new_positions(before@.n(), 1) =~= seq![before@.n() as usize]);
    assert(after@.parent(before@.n() as int + 0) == Some(p as usize));
    assert(after@.sibling_index(before@.n() as int + 0) == match side {
        Side::Right => after@.sibling_index(i) + 1 + 0,
        Side::Left => after@.sibling_index(i) - 1 + 0,
    });
}

/// A subtree pushed as a sibling on the right of a node has its root as the
/// node's immediate right neighbour among the parent's children; pushed on
/// the left, as its immediate left neighbour. The other children keep their
/// order.
pub proof fn law_push_sibling_tree_is_adjacent<T, M: MemoryPolicy>(
    before: &Tree<T, M>,
    after: &Tree<T, M>,
    i: int,
    side: Side,
    s: Seq<(usize, T)>,
)
    requires
        before.wf(),
        before@.active(i),
        before@.parent(i) is Some,
        s.len() >= 1,
        before@.n() + s.len() + 1 < usize::MAX,
        after@ == before@.append_seq(before@.parent(i)->0 as int, before.sibling_position(i, side), s, s.len() as int),
    ensures
        ({
            let p = before@.parent(i)->0 as int;
            let n = before@.n() as int;
            &&& after@.parent(i) == Some(p as usize)
            &&& after@.parent(n) == Some(p as usize)
            &&& match side {
                Side::Right => after@.sibling_index(n) == after@.sibling_index(i) + 1,
                Side::Left => after@.sibling_index(i) == after@.sibling_index(n) + 1,
            }
            &&& after@.children(p).len() == before@.children(p).len() + 1
            &&& after@.children(p).take(after@.sibling_index(i)) + after@.children(p).skip(
                after@.sibling_index(i) + 1,
            ) == before@.children(p).take(before@.sibling_index(i)) + seq![n as usize] + before@.children(p).skip(
                before@.sibling_index(i) + 1,
            )
        }),
{
    let p = before@.parent(i)->0 as int;
    let n = before@.n() as int;
    before.lemma_sibling_setting(i, side);
    let pos = insert_position(before@, i, side);
    let values = seq![s[0].1];
    let w = before@.insert_child(p, pos, s[0].1);
    assert(values.drop_last() =~= Seq::<T>::empty());
    assert(before@.insert_children(p, pos, values.drop_last()) == before@);
    assert(values.last() == s[0].1);
    assert(before@.insert_children(p, pos, values) == w);
    lemma_insert_siblings(before@, i, side, values);
    lemma_insert_children(before@, p, pos, values);
    assert(new_positions(before@.n(), 1) =~= seq![before@.n() as usize]);
    assert(w.parent(before@.n() as int + 0) == Some(p as usize));
    let x = w.extend_seq(s, s.len() as int);
    assert(x == after@);
    assert(w.n() == n + 1);
    assert(x.nodes[p] == w.nodes[p]);
    assert(x.nodes[i] == w.nodes[i]);
    assert(x.nodes[n].parent == w.nodes[n].parent);
    assert(x.children(p) == w.children(p));
    assert(x.sibling_index(i) == w.sibling_index(i));
    assert(x.sibling_index(n) == w.sibling_index(n));
    assert(w.sibling_index(before@.n() as int + 0) == match side {
        Side::Right => w.sibling_index(i) + 1 + 0,
        Side::Left => w.sibling_index(i) - 1 + 0,
    });
}

} // verus!
