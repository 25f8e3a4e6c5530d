use vstd::prelude::*;

use crate::memory::MemoryPolicy;
use crate::traversal::{Bfs, Dfs, Traverser};
use crate::tree::Tree;

verus! {

/// The depth-first list of the children of `c` from child `m` on ends the
/// list from child `k` on.
proof fn lemma_pre_list_suffix<T, M>(tree: &Tree<T, M>, c: int, k: int, m: int)
    requires
        tree.wf(),
        tree@.active(c),
        0 <= k <= m <= tree@.children(c).len(),
    ensures
        tree.pre_list(c, m).len() <= tree.pre_list(c, k).len(),
        forall|t: int|
            0 <= t < tree.pre_list(c, m).len() ==> tree.pre_list(c, k)[tree.pre_list(c, k).len()
                - tree.pre_list(c, m).len() + t] == #[trigger] tree.pre_list(c, m)[t],
    decreases m - k,
{
    if k < m {
        tree.lemma_pre_list_unfold(c, k);
        lemma_pre_list_suffix(tree, c, k + 1, m);
        let a = tree.pre_node(tree@.children(c)[k] as int);
        let l = tree.pre_list(c, k);
        let r = tree.pre_list(c, k + 1);
        assert(l == a + r);
        assert forall|t: int| 0 <= t < tree.pre_list(c, m).len() implies l[l.len() - tree.pre_list(c, m).len() + t]
            == #[trigger] tree.pre_list(c, m)[t] by {
            assert(l[a.len() + (r.len() - tree.pre_list(c, m).len() + t)] == r[r.len() - tree.pre_list(c, m).len() + t]);
        }
    }
}

/// The depth-first order of the subtree of a node `c` of the subtree of `i`
/// is a contiguous block of the depth-first order of the subtree of `i`,
/// starting at the returned offset.
proof fn lemma_pre_block<T, M>(tree: &Tree<T, M>, i: int, c: int) -> (off: int)
    requires
        tree.wf(),
        tree@.active(i),
        0 <= c < tree@.n(),
        tree.in_subtree(c, i),
    ensures
        0 <= off,
        off + tree.pre_node(c).len() <= tree.pre_node(i).len(),
        forall|t: int| 0 <= t < tree.pre_node(c).len() ==> tree.pre_node(i)[off + t] == #[trigger] tree.pre_node(c)[t],
    decreases tree.depth_of(c),
{
    tree.lemma_subtree_set(i);
    assert(tree.pre_node(i).to_set().contains(c as usize));
    if c == i {
        0
    } else {
        assert(tree.wf_slot(c));
        let p = tree@.parent(c)->0 as int;
        assert(tree.pre_node(i).to_set().contains(p as usize));
        let offp = lemma_pre_block(tree, i, p);
        assert(tree@.active(p));
        assert(tree.wf_slot(p));
        let k = tree@.children(p).index_of(c as usize);
        assert(tree@.children(p)[k] == c as usize);
        tree.lemma_pre_list_unfold(p, k);
        lemma_pre_list_suffix(tree, p, 0, k);
        let l0 = tree.pre_list(p, 0);
        let lk = tree.pre_list(p, k);
        let q = 1 + l0.len() - lk.len();
        let pc = tree.pre_node(c);
        assert(tree.pre_node(p) == seq![p as usize] + l0);
        assert forall|t: int| 0 <= t < pc.len() implies tree.pre_node(i)[offp + q + t] == #[trigger] pc[t] by {
            assert(lk[t] == pc[t]);
            assert(l0[q - 1 + t] == lk[t]);
            assert(tree.pre_node(p)[q + t] == l0[q - 1 + t]);
        }
        offp + q
    }
}

/// In a depth-first walk every node comes before all of its descendants.
pub proof fn law_dfs_node_before_descendants<T, M: MemoryPolicy>(tree: &Tree<T, M>, i: int, x: int, y: int)
    requires
        tree.wf(),
        tree@.active(i),
        0 <= x < <Dfs as Traverser<T, M>>::spec_order(tree, i).len(),
        0 <= y < <Dfs as Traverser<T, M>>::spec_order(tree, i).len(),
        x != y,
        tree.in_subtree(
            <Dfs as Traverser<T, M>>::spec_order(tree, i)[y] as int,
            <Dfs as Traverser<T, M>>::spec_order(tree, i)[x] as int,
        ),
    ensures
        x < y,
{
    let s = tree.pre_node(i);
    tree.lemma_pre_node_no_dup(i);
    tree.lemma_pre_node_members(i);
    let a = s[x] as int;
    assert(tree@.active(a));
    assert(tree.in_subtree(a, i));
    let off = lemma_pre_block(tree, i, a);
    tree.lemma_pre_node_members(a);
    let pa = tree.pre_node(a);
    assert(s[off] == pa[0]);
    assert(off == x);
    let t = pa.index_of(s[y]);
    assert(pa[t] == s[y]);
    assert(s[off + t] == s[y]);
    assert(off + t == y);
    assert(t != 0);
}

/// In a depth-first walk the subtrees of siblings come in the order of the
/// siblings: every node of the subtree of an earlier child of a node comes
/// before every node of the subtree of a later child.
pub proof fn law_dfs_siblings_in_order<T, M: MemoryPolicy>(
    tree: &Tree<T, M>,
    i: int,
    c: int,
    k1: int,
    k2: int,
    x: int,
    y: int,
)
    requires
        tree.wf(),
        tree@.active(i),
        0 <= c < tree@.n(),
        tree.in_subtree(c, i),
        0 <= k1 < k2 < tree@.children(c).len(),
        0 <= x < <Dfs as Traverser<T, M>>::spec_order(tree, i).len(),
        0 <= y < <Dfs as Traverser<T, M>>::spec_order(tree, i).len(),
        tree.in_subtree(<Dfs as Traverser<T, M>>::spec_order(tree, i)[x] as int, tree@.children(c)[k1] as int),
        tree.in_subtree(<Dfs as Traverser<T, M>>::spec_order(tree, i)[y] as int, tree@.children(c)[k2] as int),
    ensures
        x < y,
{
    let s = tree.pre_node(i);
    tree.lemma_pre_node_no_dup(i);
    tree.lemma_subtree_set(i);
    assert(tree.pre_node(i).to_set().contains(c as usize));
    assert(tree@.active(c));
    let a = tree@.children(c)[k1] as int;
    let b = tree@.children(c)[k2] as int;
    let off = lemma_pre_block(tree, i, c);
    let l0 = tree.pre_list(c, 0);
    lemma_pre_list_suffix(tree, c, 0, k1);
    tree.lemma_pre_list_unfold(c, k1);
    lemma_pre_list_suffix(tree, c, k1 + 1, k2);
    tree.lemma_pre_list_unfold(c, k2);
    let l1 = tree.pre_list(c, k1);
    let l1n = tree.pre_list(c, k1 + 1);
    let l2 = tree.pre_list(c, k2);
    let pa = tree.pre_node(a);
    let pb = tree.pre_node(b);
    let pp = l0.len() - l1.len();
    let qq = l1n.len() - l2.len();
    assert(tree.pre_node(c) == seq![c as usize] + l0);
    let u = s[x];
    let iu = pa.index_of(u);
    assert(pa[iu] == u);
    assert(l1[iu] == pa[iu]);
    assert(l0[pp + iu] == l1[iu]);
    assert(tree.pre_node(c)[1 + pp + iu] == l0[pp + iu]);
    assert(s[off + 1 + pp + iu] == u);
    let w = s[y];
    let iw = pb.index_of(w);
    assert(pb[iw] == w);
    assert(l2[iw] == pb[iw]);
    assert(l1n[qq + iw] == l2[iw]);
    assert(l1[pa.len() + qq + iw] == l1n[qq + iw]);
    assert(l0[pp + pa.len() + qq + iw] == l1[pa.len() + qq + iw]);
    assert(tree.pre_node(c)[1 + pp + pa.len() + qq + iw] == l0[pp + pa.len() + qq + iw]);
    assert(s[off + 1 + pp + pa.len() + qq + iw] == w);
    assert(x == off + 1 + pp + iu);
    assert(y == off + 1 + pp + pa.len() + qq + iw);
}

/// Every node of a breadth-first walk from a level at depth `d` lies at
/// depth `d` or deeper, and a node of a later position is never shallower.
proof fn lemma_levels_depths<T, M>(tree: &Tree<T, M>, level: Seq<usize>, d: nat, fuel: nat)
    requires
        tree.wf(),
        tree.level_ok(level, d),
    ensures
        forall|x: int, y: int|
            0 <= x < y < tree.levels(level, fuel).len() ==> tree.depth_of(#[trigger] tree.levels(level, fuel)[x] as int)
                <= tree.depth_of(#[trigger] tree.levels(level, fuel)[y] as int),
    decreases fuel,
{
    if fuel > 0 && level.len() > 0 {
        tree.lemma_next_level_ok(level, d);
        let next = tree.next_level(level);
        let rest = tree.levels(next, (fuel - 1) as nat);
        lemma_levels_depths(tree, next, d + 1, (fuel - 1) as nat);
        tree.lemma_levels_active(next, d + 1, (fuel - 1) as nat);
        let all = tree.levels(level, fuel);
        assert(all == level + rest);
        assert forall|x: int, y: int| 0 <= x < y < all.len() implies tree.depth_of(#[trigger] all[x] as int)
            <= tree.depth_of(#[trigger] all[y] as int) by {
            if y < level.len() {
                assert(all[x] == level[x] && all[y] == level[y]);
            } else if x < level.len() {
                assert(all[x] == level[x] && all[y] == rest[y - level.len()]);
            } else {
                assert(all[x] == rest[x - level.len()] && all[y] == rest[y - level.len()]);
            }
        }
    }
}

/// A breadth-first walk goes level by level: a node visited later is never
/// shallower than a node visited earlier.
pub proof fn law_bfs_depths_never_decrease<T, M: MemoryPolicy>(tree: &Tree<T, M>, i: int, x: int, y: int)
    requires
        tree.wf(),
        tree@.active(i),
        0 <= x < y < <Bfs as Traverser<T, M>>::spec_order(tree, i).len(),
    ensures
        tree.depth_of(<Bfs as Traverser<T, M>>::spec_order(tree, i)[x] as int) <= tree.depth_of(
            <Bfs as Traverser<T, M>>::spec_order(tree, i)[y] as int,
        ),
{
    let level = seq![i as usize];
    assert(tree.level_ok(level, tree.depth_of(i)));
    lemma_levels_depths(tree, level, tree.depth_of(i), tree@.n());
}

/// The next level of two levels one after the other is the next level of
/// the first followed by that of the second.
proof fn lemma_next_level_concat<T, M>(tree: &Tree<T, M>, a: Seq<usize>, b: Seq<usize>)
    ensures
        tree.next_level(a + b) == tree.next_level(a) + tree.next_level(b),
    decreases b.len(),
{
    if b.len() == 0 {
        assert(a + b =~= a);
        assert(tree.next_level(b) == Seq::<usize>::empty());
        assert(tree.next_level(a) + tree.next_level(b) =~= tree.next_level(a));
    } else {
        lemma_next_level_concat(tree, a, b.drop_last());
        assert((a + b).drop_last() =~= a + b.drop_last());
        assert((a + b).last() == b.last());
        assert(tree.next_level(a + b) == tree.next_level(a + b.drop_last()) + tree@.children(b.last() as int));
        assert(tree.next_level(a) + tree.next_level(b) =~= tree.next_level(a) + tree.next_level(b.drop_last())
            + tree@.children(b.last() as int));
    }
}

/// In a breadth-first walk from a level at depth `d`, with fuel that
/// reaches past the deepest level, the children of a visited node come in
/// their order: child `k` at the returned position plus `k`.
proof fn lemma_levels_children<T, M>(tree: &Tree<T, M>, level: Seq<usize>, d: nat, fuel: nat, c: usize) -> (at: int)
    requires
        tree.wf(),
        tree.level_ok(level, d),
        d + fuel >= tree@.n(),
        tree.levels(level, fuel).contains(c),
    ensures
        0 <= at,
        at + tree@.children(c as int).len() <= tree.levels(level, fuel).len(),
        forall|k: int|
            0 <= k < tree@.children(c as int).len() ==> tree.levels(level, fuel)[at + k] == #[trigger] tree@.children(
                c as int,
            )[k],
    decreases fuel,
{
    let all = tree.levels(level, fuel);
    if fuel == 0 || level.len() == 0 {
        assert(all == Seq::<usize>::empty());
        assert(false);
        0
    } else {
        tree.lemma_next_level_ok(level, d);
        let next = tree.next_level(level);
        let rest = tree.levels(next, (fuel - 1) as nat);
        assert(all == level + rest);
        let ch = tree@.children(c as int);
        if level.contains(c) {
            let t = level.index_of(c);
            assert(level[t] == c);
            assert(level =~= level.take(t) + seq![c] + level.skip(t + 1));
            lemma_next_level_concat(tree, level.take(t) + seq![c], level.skip(t + 1));
            lemma_next_level_concat(tree, level.take(t), seq![c]);
            assert(seq![c].drop_last() =~= Seq::<usize>::empty());
            assert(tree.next_level(seq![c]) == tree.next_level(Seq::<usize>::empty()) + ch);
            assert(tree.next_level(seq![c]) =~= ch);
            let pre = tree.next_level(level.take(t));
            assert(next == pre + ch + tree.next_level(level.skip(t + 1)));
            if ch.len() == 0 {
                0
            } else {
                // the children are at depth d + 1 < n, so the fuel reaches them
                assert(tree.wf_slot(level[t] as int));
                assert(tree@.active(ch[0] as int));
                assert(tree.wf_slot(ch[0] as int));
                assert(fuel >= 2);
                assert(next.len() > 0);
                assert(rest == next + tree.levels(tree.next_level(next), (fuel - 2) as nat));
                assert forall|k: int| 0 <= k < ch.len() implies all[level.len() + pre.len() + k] == #[trigger] ch[k] by {
                    assert(next[pre.len() + k] == ch[k]);
                    assert(rest[pre.len() + k] == next[pre.len() + k]);
                }
                (level.len() + pre.len()) as int
            }
        } else {
            let z = all.index_of(c);
            assert(all[z] == c);
            assert(z >= level.len());
            assert(rest[z - level.len()] == c);
            assert(rest.contains(c));
            let at = lemma_levels_children(tree, next, d + 1, (fuel - 1) as nat, c);
            assert forall|k: int| 0 <= k < ch.len() implies all[level.len() + at + k] == #[trigger] ch[k] by {
                assert(rest[at + k] == ch[k]);
            }
            level.len() as int + at
        }
    }
}

/// A breadth-first walk visits the children of every node in their order.
pub proof fn law_bfs_children_in_order<T, M: MemoryPolicy>(
    tree: &Tree<T, M>,
    i: int,
    c: int,
    k1: int,
    k2: int,
    x: int,
    y: int,
)
    requires
        tree.wf(),
        tree@.active(i),
        0 <= c < tree@.n(),
        0 <= k1 < k2 < tree@.children(c).len(),
        0 <= x < <Bfs as Traverser<T, M>>::spec_order(tree, i).len(),
        0 <= y < <Bfs as Traverser<T, M>>::spec_order(tree, i).len(),
        <Bfs as Traverser<T, M>>::spec_order(tree, i)[x] == tree@.children(c)[k1],
        <Bfs as Traverser<T, M>>::spec_order(tree, i)[y] == tree@.children(c)[k2],
    ensures
        x < y,
{
    let s = tree.bfs_node(i);
    <Bfs as Traverser<T, M>>::lemma_visits_subtree_once(tree, i);
    tree.lemma_pre_node_no_dup(i);
    crate::traversal::lemma_same_items_same_set(s, tree.pre_node(i));
    tree.lemma_pre_node_members(i);
    tree.lemma_subtree_set(i);
    // the parent `c` is visited too
    let a = tree@.children(c)[k1];
    let b = tree@.children(c)[k2];
    assert(s.contains(a) && s.contains(b));
    assert(s.to_set().contains(a) && s.to_set().contains(b));
    assert(tree.pre_node(i).to_set().contains(a));
    assert(tree.pre_node(i).to_set().contains(b));
    assert(tree@.active(c)) by {
        assert(tree@.active(a as int));
        assert(tree.wf_slot(a as int));
        if !tree@.active(c) {
            assert(tree.wf_slot(c));
        }
    }
    assert(tree.wf_slot(c));
    assert(tree@.parent(a as int) == Some(c as usize));
    assert(tree@.parent(b as int) == Some(c as usize));
    assert(a != b);
    assert(a as int != i || b as int != i);
    let cc: usize = if a as int != i {
        tree@.parent(a as int)->0
    } else {
        tree@.parent(b as int)->0
    };
    assert(cc == c as usize);
    assert(tree.pre_node(i).to_set().contains(cc));
    assert(s.to_set().contains(cc));
    assert(s.contains(cc));
    let level = seq![i as usize];
    assert(tree.level_ok(level, tree.depth_of(i)));
    let at = lemma_levels_children(tree, level, tree.depth_of(i), tree@.n(), cc);
    assert(s[at + k1] == a);
    assert(s[at + k2] == b);
    assert(x == at + k1);
    assert(y == at + k2);
}

} // verus!
