use vstd::prelude::*;

use crate::append::{first_jump, lemma_first_jump_at};
use crate::memory::{after_removal, policy_reclaims, reclaim_moves, AutoWithThreshold, Lazy, MemoryPolicy};
use crate::node_idx::NodeIdx;
use crate::reclaim::{lemma_compact_depth, lemma_compact_node, lemma_compact_pre_node, rank};
use crate::traversal::{lemma_same_items_same_set, PostOrder, Traverser};
use crate::tree::{lemma_count_same, lemma_count_update, Tree, TreeView};

verus! {

/// Swapping the data of two nodes and then swapping them again leaves the
/// tree as it was.
pub proof fn law_swap_data_twice<T>(v: TreeView<T>, a: int, b: int)
    requires
        v.active(a),
        v.active(b),
    ensures
        ({
            let w = v.set_data(a, v.data(b)).set_data(b, v.data(a));
            w.set_data(a, w.data(b)).set_data(b, w.data(a)) == v
        }),
{
    let w = v.set_data(a, v.data(b)).set_data(b, v.data(a));
    let z = w.set_data(a, w.data(b)).set_data(b, w.data(a));
    assert forall|x: int| 0 <= x < v.n() implies z.nodes[x] == v.nodes[x] by {
        if x == a || x == b {
            assert(v.nodes[x].data == Some(v.data(x)));
        }
    }
    assert(z.nodes =~= v.nodes);
}

/// Pushing a child keeps every valid index valid, pointing to the same data.
pub proof fn law_push_child_keeps_indices<T, M>(
    before: &Tree<T, M>,
    after: &Tree<T, M>,
    p: int,
    pos: int,
    value: T,
    j: NodeIdx,
)
    requires
        before.wf(),
        before@.active(p),
        after@ == before@.insert_child(p, pos, value),
        after.memory_state() == before.memory_state(),
        before.valid_idx(j),
    ensures
        after.valid_idx(j),
        after@.data(j.spec_pos() as int) == before@.data(j.spec_pos() as int),
{
}

/// Pushing children keeps every valid index valid, pointing to the same
/// data.
pub proof fn law_push_children_keeps_indices<T>(v: TreeView<T>, p: int, pos: int, values: Seq<T>, j: int)
    requires
        0 <= p < v.n(),
        v.active(j),
    ensures
        v.insert_children(p, pos, values).active(j),
        v.insert_children(p, pos, values).data(j) == v.data(j),
        v.insert_children(p, pos, values).n() == v.n() + values.len(),
    decreases values.len(),
{
    if values.len() > 0 {
        law_push_children_keeps_indices(v, p, pos, values.drop_last(), j);
        let w = v.insert_children(p, pos, values.drop_last());
        assert(w.insert_child(p, pos + values.len() - 1, values.last()).nodes[j] == w.nodes.update(
            p,
            w.insert_child(p, pos + values.len() - 1, values.last()).nodes[p],
        )[j]);
    }
}

/// Pushing a parent keeps every valid index valid, pointing to the same
/// data.
pub proof fn law_push_parent_keeps_indices<T, M>(
    before: &Tree<T, M>,
    after: &Tree<T, M>,
    i: int,
    value: T,
    j: NodeIdx,
)
    requires
        before.wf(),
        before@.active(i),
        after@ == before@.insert_parent(i, value),
        after.memory_state() == before.memory_state(),
        before.valid_idx(j),
    ensures
        after.valid_idx(j),
        after@.data(j.spec_pos() as int) == before@.data(j.spec_pos() as int),
{
    assert(before.wf_slot(i));
}

/// Appending a subtree keeps every valid index valid, pointing to the same
/// data.
pub proof fn law_append_keeps_indices<T>(v: TreeView<T>, p: int, pos: int, s: Seq<(usize, T)>, m: int, j: int)
    requires
        0 <= p < v.n(),
        1 <= m,
        v.active(j),
    ensures
        v.append_seq(p, pos, s, m).active(j),
        v.append_seq(p, pos, s, m).data(j) == v.data(j),
{
    let w = v.insert_child(p, pos, s[0].1);
    assert(w.active(j));
    let x = w.extend_seq(s, m);
    assert(x.nodes[j].data == w.nodes[j].data);
}

/// With the lazy policy, pruning a node invalidates exactly the indices of
/// the nodes of its subtree; every other index stays valid.
pub proof fn law_lazy_prune_invalidates_only_subtree<T>(
    before: &Tree<T, Lazy>,
    after: &Tree<T, Lazy>,
    i: int,
    j: NodeIdx,
)
    requires
        before.wf(),
        before@.active(i),
        after@ == after_removal::<T, Lazy>(before.spec_prune(i)),
        reclaim_moves::<T, Lazy>(before.spec_prune(i)) <==> after.memory_state() != before.memory_state(),
        before.valid_idx(j),
    ensures
        after.valid_idx(j) <==> !before.in_subtree(j.spec_pos() as int, i),
{
    let x = j.spec_pos() as int;
    let set = before.pre_node(i).to_set();
    assert(before.wf_slot(i));
    let d = before@.detach(i);
    assert(d.nodes[x].data == before@.nodes[x].data);
    assert(after@ == d.without(set));
    assert(set.contains(x as usize) <==> before.pre_node(i).contains(x as usize));
    assert(after@.nodes[x].data is Some <==> !set.contains(x as usize));
}

/// The lazy policy never reclaims, whatever the utilization.
pub proof fn law_lazy_never_reclaims(used: nat, active: nat)
    ensures
        !policy_reclaims::<Lazy>(used, active),
{
}

/// The threshold policy with `D = 0` never reclaims, whatever the
/// utilization.
pub proof fn law_threshold_zero_never_reclaims(used: nat, active: nat)
    requires
        active <= used,
    ensures
        !policy_reclaims::<AutoWithThreshold<0>>(used, active),
{
    assert(crate::memory::halved(used, 0) == used);
}

/// The ancestors of a node start with the node itself and end with the
/// root; there is one per level from the node up to the root.
pub proof fn law_ancestors_end_at_root<T, M>(tree: &Tree<T, M>, i: int)
    requires
        tree.wf(),
        tree@.active(i),
    ensures
        tree.ancestors_of(i)[0] == i,
        tree@.root is Some,
        tree.ancestors_of(i).last() == tree@.root->0,
        tree.ancestors_of(i).len() == tree.depth_of(i) + 1,
        forall|k: int|
            0 <= k < tree.ancestors_of(i).len() - 1 ==> #[trigger] tree@.parent(tree.ancestors_of(i)[k] as int) == Some(
                tree.ancestors_of(i)[k + 1],
            ),
        forall|k: int| 0 <= k < tree.ancestors_of(i).len() ==> tree@.active(#[trigger] tree.ancestors_of(i)[k] as int),
    decreases tree.depth_of(i),
{
    assert(tree.wf_slot(i));
    match tree@.parent(i) {
        Some(p) => {
            assert(tree.wf_slot(p as int));
            law_ancestors_end_at_root(tree, p as int);
            let rest = tree.ancestors_of(p as int);
            assert(tree.ancestors_of(i) == seq![i as usize] + rest);
            assert forall|k: int| 0 <= k < tree.ancestors_of(i).len() - 1 implies #[trigger] tree@.parent(
                tree.ancestors_of(i)[k] as int,
            ) == Some(tree.ancestors_of(i)[k + 1]) by {
                if k > 0 {
                    assert(tree.ancestors_of(i)[k] == rest[k - 1]);
                    assert(tree@.parent(rest[k - 1] as int) == Some(rest[k]));
                }
            }
            assert forall|k: int| 0 <= k < tree.ancestors_of(i).len() implies tree@.active(
                #[trigger] tree.ancestors_of(i)[k] as int,
            ) by {
                if k > 0 {
                    assert(tree.ancestors_of(i)[k] == rest[k - 1]);
                }
            }
        },
        None => {},
    }
}

/// The path of a node of the subtree of `i` up to `i` starts at the node,
/// ends at `i` and has one entry per level in between; each entry after
/// the first is the parent of the entry before it, and every entry lies in
/// the subtree of `i`.
pub proof fn law_path_connects_node_to_subtree_root<T, M>(tree: &Tree<T, M>, i: int, j: int)
    requires
        tree.wf(),
        tree@.active(i),
        0 <= j < tree@.n(),
        tree.in_subtree(j, i),
    ensures
        tree.path_up(j, i)[0] == j,
        tree.path_up(j, i).last() == i,
        tree.path_up(j, i).len() == tree.depth_of(j) - tree.depth_of(i) + 1,
        forall|k: int|
            0 <= k < tree.path_up(j, i).len() - 1 ==> #[trigger] tree@.parent(tree.path_up(j, i)[k] as int) == Some(
                tree.path_up(j, i)[k + 1],
            ),
        forall|k: int| 0 <= k < tree.path_up(j, i).len() ==> tree.in_subtree(#[trigger] tree.path_up(j, i)[k] as int, i),
    decreases tree.depth_of(j),
{
    tree.lemma_pre_node_members(i);
    let x = tree.pre_node(i).index_of(j as usize);
    assert(tree.pre_node(i)[x] == j);
    if j != i {
        assert(tree.wf_slot(j));
        let p = tree@.parent(j)->0 as int;
        tree.lemma_subtree_set(i);
        assert(tree.pre_node(i).to_set().contains(j as usize));
        assert(tree.pre_node(i).to_set().contains(p as usize));
        law_path_connects_node_to_subtree_root(tree, i, p);
        let rest = tree.path_up(p, i);
        assert(tree.path_up(j, i) == seq![j as usize] + rest);
        assert forall|k: int| 0 <= k < tree.path_up(j, i).len() - 1 implies #[trigger] tree@.parent(
            tree.path_up(j, i)[k] as int,
        ) == Some(tree.path_up(j, i)[k + 1]) by {
            if k > 0 {
                assert(tree.path_up(j, i)[k] == rest[k - 1]);
                assert(tree@.parent(rest[k - 1] as int) == Some(rest[k]));
            }
        }
        assert forall|k: int| 0 <= k < tree.path_up(j, i).len() implies tree.in_subtree(
            #[trigger] tree.path_up(j, i)[k] as int,
            i,
        ) by {
            if k > 0 {
                assert(tree.path_up(j, i)[k] == rest[k - 1]);
            }
        }
    }
}

/// Every strict descendant of the node at position `x` of the post-order
/// of the subtree of `i` stands before position `x`.
proof fn lemma_post_descendant_before<T, M>(tree: &Tree<T, M>, i: int, x: int, y: usize)
    requires
        tree.wf(),
        tree@.active(i),
        0 <= x < tree.post_node(i).len(),
        tree.in_subtree(y as int, tree.post_node(i)[x] as int),
        y != tree.post_node(i)[x],
    ensures
        tree.post_node(i).subrange(0, x).contains(y),
    decreases tree.depth_of(y as int),
{
    let s = tree.post_node(i);
    let a = s[x] as int;
    tree.lemma_post_node_active(i);
    assert(tree@.active(a));
    tree.lemma_subtree_set(a);
    assert(tree.pre_node(a).to_set().contains(y));
    assert(tree.wf_slot(y as int));
    let p = tree@.parent(y as int)->0;
    let ch = tree@.children(p as int);
    let t = ch.index_of(y);
    assert(ch[t] == y);
    tree.lemma_post_node_children_first(i);
    if p as int == a {
        assert(s.subrange(0, x).contains(tree@.children(s[x] as int)[t]));
    } else {
        assert(tree.pre_node(a).to_set().contains(p));
        assert(tree.in_subtree(p as int, a));
        lemma_post_descendant_before(tree, i, x, p);
        let x2 = s.subrange(0, x).index_of(p);
        assert(s[x2] == p);
        assert(s.subrange(0, x2).contains(tree@.children(s[x2] as int)[t]));
        let z = s.subrange(0, x2).index_of(y);
        assert(s.subrange(0, x)[z] == y);
    }
}

/// In post-order every node comes after all of its descendants.
pub proof fn law_post_order_descendants_first<T, M: MemoryPolicy>(tree: &Tree<T, M>, i: int, x: int, y: int)
    requires
        tree.wf(),
        tree@.active(i),
        0 <= x < <PostOrder as Traverser<T, M>>::spec_order(tree, i).len(),
        0 <= y < <PostOrder as Traverser<T, M>>::spec_order(tree, i).len(),
        x != y,
        tree.in_subtree(
            <PostOrder as Traverser<T, M>>::spec_order(tree, i)[y] as int,
            <PostOrder as Traverser<T, M>>::spec_order(tree, i)[x] as int,
        ),
    ensures
        y < x,
{
    let s = tree.post_node(i);
    <PostOrder as Traverser<T, M>>::lemma_visits_subtree_once(tree, i);
    assert(s[y] != s[x]);
    lemma_post_descendant_before(tree, i, x, s[y]);
    let z = s.subrange(0, x).index_of(s[y]);
    assert(s[z] == s[y]);
}

/// The post-order list of the children of `c` from child `m` on ends the
/// list from child `k` on.
proof fn lemma_post_list_suffix<T, M>(tree: &Tree<T, M>, c: int, k: int, m: int)
    requires
        tree.wf(),
        tree@.active(c),
        0 <= k <= m <= tree@.children(c).len(),
    ensures
        tree.post_list(c, m).len() <= tree.post_list(c, k).len(),
        forall|t: int|
            0 <= t < tree.post_list(c, m).len() ==> tree.post_list(c, k)[tree.post_list(c, k).len()
                - tree.post_list(c, m).len() + t] == #[trigger] tree.post_list(c, m)[t],
    decreases m - k,
{
    if k < m {
        tree.lemma_pre_list_unfold(c, k);
        lemma_post_list_suffix(tree, c, k + 1, m);
        let a = tree.post_node(tree@.children(c)[k] as int);
        let l = tree.post_list(c, k);
        let r = tree.post_list(c, k + 1);
        assert(l == a + r);
        assert forall|t: int| 0 <= t < tree.post_list(c, m).len() implies l[l.len() - tree.post_list(c, m).len() + t]
            == #[trigger] tree.post_list(c, m)[t] by {
            assert(l[a.len() + (r.len() - tree.post_list(c, m).len() + t)] == r[r.len() - tree.post_list(c, m).len() + t]);
        }
    }
}

/// The post-order of the subtree of a node `c` of the subtree of `i` is a
/// contiguous block of the post-order of the subtree of `i`, starting at
/// the returned offset.
proof fn lemma_post_block<T, M>(tree: &Tree<T, M>, i: int, c: int) -> (off: int)
    requires
        tree.wf(),
        tree@.active(i),
        0 <= c < tree@.n(),
        tree.in_subtree(c, i),
    ensures
        0 <= off,
        off + tree.post_node(c).len() <= tree.post_node(i).len(),
        forall|t: int| 0 <= t < tree.post_node(c).len() ==> tree.post_node(i)[off + t] == #[trigger] tree.post_node(c)[t],
    decreases tree.depth_of(c),
{
    tree.lemma_subtree_set(i);
    assert(tree.pre_node(i).to_set().contains(c as usize));
    if c == i {
        0
    } else {
        assert(tree.wf_slot(c));
        let p = tree@.parent(c)->0 as int;
        assert(tree.pre_node(i).to_set().contains(p as usize));
        let offp = lemma_post_block(tree, i, p);
        assert(tree@.active(p));
        assert(tree.wf_slot(p));
        let k = tree@.children(p).index_of(c as usize);
        assert(tree@.children(p)[k] == c as usize);
        tree.lemma_pre_list_unfold(p, k);
        lemma_post_list_suffix(tree, p, 0, k);
        let l0 = tree.post_list(p, 0);
        let lk = tree.post_list(p, k);
        let q = l0.len() - lk.len();
        let pc = tree.post_node(c);
        assert(tree.post_node(p) == l0.push(p as usize));
        assert forall|t: int| 0 <= t < pc.len() implies tree.post_node(i)[offp + q + t] == #[trigger] pc[t] by {
            assert(lk[t] == pc[t]);
            assert(l0[q + t] == lk[t]);
            assert(tree.post_node(p)[q + t] == l0[q + t]);
        }
        offp + q
    }
}

/// In post-order the subtrees of siblings come in the order of the
/// siblings: every node of the subtree of an earlier child of a node comes
/// before every node of the subtree of a later child.
pub proof fn law_post_order_siblings_in_order<T, M: MemoryPolicy>(
    tree: &Tree<T, M>,
    i: int,
    c: int,
    k1: int,
    k2: int,
    x: int,
    y: int,
)
    requires
        tree.wf(),
        tree@.active(i),
        0 <= c < tree@.n(),
        tree.in_subtree(c, i),
        0 <= k1 < k2 < tree@.children(c).len(),
        0 <= x < <PostOrder as Traverser<T, M>>::spec_order(tree, i).len(),
        0 <= y < <PostOrder as Traverser<T, M>>::spec_order(tree, i).len(),
        tree.in_subtree(<PostOrder as Traverser<T, M>>::spec_order(tree, i)[x] as int, tree@.children(c)[k1] as int),
        tree.in_subtree(<PostOrder as Traverser<T, M>>::spec_order(tree, i)[y] as int, tree@.children(c)[k2] as int),
    ensures
        x < y,
{
    let s = tree.post_node(i);
    <PostOrder as Traverser<T, M>>::lemma_visits_subtree_once(tree, i);
    tree.lemma_subtree_set(i);
    assert(tree.pre_node(i).to_set().contains(c as usize));
    assert(tree@.active(c));
    let a = tree@.children(c)[k1] as int;
    let b = tree@.children(c)[k2] as int;
    let off = lemma_post_block(tree, i, c);
    let l0 = tree.post_list(c, 0);
    lemma_post_list_suffix(tree, c, 0, k1);
    tree.lemma_pre_list_unfold(c, k1);
    lemma_post_list_suffix(tree, c, k1 + 1, k2);
    tree.lemma_pre_list_unfold(c, k2);
    let l1 = tree.post_list(c, k1);
    let l1n = tree.post_list(c, k1 + 1);
    let l2 = tree.post_list(c, k2);
    let pa = tree.post_node(a);
    let pb = tree.post_node(b);
    let pp = l0.len() - l1.len();
    let qq = l1n.len() - l2.len();
    assert(tree.post_node(c) == l0.push(c as usize));
    // where the node at `x` stands
    let u = s[x];
    tree.lemma_post_node_multiset(a);
    lemma_same_items_same_set(tree.post_node(a), tree.pre_node(a));
    assert(tree.pre_node(a).to_set().contains(u));
    assert(pa.to_set().contains(u));
    let iu = pa.index_of(u);
    assert(l1[iu] == pa[iu]);
    assert(l0[pp + iu] == l1[iu]);
    assert(tree.post_node(c)[pp + iu] == l0[pp + iu]);
    assert(s[off + pp + iu] == u);
    // where the node at `y` stands
    let w = s[y];
    tree.lemma_post_node_multiset(b);
    lemma_same_items_same_set(tree.post_node(b), tree.pre_node(b));
    assert(tree.pre_node(b).to_set().contains(w));
    assert(pb.to_set().contains(w));
    let iw = pb.index_of(w);
    assert(l2[iw] == pb[iw]);
    assert(l1n[qq + iw] == l2[iw]);
    assert(l1[pa.len() + qq + iw] == l1n[qq + iw]);
    assert(l0[pp + pa.len() + qq + iw] == l1[pa.len() + qq + iw]);
    assert(tree.post_node(c)[pp + pa.len() + qq + iw] == l0[pp + pa.len() + qq + iw]);
    assert(s[off + pp + pa.len() + qq + iw] == w);
    assert(x == off + pp + iu);
    assert(y == off + pp + pa.len() + qq + iw);
}

/// Moving a subtree within the tree keeps every valid index valid, pointing
/// to the same data; in particular the nodes of the moved subtree keep their
/// indices.
pub proof fn law_move_keeps_indices<T, M>(
    before: &Tree<T, M>,
    after: &Tree<T, M>,
    i: int,
    p: int,
    pos: int,
    j: NodeIdx,
)
    requires
        before.wf(),
        before@.active(i),
        before@.active(p),
        after@ == before@.move_subtree(i, p, pos),
        after.memory_state() == before.memory_state(),
        before.valid_idx(j),
    ensures
        after.valid_idx(j),
        after@.data(j.spec_pos() as int) == before@.data(j.spec_pos() as int),
{
    assert(before.wf_slot(i));
}

/// Reclaiming the memory of closed nodes only moves nodes to new positions:
/// the depth-first sequence of every subtree, data and shape, is kept.
pub proof fn law_reclaim_keeps_subtrees<T, M1, M2>(before: &Tree<T, M1>, after: &Tree<T, M2>, x: int)
    requires
        before.wf(),
        after.wf(),
        after@ == before@.compact(),
        before@.active(x),
    ensures
        after.dfs_seq(rank(before@.nodes, x) as int) == before.dfs_seq(x),
{
    let nodes = before@.nodes;
    lemma_compact_pre_node(before, after, x);
    lemma_compact_depth(before, after, x);
    before.lemma_pre_node_members(x);
    let s = before.pre_node(x);
    assert forall|k: int| 0 <= k < s.len() implies #[trigger] after.dfs_seq(rank(nodes, x) as int)[k] == before.dfs_seq(
        x,
    )[k] by {
        let j = s[k] as int;
        assert(before@.active(j));
        lemma_compact_depth(before, after, j);
        lemma_compact_node(before@, j);
        assert(after.pre_node(rank(nodes, x) as int)[k] == rank(nodes, j) as usize);
    }
    assert(after.dfs_seq(rank(nodes, x) as int) =~= before.dfs_seq(x));
}

/// Taking out a node removes exactly that node: the tree holds one node
/// less.
pub proof fn law_take_out_removes_one_node<T, M>(tree: &Tree<T, M>, i: int)
    requires
        tree.wf(),
        tree@.active(i),
    ensures
        tree@.take_out(i).num_nodes() + 1 == tree@.num_nodes(),
{
    let v = tree@;
    let closed = TreeView::<T>::closed_node();
    lemma_count_update(v.nodes, i, closed);
    assert(tree.wf_slot(i));
    assert forall|j: int| 0 <= j < v.n() implies ((#[trigger] v.take_out(i).nodes[j]).data is Some
        <==> v.nodes.update(i, closed)[j].data is Some) by {
        if j != i {
            if let Some(q) = v.parent(i) {
                assert(tree.wf_slot(q as int));
            }
        }
    }
    lemma_count_same(v.take_out(i).nodes, v.nodes.update(i, closed));
}

/// Taking out a node whose parent had `n` children, while the node has `m`
/// children, leaves the parent with `n - 1 + m` children: the node is
/// replaced by its children, in order.
pub proof fn law_take_out_children_move_up<T, M>(tree: &Tree<T, M>, i: int)
    requires
        tree.wf(),
        tree@.active(i),
        tree@.parent(i) is Some,
    ensures
        ({
            let p = tree@.parent(i)->0 as int;
            let k = tree@.sibling_index(i);
            let after = tree@.take_out(i).children(p);
            &&& after.len() + 1 == tree@.children(p).len() + tree@.children(i).len()
            &&& after.subrange(k, k + tree@.children(i).len()) == tree@.children(i)
        }),
{
    let p = tree@.parent(i)->0 as int;
    assert(tree.wf_slot(i));
    assert(tree.wf_slot(p));
    let k = tree@.sibling_index(i);
    let pc = tree@.children(p);
    assert(pc.contains(i as usize));
    assert(pc[k] == i);
    assert(p != i);
    let ch = tree@.children(i);
    let after = tree@.take_out(i).children(p);
    assert(after == pc.take(k) + ch + pc.skip(k + 1));
    assert(after.subrange(k, k + ch.len()) =~= ch);
}

/// Closing the distinct active positions of `list` removes exactly that many
/// nodes.
pub proof fn lemma_count_without<T>(v: TreeView<T>, list: Seq<usize>)
    requires
        list.no_duplicates(),
        forall|k: int| 0 <= k < list.len() ==> v.active(#[trigger] list[k] as int),
        v.n() <= usize::MAX,
    ensures
        v.without(list.to_set()).num_nodes() + list.len() == v.num_nodes(),
    decreases list.len(),
{
    if list.len() == 0 {
        assert(v.without(list.to_set()).nodes =~= v.nodes);
    } else {
        let rest = list.drop_last();
        let x = list.last();
        assert(list[list.len() - 1] == x);
        assert(rest.no_duplicates()) by {
            assert forall|a: int, b: int| 0 <= a < rest.len() && 0 <= b < rest.len() && a != b implies rest[a] != rest[b] by {
                assert(rest[a] == list[a] && rest[b] == list[b]);
            }
        }
        assert forall|k: int| 0 <= k < rest.len() implies v.active(#[trigger] rest[k] as int) by {
            assert(rest[k] == list[k]);
        }
        lemma_count_without(v, rest);
        let w = v.without(rest.to_set());
        assert(!rest.contains(x)) by {
            if rest.contains(x) {
                let y = rest.index_of(x);
                assert(list[y] == list[list.len() - 1]);
            }
        }
        assert(list.to_set() =~= rest.to_set().insert(x)) by {
            assert(list =~= rest.push(x));
            assert forall|y: usize| list.to_set().contains(y) <==> rest.to_set().insert(x).contains(y) by {
                if list.contains(y) && y != x {
                    let z = list.index_of(y);
                    assert(rest[z] == y);
                }
                if rest.contains(y) {
                    let z = rest.index_of(y);
                    assert(list[z] == y);
                }
                if y == x {
                    assert(list[list.len() - 1] == y);
                }
            }
        }
        assert(w.nodes[x as int].data is Some);
        let closed = TreeView::<T>::closed_node();
        lemma_count_update(w.nodes, x as int, closed);
        assert forall|j: int| 0 <= j < v.n() implies #[trigger] v.without(list.to_set()).nodes[j] == w.nodes.update(
            x as int,
            closed,
        )[j] by {
            assert(list.to_set().contains(j as usize) == (rest.to_set().contains(j as usize) || j as usize == x));
            if j != x as int {
                assert(w.nodes.update(x as int, closed)[j] == w.nodes[j]);
            }
        }
        assert(v.without(list.to_set()).nodes =~= w.nodes.update(x as int, closed));
    }
}

/// Pruning a node removes exactly the nodes of its subtree.
pub proof fn law_prune_removes_subtree<T, M: MemoryPolicy>(tree: &Tree<T, M>, i: int)
    requires
        tree.wf(),
        tree@.active(i),
    ensures
        tree.spec_prune(i).num_nodes() + tree.pre_node(i).len() == tree@.num_nodes(),
{
    let v = tree@;
    let d = v.detach(i);
    assert(tree.wf_slot(i));
    if let Some(q) = v.parent(i) {
        assert(tree.wf_slot(q as int));
    }
    assert forall|j: int| 0 <= j < v.n() implies ((#[trigger] d.nodes[j]).data is Some <==> v.nodes[j].data is Some) by {}
    lemma_count_same(d.nodes, v.nodes);
    tree.lemma_pre_node_no_dup(i);
    tree.lemma_pre_node_members(i);
    let list = tree.pre_node(i);
    assert forall|k: int| 0 <= k < list.len() implies d.active(#[trigger] list[k] as int) by {
        assert(v.active(list[k] as int));
    }
    lemma_count_without(d, list);
}

/// Whether `after` is what a removal that first produced `x` leaves under
/// the memory policy of the tree, as the removing operations state it.
pub open spec fn removal_result<T, M: MemoryPolicy>(before: &Tree<T, M>, after: &Tree<T, M>, x: TreeView<T>) -> bool {
    &&& after@ == after_removal::<T, M>(x)
    &&& (reclaim_moves::<T, M>(x) <==> after.memory_state() != before.memory_state())
}

/// Whether `after` is what one removal leaves of `before` under the lazy
/// policy: pruning a subtree (also moving it out, or taking it into a walk
/// or its leaves), removing the children of a node, or taking out a node.
pub open spec fn lazy_removal<T>(before: &Tree<T, Lazy>, after: &Tree<T, Lazy>) -> bool {
    exists|i: int|
        #[trigger] before@.active(i) && {
            ||| removal_result(before, after, before.spec_prune(i))
            ||| removal_result(before, after, before.spec_remove_children(i))
            ||| (before@.parent(i) is Some || before@.children(i).len() <= 1) && removal_result(
                before,
                after,
                before@.take_out(i),
            )
        }
}

/// One lazy removal keeps the memory state and moves no node: every node
/// still in the tree is at the same position with the same data.
proof fn lemma_lazy_removal_step<T>(before: &Tree<T, Lazy>, after: &Tree<T, Lazy>)
    requires
        before.wf(),
        lazy_removal(before, after),
    ensures
        after.memory_state() == before.memory_state(),
        after@.n() == before@.n(),
        forall|j: int| #[trigger] after@.active(j) ==> before@.active(j) && after@.data(j) == before@.data(j),
{
    let i = choose|i: int|
        #[trigger] before@.active(i) && {
            ||| removal_result(before, after, before.spec_prune(i))
            ||| removal_result(before, after, before.spec_remove_children(i))
            ||| (before@.parent(i) is Some || before@.children(i).len() <= 1) && removal_result(
                before,
                after,
                before@.take_out(i),
            )
        };
    assert(before.wf_slot(i));
    assert forall|j: int| #[trigger] after@.active(j) implies before@.active(j) && after@.data(j) == before@.data(j) by {
        if 0 <= j < before@.n() && before@.parent(i) is Some {
            assert(before.wf_slot(before@.parent(i)->0 as int));
        }
    }
}

/// With the lazy policy, over any sequence of removals (pruning, moving a
/// subtree out, removing children, taking out a node), an index stays valid
/// and points to the same data for as long as its node is in the tree: only
/// removing its own node invalidates it.
pub proof fn law_lazy_removals_keep_indices<T>(ts: Seq<Tree<T, Lazy>>, idx: NodeIdx, k: int)
    requires
        forall|s: int| 0 <= s < ts.len() ==> #[trigger] ts[s].wf(),
        forall|s: int| 0 < s < ts.len() ==> lazy_removal(&ts[s - 1], #[trigger] &ts[s]),
        0 <= k < ts.len(),
        ts[0].valid_idx(idx),
        ts[k]@.active(idx.spec_pos() as int),
    ensures
        ts[k].valid_idx(idx),
        ts[k]@.data(idx.spec_pos() as int) == ts[0]@.data(idx.spec_pos() as int),
    decreases k,
{
    if k > 0 {
        assert(ts[k - 1].wf());
        assert(lazy_removal(&ts[k - 1], &ts[k]));
        lemma_lazy_removal_step(&ts[k - 1], &ts[k]);
        law_lazy_removals_keep_indices(ts, idx, k - 1);
    }
}

/// Appending the depth-first sequence of any subtree, of this tree or of
/// another, never stops early, and the appended subtree is a copy of it:
/// its depth-first sequence is the same, depths and data.
pub proof fn law_append_copies_subtree<T, M1, M2>(
    src: &Tree<T, M1>,
    m: int,
    before: &Tree<T, M2>,
    after: &Tree<T, M2>,
    p: int,
    pos: int,
)
    requires
        src.wf(),
        src@.active(m),
        before.wf(),
        before@.active(p),
        0 <= pos <= before@.children(p).len(),
        before@.n() + src.dfs_seq(m).len() + 1 < usize::MAX,
        after.wf(),
        after@ == before@.append_seq(p, pos, src.dfs_seq(m), first_jump(src.dfs_seq(m))),
    ensures
        first_jump(src.dfs_seq(m)) == src.dfs_seq(m).len(),
        after.dfs_seq(before@.n() as int) == src.dfs_seq(m),
{
    let s = src.dfs_seq(m);
    src.lemma_dfs_seq_valid(m);
    lemma_first_jump_at(s, 1, s.len() as int);
    let v = before@.insert_child(p, pos, s[0].1);
    after.lemma_extend_dfs_seq(v, s);
}

/// Turning a tree into a lazy one and then making any sequence of removals
/// keeps every index of the tree valid, pointing to the same data, for as
/// long as its node is in the tree.
pub proof fn law_lazy_conversion_then_removals_keep_indices<T, M>(
    t: &Tree<T, M>,
    ts: Seq<Tree<T, Lazy>>,
    idx: NodeIdx,
    k: int,
)
    requires
        t.wf(),
        t.valid_idx(idx),
        ts.len() >= 1,
        ts[0]@ == t@,
        ts[0].memory_state() == t.memory_state(),
        forall|s: int| 0 <= s < ts.len() ==> #[trigger] ts[s].wf(),
        forall|s: int| 0 < s < ts.len() ==> lazy_removal(&ts[s - 1], #[trigger] &ts[s]),
        0 <= k < ts.len(),
        ts[k]@.active(idx.spec_pos() as int),
    ensures
        ts[k].valid_idx(idx),
        ts[k]@.data(idx.spec_pos() as int) == t@.data(idx.spec_pos() as int),
{
    assert(ts[0].wf());
    law_lazy_removals_keep_indices(ts, idx, k);
}

/// `x` halved `d` times is `x` divided by two to the power `d`.
proof fn lemma_halved_is_division(x: nat, d: nat)
    ensures
        crate::memory::halved(x, d) == x / vstd::arithmetic::power2::pow2(d),
    decreases d,
{
    if d == 0 {
        vstd::arithmetic::power::lemma_pow0(2);
        assert(vstd::arithmetic::power2::pow2(0) == 1);
        assert(x / 1 == x);
    } else {
        let q = vstd::arithmetic::power2::pow2((d - 1) as nat);
        lemma_halved_is_division(x / 2, (d - 1) as nat);
        assert(crate::memory::halved(x, d) == crate::memory::halved(x / 2, (d - 1) as nat));
        vstd::arithmetic::power2::lemma_pow2_unfold(d);
        vstd::arithmetic::power2::lemma_pow2_pos((d - 1) as nat);
        vstd::arithmetic::div_mod::lemma_div_denominator(x as int, 2, q as int);
        assert((x / 2) / q == x / (2 * q));
    }
}

/// Under `AutoWithThreshold<D>` a tree reclaims its closed positions exactly
/// when they are more than its used positions divided by two to the power
/// `D`; under `Auto` exactly when they are more than a quarter of them.
pub proof fn law_reclaim_threshold<const D: usize>(used: nat, active: nat)
    requires
        active <= used,
    ensures
        policy_reclaims::<AutoWithThreshold<D>>(used, active) <==> used - active > used
            / vstd::arithmetic::power2::pow2(D as nat),
        policy_reclaims::<crate::memory::Auto>(used, active) <==> used - active > used / 4,
{
    lemma_halved_is_division(used, D as nat);
    reveal_with_fuel(crate::memory::halved, 3);
    assert(crate::memory::halved(used, 2) == (used / 2) / 2);
    vstd::arithmetic::div_mod::lemma_div_denominator(used as int, 2, 2);
}

} // verus!
