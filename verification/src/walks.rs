use vstd::prelude::*;

use crate::memory::{after_removal, policy_reclaims, reclaim_moves, MemoryPolicy};
use crate::node_idx::NodeIdx;
use crate::reclaim::{lemma_compact_depth, lemma_compact_node, lemma_compact_pre_node, rank, renamed};
use crate::traversal::{Bfs, Dfs, PostOrder, Traverser};
use crate::traversal::lemma_same_items_same_set;
use crate::tree::{Tree, TreeView};

verus! {

/// Two trees with the same view and the same depths have the same
/// depth-first and post-order lists of the children of `x` from child `k` on.
proof fn lemma_equal_lists<T, M1, M2>(a: &Tree<T, M1>, b: &Tree<T, M2>, x: int, k: int)
    requires
        b@ == a@,
        forall|j: int| #[trigger] b.depth_of(j) == a.depth_of(j),
    ensures
        b.pre_list(x, k) == a.pre_list(x, k),
        b.post_list(x, k) == a.post_list(x, k),
    decreases a@.n() - a.depth_of(x), 0int, a@.children(x).len() - k,
{
    if 0 <= k < a@.children(x).len() {
        let c = a@.children(x)[k] as int;
        if a.depth_of(x) < a.depth_of(c) <= a@.n() {
            lemma_equal_nodes(a, b, c);
        }
        lemma_equal_lists(a, b, x, k + 1);
    }
}

/// Two trees with the same view and the same depths have the same
/// depth-first and post-order walks from `x`.
proof fn lemma_equal_nodes<T, M1, M2>(a: &Tree<T, M1>, b: &Tree<T, M2>, x: int)
    requires
        b@ == a@,
        forall|j: int| #[trigger] b.depth_of(j) == a.depth_of(j),
    ensures
        b.pre_node(x) == a.pre_node(x),
        b.post_node(x) == a.post_node(x),
    decreases a@.n() - a.depth_of(x), 1int, 0int,
{
    lemma_equal_lists(a, b, x, 0);
}

/// Two trees with the same view have the same breadth-first walks from a
/// level.
proof fn lemma_equal_levels<T, M1, M2>(a: &Tree<T, M1>, b: &Tree<T, M2>, level: Seq<usize>, fuel: nat)
    requires
        b@ == a@,
    ensures
        b.next_level(level) == a.next_level(level),
        b.levels(level, fuel) == a.levels(level, fuel),
    decreases fuel, level.len(),
{
    if level.len() > 0 {
        lemma_equal_levels(a, b, level.drop_last(), fuel);
        if fuel > 0 {
            lemma_equal_levels(a, b, a.next_level(level), (fuel - 1) as nat);
        }
    }
}

/// Moving a tree to another memory policy without reclaiming keeps every
/// walk: the tree and its depths stay the same, so from every node the
/// depth-first, breadth-first and post-order walks visit the same nodes in
/// the same order, at the same depths.
pub proof fn law_policy_change_keeps_walks<T, M1: MemoryPolicy, M2: MemoryPolicy>(
    a: &Tree<T, M1>,
    b: &Tree<T, M2>,
    i: int,
)
    requires
        b@ == a@,
        forall|j: int| #[trigger] b.depth_of(j) == a.depth_of(j),
    ensures
        <Dfs as Traverser<T, M2>>::spec_order(b, i) == <Dfs as Traverser<T, M1>>::spec_order(a, i),
        <Bfs as Traverser<T, M2>>::spec_order(b, i) == <Bfs as Traverser<T, M1>>::spec_order(a, i),
        <PostOrder as Traverser<T, M2>>::spec_order(b, i) == <PostOrder as Traverser<T, M1>>::spec_order(a, i),
{
    lemma_equal_nodes(a, b, i);
    lemma_equal_levels(a, b, seq![i as usize], a@.n());
}

/// Reclaiming closed positions renames the post-order lists of the
/// children of a node from child `k` on to the new positions.
proof fn lemma_compact_post_list<T, M1, M2>(a: &Tree<T, M1>, b: &Tree<T, M2>, x: int, k: int)
    requires
        a.wf(),
        b.wf(),
        b@ == a@.compact(),
        a@.active(x),
        0 <= k,
    ensures
        b.post_list(rank(a@.nodes, x) as int, k) == renamed(a@.nodes, a.post_list(x, k)),
    decreases a@.n() - a.depth_of(x), 0int, a@.children(x).len() - k,
{
    let nodes = a@.nodes;
    lemma_compact_node(a@, x);
    let rx = rank(nodes, x) as int;
    assert(b@.children(rx) =~= renamed(nodes, a@.children(x)));
    assert(b@.active(rx));
    if k < a@.children(x).len() {
        a.lemma_pre_list_unfold(x, k);
        b.lemma_pre_list_unfold(rx, k);
        let c = a@.children(x)[k] as int;
        assert(a@.active(c));
        lemma_compact_node(a@, c);
        assert(b@.children(rx)[k] == rank(nodes, c) as usize);
        assert(a.wf_slot(c));
        lemma_compact_post_node(a, b, c);
        lemma_compact_post_list(a, b, x, k + 1);
        assert(renamed(nodes, a.post_node(c) + a.post_list(x, k + 1)) =~= renamed(nodes, a.post_node(c)) + renamed(
            nodes,
            a.post_list(x, k + 1),
        ));
        assert(b.post_list(rx, k) == b.post_node(b@.children(rx)[k] as int) + b.post_list(rx, k + 1));
    } else {
        a.lemma_list_end(x);
        b.lemma_list_end(rx);
        assert(renamed(nodes, a.post_list(x, k)) =~= Seq::<usize>::empty());
    }
}

/// Reclaiming closed positions renames the post-order of the subtree of a
/// node to the new positions.
proof fn lemma_compact_post_node<T, M1, M2>(a: &Tree<T, M1>, b: &Tree<T, M2>, x: int)
    requires
        a.wf(),
        b.wf(),
        b@ == a@.compact(),
        a@.active(x),
    ensures
        b.post_node(rank(a@.nodes, x) as int) == renamed(a@.nodes, a.post_node(x)),
    decreases a@.n() - a.depth_of(x), 1int, 0int,
{
    let nodes = a@.nodes;
    lemma_compact_post_list(a, b, x, 0);
    lemma_compact_node(a@, x);
    assert(renamed(nodes, a.post_list(x, 0).push(x as usize)) =~= renamed(nodes, a.post_list(x, 0)).push(
        rank(nodes, x) as usize,
    ));
}

/// Reclaiming closed positions renames the next level of a level of
/// active nodes.
proof fn lemma_compact_next_level<T, M1, M2>(a: &Tree<T, M1>, b: &Tree<T, M2>, level: Seq<usize>)
    requires
        b.wf(),
        b@ == a@.compact(),
        forall|j: int| 0 <= j < level.len() ==> a@.active(#[trigger] level[j] as int),
    ensures
        b.next_level(renamed(a@.nodes, level)) == renamed(a@.nodes, a.next_level(level)),
    decreases level.len(),
{
    let nodes = a@.nodes;
    if level.len() > 0 {
        let rest = level.drop_last();
        let x = level.last();
        assert(level[level.len() - 1] == x);
        assert forall|j: int| 0 <= j < rest.len() implies a@.active(#[trigger] rest[j] as int) by {
            assert(rest[j] == level[j]);
        }
        lemma_compact_next_level(a, b, rest);
        lemma_compact_node(a@, x as int);
        let rl = renamed(nodes, level);
        assert(rl.drop_last() =~= renamed(nodes, rest));
        assert(rl.len() == level.len());
        assert(rl[rl.len() - 1] == rank(nodes, level[level.len() - 1] as int) as usize);
        assert(rl.last() == rank(nodes, x as int) as usize);
        assert(b.next_level(rl) == b.next_level(rl.drop_last()) + b@.children(rl.last() as int));
        assert(a.next_level(level) == a.next_level(rest) + a@.children(x as int));
        assert(b@.children(rank(nodes, x as int) as int) =~= renamed(nodes, a@.children(x as int)));
        assert(renamed(nodes, a.next_level(rest) + a@.children(x as int)) =~= renamed(nodes, a.next_level(rest))
            + renamed(nodes, a@.children(x as int)));
    } else {
        assert(renamed(nodes, level) =~= Seq::<usize>::empty());
        assert(renamed(nodes, a.next_level(level)) =~= Seq::<usize>::empty());
    }
}

/// Reclaiming closed positions renames the breadth-first walk from a level
/// of active nodes, whenever both fuels reach past the deepest level.
proof fn lemma_compact_levels<T, M1, M2>(
    a: &Tree<T, M1>,
    b: &Tree<T, M2>,
    level: Seq<usize>,
    depth: nat,
    fa: nat,
    fb: nat,
)
    requires
        a.wf(),
        b.wf(),
        b@ == a@.compact(),
        a.level_ok(level, depth),
        depth + fa >= a@.n(),
        depth + fb >= b@.n(),
    ensures
        b.levels(renamed(a@.nodes, level), fb) == renamed(a@.nodes, a.levels(level, fa)),
    decreases fa,
{
    let nodes = a@.nodes;
    let rl = renamed(nodes, level);
    if level.len() == 0 {
        assert(rl =~= Seq::<usize>::empty());
        assert(renamed(nodes, a.levels(level, fa)) =~= Seq::<usize>::empty());
    } else if fa == 0 {
        let x = level[0] as int;
        assert(a.wf_slot(x));
    } else if fb == 0 {
        let x = level[0] as int;
        lemma_compact_node(a@, x);
        lemma_compact_depth(a, b, x);
        assert(b.wf_slot(rank(nodes, x) as int));
    } else {
        a.lemma_next_level_ok(level, depth);
        lemma_compact_next_level(a, b, level);
        let next = a.next_level(level);
        assert forall|j: int| 0 <= j < next.len() implies a@.active(#[trigger] next[j] as int) by {}
        lemma_compact_levels(a, b, next, depth + 1, (fa - 1) as nat, (fb - 1) as nat);
        assert(renamed(nodes, level + a.levels(next, (fa - 1) as nat)) =~= rl + renamed(
            nodes,
            a.levels(next, (fa - 1) as nat),
        ));
    }
}

/// Reclaiming closed positions keeps every walk: each node moves to its new
/// position with its data and depth, and from the new position of every
/// node the depth-first, breadth-first and post-order walks visit the new
/// positions of the nodes they visited before, in the same order.
pub proof fn law_reclaim_keeps_walks<T, M1: MemoryPolicy, M2: MemoryPolicy>(a: &Tree<T, M1>, b: &Tree<T, M2>, x: int)
    requires
        a.wf(),
        b.wf(),
        b@ == a@.compact(),
        a@.active(x),
    ensures
        <Dfs as Traverser<T, M2>>::spec_order(b, rank(a@.nodes, x) as int) == renamed(
            a@.nodes,
            <Dfs as Traverser<T, M1>>::spec_order(a, x),
        ),
        <Bfs as Traverser<T, M2>>::spec_order(b, rank(a@.nodes, x) as int) == renamed(
            a@.nodes,
            <Bfs as Traverser<T, M1>>::spec_order(a, x),
        ),
        <PostOrder as Traverser<T, M2>>::spec_order(b, rank(a@.nodes, x) as int) == renamed(
            a@.nodes,
            <PostOrder as Traverser<T, M1>>::spec_order(a, x),
        ),
        forall|j: int|
            a@.active(j) ==> b@.active(#[trigger] rank(a@.nodes, j) as int) && b@.data(rank(a@.nodes, j) as int)
                == a@.data(j) && b.depth_of(rank(a@.nodes, j) as int) == a.depth_of(j),
{
    let nodes = a@.nodes;
    lemma_compact_pre_node(a, b, x);
    lemma_compact_post_node(a, b, x);
    lemma_compact_node(a@, x);
    lemma_compact_depth(a, b, x);
    let level = seq![x as usize];
    assert(a.level_ok(level, a.depth_of(x)));
    assert(renamed(nodes, level) =~= seq![rank(nodes, x) as usize]);
    lemma_compact_levels(a, b, level, a.depth_of(x), a@.n(), b@.n());
    assert forall|j: int| a@.active(j) implies b@.active(#[trigger] rank(a@.nodes, j) as int) && b@.data(
        rank(a@.nodes, j) as int,
    ) == a@.data(j) && b.depth_of(rank(a@.nodes, j) as int) == a.depth_of(j) by {
        lemma_compact_node(a@, j);
        lemma_compact_depth(a, b, j);
    }
}

/// The data of the nodes at the positions of `order`, in order.
pub open spec fn visited_data<T>(v: TreeView<T>, order: Seq<usize>) -> Seq<T> {
    order.map_values(|j: usize| v.data(j as int))
}

/// Renaming the positions of active nodes by a reclaim keeps the data they
/// hold.
proof fn lemma_renamed_data<T, M1, M2>(a: &Tree<T, M1>, b: &Tree<T, M2>, order: Seq<usize>)
    requires
        a.wf(),
        b.wf(),
        b@ == a@.compact(),
        forall|k: int| 0 <= k < order.len() ==> a@.active(#[trigger] order[k] as int),
    ensures
        visited_data(b@, renamed(a@.nodes, order)) == visited_data(a@, order),
{
    assert forall|k: int| 0 <= k < order.len() implies #[trigger] visited_data(b@, renamed(a@.nodes, order))[k]
        == visited_data(a@, order)[k] by {
        lemma_compact_node(a@, order[k] as int);
    }
    assert(visited_data(b@, renamed(a@.nodes, order)) =~= visited_data(a@, order));
}

/// Every node that a walk from an active node visits is active.
proof fn lemma_walk_active<T, M: MemoryPolicy, Tr: Traverser<T, M>>(a: &Tree<T, M>, x: int)
    requires
        a.wf(),
        a@.active(x),
    ensures
        forall|k: int|
            0 <= k < Tr::spec_order(a, x).len() ==> a@.active(#[trigger] Tr::spec_order(a, x)[k] as int),
{
    Tr::lemma_visits_subtree_once(a, x);
    a.lemma_pre_node_members(x);
    lemma_same_items_same_set(Tr::spec_order(a, x), a.pre_node(x));
    assert forall|k: int| 0 <= k < Tr::spec_order(a, x).len() implies a@.active(
        #[trigger] Tr::spec_order(a, x)[k] as int,
    ) by {
        let j = Tr::spec_order(a, x)[k];
        assert(Tr::spec_order(a, x).to_set().contains(j));
        assert(a.pre_node(x).to_set().contains(j));
        let y = a.pre_node(x).index_of(j);
        assert(a.pre_node(x)[y] == j);
    }
}

/// Moving a tree to another memory policy, with the reclaim that the new
/// policy may make at once, keeps every walk: from where a node stands
/// afterwards (its new position if closed positions were reclaimed), the
/// depth-first, breadth-first and post-order walks yield the same data as
/// from the node before.
pub proof fn law_policy_switch_keeps_walks<T, M1: MemoryPolicy, M2: MemoryPolicy>(
    a: &Tree<T, M1>,
    b: &Tree<T, M2>,
    x: int,
)
    requires
        a.wf(),
        b.wf(),
        b@ == after_removal::<T, M2>(a@),
        !policy_reclaims::<M2>(a@.n(), a@.num_nodes()) ==> forall|j: int| #[trigger] b.depth_of(j) == a.depth_of(j),
        a@.active(x),
    ensures
        ({
            let y = if policy_reclaims::<M2>(a@.n(), a@.num_nodes()) {
                rank(a@.nodes, x) as int
            } else {
                x
            };
            &&& b@.active(y)
            &&& visited_data(b@, <Dfs as Traverser<T, M2>>::spec_order(b, y)) == visited_data(
                a@,
                <Dfs as Traverser<T, M1>>::spec_order(a, x),
            )
            &&& visited_data(b@, <Bfs as Traverser<T, M2>>::spec_order(b, y)) == visited_data(
                a@,
                <Bfs as Traverser<T, M1>>::spec_order(a, x),
            )
            &&& visited_data(b@, <PostOrder as Traverser<T, M2>>::spec_order(b, y)) == visited_data(
                a@,
                <PostOrder as Traverser<T, M1>>::spec_order(a, x),
            )
        }),
{
    if policy_reclaims::<M2>(a@.n(), a@.num_nodes()) {
        law_reclaim_keeps_walks(a, b, x);
        lemma_walk_active::<T, M1, Dfs>(a, x);
        lemma_walk_active::<T, M1, Bfs>(a, x);
        lemma_walk_active::<T, M1, PostOrder>(a, x);
        lemma_renamed_data(a, b, <Dfs as Traverser<T, M1>>::spec_order(a, x));
        lemma_renamed_data(a, b, <Bfs as Traverser<T, M1>>::spec_order(a, x));
        lemma_renamed_data(a, b, <PostOrder as Traverser<T, M1>>::spec_order(a, x));
    } else {
        law_policy_change_keeps_walks(a, b, x);
    }
}

/// Moving a tree to another memory policy, with the reclaim that the new
/// policy may make at once, never lets an index point to another node: an
/// index that is valid afterwards points to the same data as before.
pub proof fn law_policy_switch_keeps_valid_indices<T, M1: MemoryPolicy, M2: MemoryPolicy>(
    a: &Tree<T, M1>,
    b: &Tree<T, M2>,
    idx: NodeIdx,
)
    requires
        a.wf(),
        b.wf(),
        b@ == after_removal::<T, M2>(a@),
        reclaim_moves::<T, M2>(a@) <==> b.memory_state() != a.memory_state(),
        a.valid_idx(idx),
        b.valid_idx(idx),
    ensures
        b@.data(idx.spec_pos() as int) == a@.data(idx.spec_pos() as int),
{
    let j = idx.spec_pos() as int;
    if policy_reclaims::<M2>(a@.n(), a@.num_nodes()) {
        assert(!a@.compact_moves());
        assert(rank(a@.nodes, j) == j);
        lemma_compact_node(a@, j);
    }
}

} // verus!
