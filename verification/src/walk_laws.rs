use vstd::prelude::*;

use crate::iter::{
    Enumerator, EnumeratorDepth, EnumeratorDepthSibling, EnumeratorNone, EnumeratorSibling, IterKind, IterOver,
    OverData, OverDepthData, OverDepthNode, OverDepthPtr, OverDepthSiblingData, OverDepthSiblingNode,
    OverDepthSiblingPtr, OverNode, OverPtr,
};
use crate::memory::MemoryPolicy;
use crate::node::Node;
use crate::node_idx::NodeIdx;
use crate::traversal::{lemma_same_items_same_set, Bfs, Dfs, PostOrder, Traverser};
use crate::tree::Tree;

verus! {

/// The positions that a walk of the traverser `Tr` from `start` yields
/// elements for: every visited node, or only the leaves.
pub open spec fn visited<T, M: MemoryPolicy, Tr: Traverser<T, M>>(tree: &Tree<T, M>, start: int, leaves: bool) -> Seq<
    usize,
> {
    if leaves {
        tree.leaves_of(Tr::spec_order(tree, start))
    } else {
        Tr::spec_order(tree, start)
    }
}

/// A node that a walk from `start` yields an element for is an active node
/// of the subtree of `start`, not deeper than the storage is long; unless it
/// is `start` itself it has a parent, whose children hold it at its sibling
/// index.
proof fn lemma_visited_member<T, M: MemoryPolicy, Tr: Traverser<T, M>>(tree: &Tree<T, M>, start: int, leaves: bool, k: int)
    requires
        tree.wf(),
        tree@.active(start),
        0 <= k < visited::<T, M, Tr>(tree, start, leaves).len(),
    ensures
        ({
            let j = visited::<T, M, Tr>(tree, start, leaves)[k] as int;
            &&& tree@.active(j)
            &&& tree.depth_of(start) <= tree.depth_of(j) < tree@.n()
            &&& j != start ==> {
                &&& tree@.parent(j) is Some
                &&& 0 <= tree@.sibling_index(j) < tree@.children(tree@.parent(j)->0 as int).len() <= tree@.n()
                &&& tree@.children(tree@.parent(j)->0 as int)[tree@.sibling_index(j)] == j as usize
            }
        }),
{
    let order = Tr::spec_order(tree, start);
    let vis = visited::<T, M, Tr>(tree, start, leaves);
    let j = vis[k];
    assert(vis.contains(j));
    if leaves {
        order.lemma_filter_contains_rev(|y: usize| tree@.children(y as int).len() == 0, j);
    }
    assert(order.contains(j));
    Tr::lemma_visits_subtree_once(tree, start);
    lemma_same_items_same_set(order, tree.pre_node(start));
    assert(order.to_set().contains(j));
    assert(tree.pre_node(start).to_set().contains(j));
    tree.lemma_pre_node_members(start);
    let x = tree.pre_node(start).index_of(j);
    assert(tree.pre_node(start)[x] == j);
    assert(tree.wf_slot(j as int));
    if j as int != start {
        let p = tree@.parent(j as int)->0 as int;
        assert(tree.wf_slot(p));
        let y = tree@.children(p).index_of(j);
        assert(tree@.children(p)[y] == j);
    }
}

/// Depth-first and breadth-first walks begin with the node they start
/// from, and post-order walks end with it.
pub proof fn law_walk_starts_at_node<T, M: MemoryPolicy>(tree: &Tree<T, M>, i: int)
    requires
        tree.wf(),
        tree@.active(i),
    ensures
        <Dfs as Traverser<T, M>>::spec_order(tree, i).len() >= 1,
        <Dfs as Traverser<T, M>>::spec_order(tree, i)[0] == i,
        <Bfs as Traverser<T, M>>::spec_order(tree, i).len() >= 1,
        <Bfs as Traverser<T, M>>::spec_order(tree, i)[0] == i,
        <PostOrder as Traverser<T, M>>::spec_order(tree, i).len() >= 1,
        <PostOrder as Traverser<T, M>>::spec_order(tree, i).last() == i,
{
    tree.lemma_pre_node_members(i);
    tree.lemma_post_node_active(i);
    assert(tree@.n() >= 1);
    let level = seq![i as usize];
    assert(tree.levels(level, tree@.n()) == level + tree.levels(tree.next_level(level), (tree@.n() - 1) as nat));
}

/// Each element that `walk_with` (or, with `leaves`, `leaves_with`) yields
/// over `OverData` holds, for the visited node, the data of the visited node.
pub proof fn law_walk_with_data<'a, T, M: MemoryPolicy, Tr: Traverser<T, M>>(
    tree: &'a Tree<T, M>,
    start: int,
    leaves: bool,
    r: Seq<&'a T>,
)
    requires
        tree.wf(),
        tree@.active(start),
        r.len() == visited::<T, M, Tr>(tree, start, leaves).len(),
        forall|x: int|
            0 <= x < r.len() ==> <<OverData as IterOver<'a, T, M>>::Kind as IterKind<'a, T, M>>::element_ok(
                tree,
                start,
                visited::<T, M, Tr>(tree, start, leaves)[x] as int,
                #[trigger] r[x],
            ),
    ensures
        forall|x: int|
            0 <= x < r.len() ==> {
                let j = visited::<T, M, Tr>(tree, start, leaves)[x] as int;
                &&& *(#[trigger] r[x]) == tree@.data(j)
            },
{
    assert forall|x: int| 0 <= x < r.len() implies {
        let j = visited::<T, M, Tr>(tree, start, leaves)[x] as int;
                &&& *(#[trigger] r[x]) == tree@.data(j)
    } by {
        lemma_visited_member::<T, M, Tr>(tree, start, leaves, x);
    }
}

/// Each element that `walk_with` (or, with `leaves`, `leaves_with`) yields
/// over `OverNode` holds, for the visited node, the node of the visited node.
pub proof fn law_walk_with_node<'a, T, M: MemoryPolicy, Tr: Traverser<T, M>>(
    tree: &'a Tree<T, M>,
    start: int,
    leaves: bool,
    r: Seq<Node<'a, T, M>>,
)
    requires
        tree.wf(),
        tree@.active(start),
        r.len() == visited::<T, M, Tr>(tree, start, leaves).len(),
        forall|x: int|
            0 <= x < r.len() ==> <<OverNode as IterOver<'a, T, M>>::Kind as IterKind<'a, T, M>>::element_ok(
                tree,
                start,
                visited::<T, M, Tr>(tree, start, leaves)[x] as int,
                #[trigger] r[x],
            ),
    ensures
        forall|x: int|
            0 <= x < r.len() ==> {
                let j = visited::<T, M, Tr>(tree, start, leaves)[x] as int;
                &&& (#[trigger] r[x]).spec_tree() == tree && r[x].spec_idx().spec_pos() == j && r[x].spec_idx().spec_state() == tree.memory_state()
            },
{
    assert forall|x: int| 0 <= x < r.len() implies {
        let j = visited::<T, M, Tr>(tree, start, leaves)[x] as int;
                &&& (#[trigger] r[x]).spec_tree() == tree && r[x].spec_idx().spec_pos() == j && r[x].spec_idx().spec_state() == tree.memory_state()
    } by {
        lemma_visited_member::<T, M, Tr>(tree, start, leaves, x);
    }
}

/// Each element that `walk_with` (or, with `leaves`, `leaves_with`) yields
/// over `OverPtr` holds, for the visited node, the index of the visited node.
pub proof fn law_walk_with_ptr<'a, T, M: MemoryPolicy, Tr: Traverser<T, M>>(
    tree: &'a Tree<T, M>,
    start: int,
    leaves: bool,
    r: Seq<NodeIdx>,
)
    requires
        tree.wf(),
        tree@.active(start),
        r.len() == visited::<T, M, Tr>(tree, start, leaves).len(),
        forall|x: int|
            0 <= x < r.len() ==> <<OverPtr as IterOver<'a, T, M>>::Kind as IterKind<'a, T, M>>::element_ok(
                tree,
                start,
                visited::<T, M, Tr>(tree, start, leaves)[x] as int,
                #[trigger] r[x],
            ),
    ensures
        forall|x: int|
            0 <= x < r.len() ==> {
                let j = visited::<T, M, Tr>(tree, start, leaves)[x] as int;
                &&& (#[trigger] r[x]).spec_pos() == j && r[x].spec_state() == tree.memory_state()
            },
{
    assert forall|x: int| 0 <= x < r.len() implies {
        let j = visited::<T, M, Tr>(tree, start, leaves)[x] as int;
                &&& (#[trigger] r[x]).spec_pos() == j && r[x].spec_state() == tree.memory_state()
    } by {
        lemma_visited_member::<T, M, Tr>(tree, start, leaves, x);
    }
}

/// Each element that `walk_with` (or, with `leaves`, `leaves_with`) yields
/// over `OverDepthData` holds, for the visited node, its depth below the node the walk starts from (zero for that node) and the data of the visited node.
pub proof fn law_walk_with_depth_data<'a, T, M: MemoryPolicy, Tr: Traverser<T, M>>(
    tree: &'a Tree<T, M>,
    start: int,
    leaves: bool,
    r: Seq<(usize, &'a T)>,
)
    requires
        tree.wf(),
        tree@.active(start),
        r.len() == visited::<T, M, Tr>(tree, start, leaves).len(),
        forall|x: int|
            0 <= x < r.len() ==> <<OverDepthData as IterOver<'a, T, M>>::Kind as IterKind<'a, T, M>>::element_ok(
                tree,
                start,
                visited::<T, M, Tr>(tree, start, leaves)[x] as int,
                #[trigger] r[x],
            ),
    ensures
        forall|x: int|
            0 <= x < r.len() ==> {
                let j = visited::<T, M, Tr>(tree, start, leaves)[x] as int;
                &&& (#[trigger] r[x]).0 + tree.depth_of(start) == tree.depth_of(j)
                &&& *r[x].1 == tree@.data(j)
            },
{
    assert forall|x: int| 0 <= x < r.len() implies {
        let j = visited::<T, M, Tr>(tree, start, leaves)[x] as int;
                &&& (#[trigger] r[x]).0 + tree.depth_of(start) == tree.depth_of(j)
                &&& *r[x].1 == tree@.data(j)
    } by {
        lemma_visited_member::<T, M, Tr>(tree, start, leaves, x);
    }
}

/// Each element that `walk_with` (or, with `leaves`, `leaves_with`) yields
/// over `OverDepthNode` holds, for the visited node, its depth below the node the walk starts from (zero for that node) and the node of the visited node.
pub proof fn law_walk_with_depth_node<'a, T, M: MemoryPolicy, Tr: Traverser<T, M>>(
    tree: &'a Tree<T, M>,
    start: int,
    leaves: bool,
    r: Seq<(usize, Node<'a, T, M>)>,
)
    requires
        tree.wf(),
        tree@.active(start),
        r.len() == visited::<T, M, Tr>(tree, start, leaves).len(),
        forall|x: int|
            0 <= x < r.len() ==> <<OverDepthNode as IterOver<'a, T, M>>::Kind as IterKind<'a, T, M>>::element_ok(
                tree,
                start,
                visited::<T, M, Tr>(tree, start, leaves)[x] as int,
                #[trigger] r[x],
            ),
    ensures
        forall|x: int|
            0 <= x < r.len() ==> {
                let j = visited::<T, M, Tr>(tree, start, leaves)[x] as int;
                &&& (#[trigger] r[x]).0 + tree.depth_of(start) == tree.depth_of(j)
                &&& r[x].1.spec_tree() == tree && r[x].1.spec_idx().spec_pos() == j && r[x].1.spec_idx().spec_state() == tree.memory_state()
            },
{
    assert forall|x: int| 0 <= x < r.len() implies {
        let j = visited::<T, M, Tr>(tree, start, leaves)[x] as int;
                &&& (#[trigger] r[x]).0 + tree.depth_of(start) == tree.depth_of(j)
                &&& r[x].1.spec_tree() == tree && r[x].1.spec_idx().spec_pos() == j && r[x].1.spec_idx().spec_state() == tree.memory_state()
    } by {
        lemma_visited_member::<T, M, Tr>(tree, start, leaves, x);
    }
}

/// Each element that `walk_with` (or, with `leaves`, `leaves_with`) yields
/// over `OverDepthPtr` holds, for the visited node, its depth below the node the walk starts from (zero for that node) and the index of the visited node.
pub proof fn law_walk_with_depth_ptr<'a, T, M: MemoryPolicy, Tr: Traverser<T, M>>(
    tree: &'a Tree<T, M>,
    start: int,
    leaves: bool,
    r: Seq<(usize, NodeIdx)>,
)
    requires
        tree.wf(),
        tree@.active(start),
        r.len() == visited::<T, M, Tr>(tree, start, leaves).len(),
        forall|x: int|
            0 <= x < r.len() ==> <<OverDepthPtr as IterOver<'a, T, M>>::Kind as IterKind<'a, T, M>>::element_ok(
                tree,
                start,
                visited::<T, M, Tr>(tree, start, leaves)[x] as int,
                #[trigger] r[x],
            ),
    ensures
        forall|x: int|
            0 <= x < r.len() ==> {
                let j = visited::<T, M, Tr>(tree, start, leaves)[x] as int;
                &&& (#[trigger] r[x]).0 + tree.depth_of(start) == tree.depth_of(j)
                &&& r[x].1.spec_pos() == j && r[x].1.spec_state() == tree.memory_state()
            },
{
    assert forall|x: int| 0 <= x < r.len() implies {
        let j = visited::<T, M, Tr>(tree, start, leaves)[x] as int;
                &&& (#[trigger] r[x]).0 + tree.depth_of(start) == tree.depth_of(j)
                &&& r[x].1.spec_pos() == j && r[x].1.spec_state() == tree.memory_state()
    } by {
        lemma_visited_member::<T, M, Tr>(tree, start, leaves, x);
    }
}

/// Each element that `walk_with` (or, with `leaves`, `leaves_with`) yields
/// over `OverDepthSiblingData` holds, for the visited node, its depth below the node the walk starts from and its position among its parent's children (both zero for that node), and the data of the visited node.
pub proof fn law_walk_with_depth_sibling_data<'a, T, M: MemoryPolicy, Tr: Traverser<T, M>>(
    tree: &'a Tree<T, M>,
    start: int,
    leaves: bool,
    r: Seq<(usize, usize, &'a T)>,
)
    requires
        tree.wf(),
        tree@.active(start),
        r.len() == visited::<T, M, Tr>(tree, start, leaves).len(),
        forall|x: int|
            0 <= x < r.len() ==> <<OverDepthSiblingData as IterOver<'a, T, M>>::Kind as IterKind<'a, T, M>>::element_ok(
                tree,
                start,
                visited::<T, M, Tr>(tree, start, leaves)[x] as int,
                #[trigger] r[x],
            ),
    ensures
        forall|x: int|
            0 <= x < r.len() ==> {
                let j = visited::<T, M, Tr>(tree, start, leaves)[x] as int;
                &&& (#[trigger] r[x]).0 + tree.depth_of(start) == tree.depth_of(j)
                &&& (j == start ==> r[x].1 == 0)
                &&& (j != start ==> tree@.children(tree@.parent(j)->0 as int)[r[x].1 as int] == j as usize)
                &&& *r[x].2 == tree@.data(j)
            },
{
    assert forall|x: int| 0 <= x < r.len() implies {
        let j = visited::<T, M, Tr>(tree, start, leaves)[x] as int;
                &&& (#[trigger] r[x]).0 + tree.depth_of(start) == tree.depth_of(j)
                &&& (j == start ==> r[x].1 == 0)
                &&& (j != start ==> tree@.children(tree@.parent(j)->0 as int)[r[x].1 as int] == j as usize)
                &&& *r[x].2 == tree@.data(j)
    } by {
        lemma_visited_member::<T, M, Tr>(tree, start, leaves, x);
    }
}

/// Each element that `walk_with` (or, with `leaves`, `leaves_with`) yields
/// over `OverDepthSiblingNode` holds, for the visited node, its depth below the node the walk starts from and its position among its parent's children (both zero for that node), and the node of the visited node.
pub proof fn law_walk_with_depth_sibling_node<'a, T, M: MemoryPolicy, Tr: Traverser<T, M>>(
    tree: &'a Tree<T, M>,
    start: int,
    leaves: bool,
    r: Seq<(usize, usize, Node<'a, T, M>)>,
)
    requires
        tree.wf(),
        tree@.active(start),
        r.len() == visited::<T, M, Tr>(tree, start, leaves).len(),
        forall|x: int|
            0 <= x < r.len() ==> <<OverDepthSiblingNode as IterOver<'a, T, M>>::Kind as IterKind<'a, T, M>>::element_ok(
                tree,
                start,
                visited::<T, M, Tr>(tree, start, leaves)[x] as int,
                #[trigger] r[x],
            ),
    ensures
        forall|x: int|
            0 <= x < r.len() ==> {
                let j = visited::<T, M, Tr>(tree, start, leaves)[x] as int;
                &&& (#[trigger] r[x]).0 + tree.depth_of(start) == tree.depth_of(j)
                &&& (j == start ==> r[x].1 == 0)
                &&& (j != start ==> tree@.children(tree@.parent(j)->0 as int)[r[x].1 as int] == j as usize)
                &&& r[x].2.spec_tree() == tree && r[x].2.spec_idx().spec_pos() == j && r[x].2.spec_idx().spec_state() == tree.memory_state()
            },
{
    assert forall|x: int| 0 <= x < r.len() implies {
        let j = visited::<T, M, Tr>(tree, start, leaves)[x] as int;
                &&& (#[trigger] r[x]).0 + tree.depth_of(start) == tree.depth_of(j)
                &&& (j == start ==> r[x].1 == 0)
                &&& (j != start ==> tree@.children(tree@.parent(j)->0 as int)[r[x].1 as int] == j as usize)
                &&& r[x].2.spec_tree() == tree && r[x].2.spec_idx().spec_pos() == j && r[x].2.spec_idx().spec_state() == tree.memory_state()
    } by {
        lemma_visited_member::<T, M, Tr>(tree, start, leaves, x);
    }
}

/// Each element that `walk_with` (or, with `leaves`, `leaves_with`) yields
/// over `OverDepthSiblingPtr` holds, for the visited node, its depth below the node the walk starts from and its position among its parent's children (both zero for that node), and the index of the visited node.
pub proof fn law_walk_with_depth_sibling_ptr<'a, T, M: MemoryPolicy, Tr: Traverser<T, M>>(
    tree: &'a Tree<T, M>,
    start: int,
    leaves: bool,
    r: Seq<(usize, usize, NodeIdx)>,
)
    requires
        tree.wf(),
        tree@.active(start),
        r.len() == visited::<T, M, Tr>(tree, start, leaves).len(),
        forall|x: int|
            0 <= x < r.len() ==> <<OverDepthSiblingPtr as IterOver<'a, T, M>>::Kind as IterKind<'a, T, M>>::element_ok(
                tree,
                start,
                visited::<T, M, Tr>(tree, start, leaves)[x] as int,
                #[trigger] r[x],
            ),
    ensures
        forall|x: int|
            0 <= x < r.len() ==> {
                let j = visited::<T, M, Tr>(tree, start, leaves)[x] as int;
                &&& (#[trigger] r[x]).0 + tree.depth_of(start) == tree.depth_of(j)
                &&& (j == start ==> r[x].1 == 0)
                &&& (j != start ==> tree@.children(tree@.parent(j)->0 as int)[r[x].1 as int] == j as usize)
                &&& r[x].2.spec_pos() == j && r[x].2.spec_state() == tree.memory_state()
            },
{
    assert forall|x: int| 0 <= x < r.len() implies {
        let j = visited::<T, M, Tr>(tree, start, leaves)[x] as int;
                &&& (#[trigger] r[x]).0 + tree.depth_of(start) == tree.depth_of(j)
                &&& (j == start ==> r[x].1 == 0)
                &&& (j != start ==> tree@.children(tree@.parent(j)->0 as int)[r[x].1 as int] == j as usize)
                &&& r[x].2.spec_pos() == j && r[x].2.spec_state() == tree.memory_state()
    } by {
        lemma_visited_member::<T, M, Tr>(tree, start, leaves, x);
    }
}

/// Each output that `indices_with` yields with `EnumeratorNone` holds, for
/// the visited node, the index of the visited node.
pub proof fn law_indices_with_none<T, M: MemoryPolicy, Tr: Traverser<T, M>>(
    tree: &Tree<T, M>,
    start: int,
    r: Seq<NodeIdx>,
)
    requires
        tree.wf(),
        tree@.active(start),
        r.len() == Tr::spec_order(tree, start).len(),
        forall|x: int|
            0 <= x < r.len() ==> {
                let j = Tr::spec_order(tree, start)[x] as int;
                <EnumeratorNone as Enumerator>::output_ok(
                    NodeIdx::spec_new(j as usize, tree.memory_state()),
                    (tree.depth_of(j) - tree.depth_of(start)) as usize,
                    (if j == start { 0 } else { tree@.sibling_index(j) }) as usize,
                    #[trigger] r[x],
                )
            },
    ensures
        forall|x: int|
            0 <= x < r.len() ==> {
                let j = Tr::spec_order(tree, start)[x] as int;
                &&& (#[trigger] r[x]).spec_pos() == j && r[x].spec_state() == tree.memory_state()
            },
{
    assert forall|x: int| 0 <= x < r.len() implies {
        let j = Tr::spec_order(tree, start)[x] as int;
                &&& (#[trigger] r[x]).spec_pos() == j && r[x].spec_state() == tree.memory_state()
    } by {
        lemma_visited_member::<T, M, Tr>(tree, start, false, x);
    }
}

/// Each output that `indices_with` yields with `EnumeratorDepth` holds, for
/// the visited node, its depth below the node the walk starts from (zero for that node) and the index of the visited node.
pub proof fn law_indices_with_depth<T, M: MemoryPolicy, Tr: Traverser<T, M>>(
    tree: &Tree<T, M>,
    start: int,
    r: Seq<(usize, NodeIdx)>,
)
    requires
        tree.wf(),
        tree@.active(start),
        r.len() == Tr::spec_order(tree, start).len(),
        forall|x: int|
            0 <= x < r.len() ==> {
                let j = Tr::spec_order(tree, start)[x] as int;
                <EnumeratorDepth as Enumerator>::output_ok(
                    NodeIdx::spec_new(j as usize, tree.memory_state()),
                    (tree.depth_of(j) - tree.depth_of(start)) as usize,
                    (if j == start { 0 } else { tree@.sibling_index(j) }) as usize,
                    #[trigger] r[x],
                )
            },
    ensures
        forall|x: int|
            0 <= x < r.len() ==> {
                let j = Tr::spec_order(tree, start)[x] as int;
                &&& (#[trigger] r[x]).0 + tree.depth_of(start) == tree.depth_of(j)
                &&& r[x].1.spec_pos() == j && r[x].1.spec_state() == tree.memory_state()
            },
{
    assert forall|x: int| 0 <= x < r.len() implies {
        let j = Tr::spec_order(tree, start)[x] as int;
                &&& (#[trigger] r[x]).0 + tree.depth_of(start) == tree.depth_of(j)
                &&& r[x].1.spec_pos() == j && r[x].1.spec_state() == tree.memory_state()
    } by {
        lemma_visited_member::<T, M, Tr>(tree, start, false, x);
    }
}

/// Each output that `indices_with` yields with `EnumeratorSibling` holds, for
/// the visited node, its position among its parent's children (zero for the node the walk starts from) and the index of the visited node.
pub proof fn law_indices_with_sibling<T, M: MemoryPolicy, Tr: Traverser<T, M>>(
    tree: &Tree<T, M>,
    start: int,
    r: Seq<(usize, NodeIdx)>,
)
    requires
        tree.wf(),
        tree@.active(start),
        r.len() == Tr::spec_order(tree, start).len(),
        forall|x: int|
            0 <= x < r.len() ==> {
                let j = Tr::spec_order(tree, start)[x] as int;
                <EnumeratorSibling as Enumerator>::output_ok(
                    NodeIdx::spec_new(j as usize, tree.memory_state()),
                    (tree.depth_of(j) - tree.depth_of(start)) as usize,
                    (if j == start { 0 } else { tree@.sibling_index(j) }) as usize,
                    #[trigger] r[x],
                )
            },
    ensures
        forall|x: int|
            0 <= x < r.len() ==> {
                let j = Tr::spec_order(tree, start)[x] as int;
                &&& (j == start ==> (#[trigger] r[x]).0 == 0)
                &&& (j != start ==> tree@.children(tree@.parent(j)->0 as int)[r[x].0 as int] == j as usize)
                &&& r[x].1.spec_pos() == j && r[x].1.spec_state() == tree.memory_state()
            },
{
    assert forall|x: int| 0 <= x < r.len() implies {
        let j = Tr::spec_order(tree, start)[x] as int;
                &&& (j == start ==> (#[trigger] r[x]).0 == 0)
                &&& (j != start ==> tree@.children(tree@.parent(j)->0 as int)[r[x].0 as int] == j as usize)
                &&& r[x].1.spec_pos() == j && r[x].1.spec_state() == tree.memory_state()
    } by {
        lemma_visited_member::<T, M, Tr>(tree, start, false, x);
    }
}

/// Each output that `indices_with` yields with `EnumeratorDepthSibling` holds, for
/// the visited node, its depth below the node the walk starts from and its position among its parent's children (both zero for that node), and the index of the visited node.
pub proof fn law_indices_with_depth_sibling<T, M: MemoryPolicy, Tr: Traverser<T, M>>(
    tree: &Tree<T, M>,
    start: int,
    r: Seq<(usize, usize, NodeIdx)>,
)
    requires
        tree.wf(),
        tree@.active(start),
        r.len() == Tr::spec_order(tree, start).len(),
        forall|x: int|
            0 <= x < r.len() ==> {
                let j = Tr::spec_order(tree, start)[x] as int;
                <EnumeratorDepthSibling as Enumerator>::output_ok(
                    NodeIdx::spec_new(j as usize, tree.memory_state()),
                    (tree.depth_of(j) - tree.depth_of(start)) as usize,
                    (if j == start { 0 } else { tree@.sibling_index(j) }) as usize,
                    #[trigger] r[x],
                )
            },
    ensures
        forall|x: int|
            0 <= x < r.len() ==> {
                let j = Tr::spec_order(tree, start)[x] as int;
                &&& (#[trigger] r[x]).0 + tree.depth_of(start) == tree.depth_of(j)
                &&& (j == start ==> r[x].1 == 0)
                &&& (j != start ==> tree@.children(tree@.parent(j)->0 as int)[r[x].1 as int] == j as usize)
                &&& r[x].2.spec_pos() == j && r[x].2.spec_state() == tree.memory_state()
            },
{
    assert forall|x: int| 0 <= x < r.len() implies {
        let j = Tr::spec_order(tree, start)[x] as int;
                &&& (#[trigger] r[x]).0 + tree.depth_of(start) == tree.depth_of(j)
                &&& (j == start ==> r[x].1 == 0)
                &&& (j != start ==> tree@.children(tree@.parent(j)->0 as int)[r[x].1 as int] == j as usize)
                &&& r[x].2.spec_pos() == j && r[x].2.spec_state() == tree.memory_state()
    } by {
        lemma_visited_member::<T, M, Tr>(tree, start, false, x);
    }
}

/// The leaves that a walk yields are exactly the nodes of the subtree of
/// the start that have no children, each of them met by the walk.
pub proof fn law_leaves_are_the_childless_nodes<T, M: MemoryPolicy, Tr: Traverser<T, M>>(tree: &Tree<T, M>, i: int)
    requires
        tree.wf(),
        tree@.active(i),
    ensures
        forall|x: int|
            0 <= x < tree.leaves_of(Tr::spec_order(tree, i)).len() ==> {
                let j = #[trigger] tree.leaves_of(Tr::spec_order(tree, i))[x] as int;
                &&& tree@.children(j).len() == 0
                &&& tree.in_subtree(j, i)
            },
        forall|j: int|
            0 <= j < tree@.n() && tree.in_subtree(j, i) && tree@.children(j).len() == 0 ==> tree.leaves_of(
                Tr::spec_order(tree, i),
            ).contains(j as usize),
{
    let order = Tr::spec_order(tree, i);
    let pred = |y: usize| tree@.children(y as int).len() == 0;
    let lv = tree.leaves_of(order);
    Tr::lemma_visits_subtree_once(tree, i);
    lemma_same_items_same_set(order, tree.pre_node(i));
    assert forall|x: int| 0 <= x < lv.len() implies {
        let j = #[trigger] lv[x] as int;
        &&& tree@.children(j).len() == 0
        &&& tree.in_subtree(j, i)
    } by {
        order.lemma_filter_pred(pred, x);
        assert(lv.contains(lv[x]));
        order.lemma_filter_contains_rev(pred, lv[x]);
        assert(order.to_set().contains(lv[x]));
        assert(tree.pre_node(i).to_set().contains(lv[x]));
    }
    assert forall|j: int| 0 <= j < tree@.n() && tree.in_subtree(j, i) && tree@.children(j).len() == 0 implies lv.contains(
        j as usize,
    ) by {
        assert(tree.pre_node(i).to_set().contains(j as usize));
        assert(order.to_set().contains(j as usize));
        let t = order.index_of(j as usize);
        assert(order[t] == j as usize);
        order.lemma_filter_contains(pred, t);
    }
}

} // verus!
