use orx_tree::{
    Bfs, Dfs, EnumeratorDepth, EnumeratorDepthSibling, EnumeratorNone, EnumeratorSibling, Lazy,
    NodeIdx, OverDepthPtr, OverDepthSiblingData, OverPtr, PostOrder, Side, Tree,
};

fn dfs_with_depth<M: orx_tree::MemoryPolicy>(tree: &Tree<i32, M>, idx: &NodeIdx) -> Vec<(usize, i32)> {
    tree.walk_with_depth::<Dfs>(idx).into_iter().map(|(d, x)| (d, *x)).collect()
}

//      1
//     ╱ ╲
//    2   3
//   ╱ ╲   ╲
//  4   5   6
fn small() -> (Tree<i32>, Vec<NodeIdx>) {
    let mut tree: Tree<i32> = Tree::new(1);
    let root = tree.root_idx().unwrap();
    let c = tree.push_children(&root, vec![2, 3]);
    let c2 = tree.push_children(&c[0], vec![4, 5]);
    let n6 = tree.push_child(&c[1], 6);
    (tree, vec![root, c[0], c[1], c2[0], c2[1], n6])
}

#[test]
fn append_valid_sequence_as_child() {
    let (mut tree, ids) = small();
    let seq = vec![(0, 10), (1, 11), (2, 12), (1, 13)];
    let r = tree.try_append_subtree_as_child(&ids[2], seq, 0);
    let new = r.unwrap();
    assert_eq!(*tree.data(&new), 10);
    assert_eq!(tree.child(&ids[2], 0), Some(new));
    assert_eq!(dfs_with_depth(&tree, &new), [(0, 10), (1, 11), (2, 12), (1, 13)]);
    let bfs: Vec<i32> = tree.walk::<Bfs>(&ids[0]).into_iter().copied().collect();
    assert_eq!(bfs, [1, 2, 3, 4, 5, 10, 6, 11, 13, 12]);
}

#[test]
fn append_sequence_with_jump_fails_after_prefix() {
    let (mut tree, ids) = small();
    let seq = vec![(0, 10), (1, 11), (3, 12), (1, 13)];
    let r = tree.try_append_subtree_as_child(&ids[5], seq, 0);
    assert_eq!(r, Err((1, 3)));
    // the items before the jump stay appended
    let below6: Vec<i32> = tree.walk::<Dfs>(&ids[5]).into_iter().copied().collect();
    assert_eq!(below6, [6, 10, 11]);
    assert_eq!(tree.len(), 8);
}

#[test]
fn push_tree_as_child_and_sibling() {
    let (mut tree, ids) = small();
    let mut other: Tree<i32> = Tree::new(7);
    let oroot = other.root_idx().unwrap();
    let oc = other.push_children(&oroot, vec![8, 9]);
    other.push_child(&oc[1], 10);
    let other_dfs = dfs_with_depth(&other, &oroot);

    let id7 = tree.push_child_tree(&ids[1], other);
    assert_eq!(tree.parent(&id7), Some(ids[1]));
    assert_eq!(tree.sibling_idx(&id7), 2);
    assert_eq!(dfs_with_depth(&tree, &id7), other_dfs);

    let single: Tree<i32> = Tree::new(20);
    let id20 = tree.push_sibling_tree(&ids[2], Side::Left, single);
    assert_eq!(tree.sibling_idx(&id20), 1);
    assert_eq!(tree.sibling_idx(&ids[2]), 2);
    let bfs: Vec<i32> = tree.walk::<Bfs>(&ids[0]).into_iter().copied().collect();
    assert_eq!(bfs, [1, 2, 20, 3, 4, 5, 7, 6, 8, 9, 10]);
}

#[test]
fn moved_subtree_between_trees() {
    let (tree, ids) = small();
    let mut a: Tree<i32, Lazy> = tree.into_lazy_reclaim();
    let moved = a.into_subtree(&ids[1]);
    assert_eq!(moved.len(), 3);
    let root_a = a.root_idx().unwrap();
    let bfs_a: Vec<i32> = a.walk::<Bfs>(&root_a).into_iter().copied().collect();
    assert_eq!(bfs_a, [1, 3, 6]);

    let mut b: Tree<i32> = Tree::new(100);
    let root_b = b.root_idx().unwrap();
    let id2 = b.push_child_tree(&root_b, moved);
    assert_eq!(dfs_with_depth(&b, &id2), [(0, 2), (1, 4), (1, 5)]);
}

#[test]
fn into_walk_in_each_order() {
    let (tree, ids) = small();
    let mut t1: Tree<i32, Lazy> = tree.into_lazy_reclaim();
    let dfs = t1.into_walk::<Dfs>(&ids[0]);
    assert_eq!(dfs, [1, 2, 4, 5, 3, 6]);
    assert!(t1.is_empty());

    let (tree, ids) = small();
    let mut t2: Tree<i32, Lazy> = tree.into_lazy_reclaim();
    let post = t2.into_walk::<PostOrder>(&ids[1]);
    assert_eq!(post, [4, 5, 2]);
    let root = t2.root_idx().unwrap();
    let rest: Vec<i32> = t2.walk::<Bfs>(&root).into_iter().copied().collect();
    assert_eq!(rest, [1, 3, 6]);
}

#[test]
fn into_leaves_removes_subtree() {
    let (mut tree, ids) = small();
    let leaves = tree.into_leaves::<Bfs>(&ids[0]);
    assert_eq!(leaves, [4, 5, 6]);
    assert_eq!(tree.len(), 0);
    assert_eq!(tree.root_idx(), None);
}

#[test]
fn walks_with_iteration_kinds() {
    let (tree, ids) = small();
    let with_sibling: Vec<(usize, usize, i32)> = tree
        .walk_with::<Bfs, OverDepthSiblingData>(&ids[0])
        .into_iter()
        .map(|(d, s, x)| (d, s, *x))
        .collect();
    assert_eq!(with_sibling, [(0, 0, 1), (1, 0, 2), (1, 1, 3), (2, 0, 4), (2, 1, 5), (2, 0, 6)]);

    let ptrs = tree.walk_with::<Dfs, OverPtr>(&ids[1]);
    assert_eq!(ptrs, [ids[1], ids[3], ids[4]]);

    let depth_ptrs = tree.walk_with::<PostOrder, OverDepthPtr>(&ids[1]);
    assert_eq!(depth_ptrs, [(1, ids[3]), (1, ids[4]), (0, ids[1])]);

    let none = tree.indices_with::<Dfs, EnumeratorNone>(&ids[2]);
    assert_eq!(none, [ids[2], ids[5]]);
    let depth = tree.indices_with::<Dfs, EnumeratorDepth>(&ids[2]);
    assert_eq!(depth, [(0, ids[2]), (1, ids[5])]);
    let sibling = tree.indices_with::<Bfs, EnumeratorSibling>(&ids[1]);
    assert_eq!(sibling, [(0, ids[1]), (0, ids[3]), (1, ids[4])]);
    let both = tree.indices_with::<Bfs, EnumeratorDepthSibling>(&ids[1]);
    assert_eq!(both, [(0, 0, ids[1]), (1, 0, ids[3]), (1, 1, ids[4])]);
}

#[test]
fn swapping_data_twice_restores() {
    let (mut tree, ids) = small();
    tree.swap_data_with(&ids[3], &ids[5]);
    assert_eq!(*tree.data(&ids[3]), 6);
    assert_eq!(*tree.data(&ids[5]), 4);
    tree.swap_data_with(&ids[3], &ids[5]);
    let bfs: Vec<i32> = tree.walk::<Bfs>(&ids[0]).into_iter().copied().collect();
    assert_eq!(bfs, [1, 2, 3, 4, 5, 6]);
    assert!(tree.swap_data_with_parent(&ids[5]));
    assert_eq!(*tree.data(&ids[2]), 6);
    assert!(!tree.swap_data_with_parent(&ids[0]));
}

#[test]
fn lazy_prune_keeps_other_indices() {
    let (tree, ids) = small();
    let mut tree: Tree<i32, Lazy> = tree.into_lazy_reclaim();
    tree.prune(&ids[1]);
    assert!(!tree.is_node_idx_valid(&ids[1]));
    assert!(!tree.is_node_idx_valid(&ids[3]));
    assert!(!tree.is_node_idx_valid(&ids[4]));
    assert!(tree.is_node_idx_valid(&ids[0]));
    assert!(tree.is_node_idx_valid(&ids[2]));
    assert!(tree.is_node_idx_valid(&ids[5]));
}

#[test]
fn growth_keeps_indices() {
    let (mut tree, ids) = small();
    tree.push_parent(&ids[3], 40);
    tree.push_siblings(&ids[4], Side::Right, vec![50, 51]);
    tree.push_child(&ids[5], 60);
    for (k, v) in [1, 2, 3, 4, 5, 6].iter().enumerate() {
        assert_eq!(*tree.data(&ids[k]), *v);
    }
    let dfs: Vec<i32> = tree.walk::<Dfs>(&ids[0]).into_iter().copied().collect();
    assert_eq!(dfs, [1, 2, 40, 4, 5, 50, 51, 3, 6, 60]);
}

#[test]
fn take_out_root_promotes_first_child() {
    let mut tree: Tree<i32> = Tree::new(1);
    let root = tree.root_idx().unwrap();
    tree.push_child(&root, 2);
    let one = tree.take_out(&root);
    assert_eq!(one, 1);
    let new_root = tree.root_idx().unwrap();
    assert_eq!(*tree.data(&new_root), 2);
}

#[test]
fn take_out_childless_root_empties_tree() {
    let mut tree: Tree<i32> = Tree::new(1);
    let root = tree.root_idx().unwrap();
    assert_eq!(tree.take_out(&root), 1);
    assert!(tree.is_empty());
    assert!(tree.root_idx().is_none());
}

#[test]
fn recursive_set_sums_subtrees() {
    let (mut tree, ids) = small();
    tree.recursive_set(&ids[0], |x: &i32, children: &[&i32]| {
        *x + children.iter().map(|c| **c).sum::<i32>()
    });
    let bfs: Vec<i32> = tree.walk::<Bfs>(&ids[0]).into_iter().copied().collect();
    assert_eq!(bfs, [21, 11, 9, 4, 5, 6]);
}

#[test]
fn recursive_set_on_a_subtree_leaves_the_rest() {
    let (mut tree, ids) = small();
    tree.recursive_set(&ids[1], |x: &i32, children: &[&i32]| {
        if children.is_empty() {
            *x * 10
        } else {
            children.iter().map(|c| **c).max().unwrap() + 1
        }
    });
    let bfs: Vec<i32> = tree.walk::<Bfs>(&ids[0]).into_iter().copied().collect();
    assert_eq!(bfs, [1, 51, 3, 40, 50, 6]);
}

#[test]
fn walk_mut_maps_every_node_of_the_subtree() {
    let (mut tree, ids) = small();
    tree.walk_mut::<PostOrder, _>(&ids[1], |_k: usize, _d: usize, x: &i32| *x * 100);
    let bfs: Vec<i32> = tree.walk::<Bfs>(&ids[0]).into_iter().copied().collect();
    assert_eq!(bfs, [1, 200, 3, 400, 500, 6]);
}

#[test]
fn take_out_moves_children_up_in_place() {
    let mut tree: Tree<i32> = Tree::new(0);
    let root = tree.root_idx().unwrap();
    let c = tree.push_children(&root, vec![1, 2, 3]);
    tree.push_children(&c[1], vec![20, 21]);
    let before = tree.len();
    assert_eq!(tree.take_out(&c[1]), 2);
    assert_eq!(tree.len() + 1, before);
    let root = tree.root_idx().unwrap();
    assert_eq!(tree.num_children(&root), 4);
    let dfs: Vec<i32> = tree.walk::<Dfs>(&root).into_iter().copied().collect();
    assert_eq!(dfs, [0, 1, 20, 21, 3]);
}

#[test]
fn moved_subtree_leaves_the_source_smaller() {
    let mut other_tree: Tree<i32> = Tree::new(100);
    let other_root = other_tree.root_idx().unwrap();
    let id7 = other_tree.push_child(&other_root, 7);
    other_tree.push_children(&id7, vec![10, 11]);
    let subtree = other_tree.into_subtree(&id7);
    let mut tree: Tree<i32> = Tree::new(3);
    let root = tree.root_idx().unwrap();
    tree.push_child_tree(&root, subtree);
    assert_eq!(other_tree.len(), 1);
    let bfs: Vec<i32> = tree.walk::<Bfs>(&root).into_iter().copied().collect();
    assert_eq!(bfs, [3, 7, 10, 11]);
}

#[test]
fn cloned_subtree_within_the_same_tree() {
    let (mut tree, ids) = small();
    let copy = tree.as_cloned_subtree(&ids[2]);
    assert_eq!(copy.len(), 2);
    tree.push_child_tree(&ids[2], copy);
    let dfs: Vec<i32> = tree.walk::<Dfs>(&ids[0]).into_iter().copied().collect();
    assert_eq!(dfs, [1, 2, 4, 5, 3, 6, 3, 6]);
}

#[test]
fn leaves_mut_maps_only_leaves() {
    let (mut tree, ids) = small();
    tree.leaves_mut::<Dfs, _>(&ids[0], |_k: usize, _d: usize, x: &i32| -*x);
    let bfs: Vec<i32> = tree.walk::<Bfs>(&ids[0]).into_iter().copied().collect();
    assert_eq!(bfs, [1, 2, 3, -4, -5, -6]);
}

#[test]
fn walk_mut_sees_visit_position_and_depth() {
    let (mut tree, ids) = small();
    tree.walk_mut::<PostOrder, _>(&ids[1], |k: usize, d: usize, x: &i32| *x + 10 * k as i32 + 1000 * d as i32);
    let bfs: Vec<i32> = tree.walk::<Bfs>(&ids[0]).into_iter().copied().collect();
    assert_eq!(bfs, [1, 22, 3, 1004, 1015, 6]);
}

//      1
//     ╱ ╲
//    2   3
//   ╱ ╲  ╱ ╲
//  4  5 6   7
//  |    |  ╱ ╲
//  8    9 10  11
#[test]
fn leaves_mut_with_leaf_positions() {
    let mut tree: Tree<i32> = Tree::new(1);
    let root = tree.root_idx().unwrap();
    let c = tree.push_children(&root, vec![2, 3]);
    let c2 = tree.push_children(&c[0], vec![4, 5]);
    tree.push_child(&c2[0], 8);
    let c3 = tree.push_children(&c[1], vec![6, 7]);
    tree.push_child(&c3[0], 9);
    tree.push_children(&c3[1], vec![10, 11]);

    tree.leaves_mut::<Bfs, _>(&root, |l: usize, _d: usize, x: &i32| *x + 100 * l as i32);
    let leaves: Vec<i32> = tree.leaves::<Bfs>(&root).into_iter().copied().collect();
    assert_eq!(leaves, [5, 108, 209, 310, 411]);

    tree.leaves_mut::<PostOrder, _>(&c[1], |l: usize, _d: usize, x: &i32| *x - 100 * l as i32);
    let leaves: Vec<i32> = tree.leaves::<PostOrder>(&c[1]).into_iter().copied().collect();
    assert_eq!(leaves, [209, 210, 211]);

    let bfs: Vec<i32> = tree.walk::<Bfs>(&root).into_iter().copied().collect();
    assert_eq!(bfs, [1, 2, 3, 4, 5, 6, 7, 108, 209, 210, 211]);
}

#[test]
fn appending_a_depth_first_walk_copies_the_subtree() {
    let (source, ids) = small();
    let seq: Vec<(usize, i32)> = source.walk_with_depth::<Dfs>(&ids[1]).into_iter().map(|(d, x)| (d, *x)).collect();
    let mut tree: Tree<i32> = Tree::new(100);
    let root = tree.root_idx().unwrap();
    tree.push_child(&root, 101);
    let new = tree.try_append_subtree_as_child(&root, seq.clone(), 0).unwrap();
    assert_eq!(dfs_with_depth(&tree, &new), seq);
    assert_eq!(tree.child(&root, 0), Some(new));
}

#[test]
fn post_order_puts_descendants_first_and_siblings_in_order() {
    let (tree, ids) = small();
    let post: Vec<i32> = tree.walk::<PostOrder>(&ids[0]).into_iter().copied().collect();
    assert_eq!(post, [4, 5, 2, 6, 3, 1]);
}

//      1
//     ╱ ╲
//    2   3
//   ╱ ╲  ╱ ╲
//  4  5 6   7
//  |    |  ╱ ╲
//  8    9 10  11
#[test]
fn into_walk_with_yields_depth_and_sibling_index() {
    let mut tree: Tree<i32> = Tree::new(1);
    let root = tree.root_idx().unwrap();
    let c = tree.push_children(&root, vec![2, 3]);
    let c2 = tree.push_children(&c[0], vec![4, 5]);
    tree.push_child(&c2[0], 8);
    let c3 = tree.push_children(&c[1], vec![6, 7]);
    tree.push_child(&c3[0], 9);
    tree.push_children(&c3[1], vec![10, 11]);

    let removed = tree.into_walk_with::<Dfs>(&c[1]);
    assert_eq!(removed, [(0, 0, 3), (1, 0, 6), (2, 0, 9), (1, 1, 7), (2, 0, 10), (2, 1, 11)]);
    let remaining: Vec<i32> = tree.walk::<Dfs>(&root).into_iter().copied().collect();
    assert_eq!(remaining, [1, 2, 4, 8, 5]);
}

#[test]
fn into_leaves_with_yields_depth_and_sibling_index() {
    let mut tree: Tree<i32> = Tree::new(1);
    let root = tree.root_idx().unwrap();
    let c = tree.push_children(&root, vec![2, 3]);
    let c2 = tree.push_children(&c[0], vec![4, 5]);
    tree.push_child(&c2[0], 8);
    let c3 = tree.push_children(&c[1], vec![6, 7]);
    tree.push_child(&c3[0], 9);
    tree.push_children(&c3[1], vec![10, 11]);

    let removed = tree.into_leaves_with::<Bfs>(&c[1]);
    assert_eq!(removed, [(2, 0, 9), (2, 0, 10), (2, 1, 11)]);
    let remaining: Vec<i32> = tree.walk::<Bfs>(&root).into_iter().copied().collect();
    assert_eq!(remaining, [1, 2, 4, 5, 8]);
    // six of eleven positions closed: the storage was reorganized
    assert!(!tree.is_node_idx_valid(&c2[1]));
    let root = tree.root_idx().unwrap();
    let n2 = tree.child(&root, 0).unwrap();
    let n5 = tree.child(&n2, 1).unwrap();
    let leaf = tree.into_leaves_with::<Dfs>(&n5);
    assert_eq!(leaf, [(0, 0, 5)]);
}

fn next_node<'a>(node: orx_tree::Node<'a, i32, orx_tree::Auto>) -> Option<orx_tree::Node<'a, i32, orx_tree::Auto>> {
    let sibling_idx = node.sibling_idx();
    let num_siblings = match node.parent() {
        Some(parent) => parent.num_children(),
        None => 1,
    };
    match sibling_idx == num_siblings - 1 {
        true => node.child(0),
        false => match node.parent() {
            Some(parent) => parent.child(sibling_idx + 1),
            None => None,
        },
    }
}

//      1
//     ╱ ╲
//    2   3
//   ╱ ╲  ╱ ╲
//  4  5 6   7
#[test]
fn custom_walk_follows_the_walking_function() {
    let mut tree: Tree<i32> = Tree::new(1);
    let root = tree.root_idx().unwrap();
    let c = tree.push_children(&root, vec![2, 3]);
    tree.push_children(&c[0], vec![4, 5]);
    tree.push_children(&c[1], vec![6, 7]);

    tree.custom_walk_mut(&root, next_node, |i: usize, x: &i32| *x + (i as i32 + 1) * 100);
    let values: Vec<i32> = tree.custom_walk(&root, next_node).into_iter().copied().collect();
    assert_eq!(values, [101, 202, 303, 406, 507]);
    let all: Vec<i32> = tree.walk::<Bfs>(&root).into_iter().copied().collect();
    assert_eq!(all, [101, 202, 303, 4, 5, 406, 507]);
}

fn up_or_first_child<'a>(
    node: orx_tree::Node<'a, i32, orx_tree::Auto>,
) -> Option<orx_tree::Node<'a, i32, orx_tree::Auto>> {
    match node.parent() {
        Some(parent) => Some(parent),
        None => node.child(0),
    }
}

#[test]
fn custom_walk_ends_where_it_would_go_round() {
    let (tree, ids) = small();
    // from a node back to its parent and down again: 2, 1, 2, 1, ...
    let values: Vec<i32> = tree.custom_walk(&ids[1], up_or_first_child).into_iter().copied().collect();
    assert_eq!(values, [2, 1]);
}

#[test]
fn copied_subtree_is_an_exact_copy() {
    let (mut tree, ids) = small();
    let copy = tree.as_copied_subtree(&ids[1]);
    assert_eq!(copy.len(), 3);
    tree.push_child_tree(&ids[2], copy);
    let dfs: Vec<i32> = tree.walk::<Dfs>(&ids[0]).into_iter().copied().collect();
    assert_eq!(dfs, [1, 2, 4, 5, 3, 6, 2, 4, 5]);
    let mut other: Tree<i32> = Tree::new(0);
    let other_root = other.root_idx().unwrap();
    let copy = tree.as_copied_subtree(&ids[2]);
    other.push_child_tree(&other_root, copy);
    let dfs: Vec<(usize, i32)> = dfs_with_depth(&other, &other_root);
    assert_eq!(dfs, [(0, 0), (1, 3), (2, 6), (2, 2), (3, 4), (3, 5)]);
}
