use orx_tree::{Bfs, Dfs, Lazy, NodeIdx, PostOrder, Side, Tree};

fn bfs_of<M: orx_tree::MemoryPolicy>(tree: &Tree<i32, M>) -> Vec<i32> {
    let root = tree.root_idx().unwrap();
    tree.walk::<Bfs>(&root).into_iter().copied().collect()
}

//      1
//     ╱ ╲
//    ╱   ╲
//   2     3
//  ╱ ╲   ╱ ╲
// 4   5 6   7
// |     |  ╱ ╲
// 8     9 10  11
struct Example {
    tree: Tree<i32>,
    id2: NodeIdx,
    id3: NodeIdx,
    id4: NodeIdx,
    id6: NodeIdx,
    id7: NodeIdx,
    id8: NodeIdx,
    id9: NodeIdx,
}

fn example() -> Example {
    let mut tree: Tree<i32> = Tree::new(1);
    let root = tree.root_idx().unwrap();
    let ids = tree.push_children(&root, vec![2, 3]);
    let (id2, id3) = (ids[0], ids[1]);
    let ids = tree.push_children(&id2, vec![4, 5]);
    let id4 = ids[0];
    let id8 = tree.push_child(&id4, 8);
    let ids = tree.push_children(&id3, vec![6, 7]);
    let (id6, id7) = (ids[0], ids[1]);
    let id9 = tree.push_child(&id6, 9);
    tree.push_children(&id7, vec![10, 11]);
    Example { tree, id2, id3, id4, id6, id7, id8, id9 }
}

#[test]
fn readme_node_queries() {
    let e = example();
    let tree = &e.tree;
    assert!(!tree.is_leaf(&e.id4));
    assert!(!tree.is_root(&e.id4));
    assert_eq!(tree.depth(&e.id4), 2);
    assert_eq!(tree.sibling_idx(&e.id4), 0);
    assert_eq!(tree.parent(&e.id4), Some(e.id2));
    assert_eq!(tree.num_children(&e.id4), 1);
    assert_eq!(tree.child(&e.id4, 0), Some(e.id8));
    assert_eq!(tree.child(&e.id4, 1), None);

    let ancestors: Vec<i32> = tree.ancestors(&e.id4).iter().map(|i| *tree.data(i)).collect();
    assert_eq!(ancestors, [4, 2, 1]);

    let new_tree = tree.clone_as_tree(&e.id4);
    let new_root = new_tree.root_idx().unwrap();
    assert_eq!(new_tree.data(&new_root), &4);
    assert_eq!(new_tree.len(), 2);
}

#[test]
fn readme_traversals() {
    let e = example();
    let tree = &e.tree;
    let root = tree.root_idx().unwrap();

    assert_eq!(bfs_of(tree), [1, 2, 3, 4, 5, 6, 7, 8, 9, 10, 11]);

    let dfs: Vec<i32> = tree.walk::<Dfs>(&e.id3).into_iter().copied().collect();
    assert_eq!(dfs, [3, 6, 9, 7, 10, 11]);

    let post_order: Vec<i32> = tree.walk::<PostOrder>(&e.id3).into_iter().copied().collect();
    assert_eq!(post_order, [9, 6, 10, 11, 7, 3]);

    let leaves: Vec<i32> = tree.leaves::<Dfs>(&root).into_iter().copied().collect();
    assert_eq!(leaves, [8, 5, 9, 10, 11]);

    let paths: Vec<Vec<i32>> = tree
        .paths::<Bfs>(&e.id3)
        .into_iter()
        .map(|p| p.into_iter().copied().collect())
        .collect();
    assert_eq!(paths, [[9, 6, 3], [10, 7, 3], [11, 7, 3]]);

    let sum: i32 = tree.iter().into_iter().sum();
    assert_eq!(sum, 66);

    let mut tree = e.tree;
    tree.iter_mut(|x: &i32| 2 * (10 + *x) - *x - 20);
    let bfs: Vec<i32> = tree.walk::<Bfs>(&root).into_iter().copied().collect();
    assert_eq!(bfs, [1, 2, 3, 4, 5, 6, 7, 8, 9, 10, 11]);
}

#[test]
fn readme_removals_and_moves() {
    let e = example();
    let mut tree: Tree<i32, Lazy> = e.tree.into_lazy_reclaim();

    // remove a subtree and collect values in the desired traversal order
    let removed_in_bfs_order: Vec<i32> = tree.into_walk::<Bfs>(&e.id7);
    assert_eq!(removed_in_bfs_order, [7, 10, 11]);
    assert_eq!(bfs_of(&tree), [1, 2, 3, 4, 5, 6, 8, 9]);

    // take out just one node: 6 is removed, 9 moves up
    let taken_out = tree.take_out(&e.id6);
    assert_eq!(taken_out, 6);
    assert_eq!(bfs_of(&tree), [1, 2, 3, 4, 5, 9, 8]);

    // prune a subtree
    let pruned = tree.prune(&e.id2);
    assert_eq!(pruned, 2);
    assert_eq!(bfs_of(&tree), [1, 3, 9]);

    // append another tree as a sibling of a node
    let mut other_tree: Tree<i32> = Tree::new(2);
    let other_root = other_tree.root_idx().unwrap();
    let ids = other_tree.push_children(&other_root, vec![4, 5]);
    other_tree.push_child(&ids[0], 8);
    let id2 = tree.push_sibling_tree(&e.id3, Side::Left, other_tree);
    assert_eq!(*tree.data(&id2), 2);
    assert_eq!(bfs_of(&tree), [1, 2, 3, 4, 5, 9, 8]);

    // move a subtree to another location in the same tree
    let id4 = tree.child(&id2, 0).unwrap();
    let id5 = tree.child(&id2, 1).unwrap();
    tree.push_child_tree_within(&e.id3, id4.into_subtree_within());
    assert_eq!(bfs_of(&tree), [1, 2, 3, 5, 9, 4, 8]);

    // move the subtree back
    tree.push_sibling_tree_within(&id5, Side::Left, id4.into_subtree_within());
    assert_eq!(bfs_of(&tree), [1, 2, 3, 4, 5, 9, 8]);

    // insert a node in between parent and child
    tree.push_parent(&e.id9, 6);
    assert_eq!(bfs_of(&tree), [1, 2, 3, 4, 5, 6, 8, 9]);

    // push a subtree cloned from another tree
    let mut other_tree: Tree<i32> = Tree::new(100);
    let other_root = other_tree.root_idx().unwrap();
    let id7 = other_tree.push_child(&other_root, 7);
    other_tree.push_children(&id7, vec![10, 11]);
    let subtree = other_tree.as_cloned_subtree(&id7);
    tree.push_child_tree(&e.id3, subtree);
    assert_eq!(other_tree.len(), 4); // unchanged
    assert_eq!(bfs_of(&tree), [1, 2, 3, 4, 5, 6, 7, 8, 9, 10, 11]);

    // split the tree into trees
    let root = tree.root_idx().unwrap();
    let idx = tree.indices::<Bfs>(&root);
    let id2 = idx[1];
    let id7 = idx[6];

    let tree2 = tree.into_new_tree(&id2);
    assert_eq!(bfs_of(&tree2), [2, 4, 5, 8]);

    let tree7 = tree.into_new_tree(&id7);
    assert_eq!(bfs_of(&tree7), [7, 10, 11]);

    assert_eq!(bfs_of(&tree), [1, 3, 6, 9]);
}

#[test]
fn readme_subtree_keeps_depth_first_order() {
    let e = example();
    let mut tree = e.tree;
    let dfs_before: Vec<i32> = tree.walk::<Dfs>(&e.id3).into_iter().copied().collect();
    let moved = tree.into_new_tree(&e.id3);
    let root = moved.root_idx().unwrap();
    let dfs_after: Vec<i32> = moved.walk::<Dfs>(&root).into_iter().copied().collect();
    assert_eq!(dfs_before, dfs_after);
    assert_eq!(bfs_of(&tree), [1, 2, 4, 5, 8]);
}
