use orx_tree::{Bfs, Dfs, NodeIdx, OverDepthData, OverDepthNode, PostOrder, Tree};

//      1
//     ╱ ╲
//    ╱   ╲
//   2     3
//  ╱ ╲   ╱ ╲
// 4   5 6   7
// |     |  ╱ ╲
// 8     9 10  11
fn binary_example() -> (Tree<i32>, NodeIdx) {
    let mut tree: Tree<i32> = Tree::new(1);
    let root = tree.root_idx().unwrap();
    let ids = tree.push_children(&root, vec![2, 3]);
    let n2 = ids[0];
    let n3 = ids[1];
    let ids2 = tree.push_children(&n2, vec![4, 5]);
    tree.push_child(&ids2[0], 8);
    let ids3 = tree.push_children(&n3, vec![6, 7]);
    tree.push_child(&ids3[0], 9);
    let n6_parent = tree.parent(&ids3[0]).unwrap();
    let n7 = tree.child(&n6_parent, 1).unwrap();
    tree.push_children(&n7, vec![10, 11]);
    (tree, root)
}

#[test]
fn dfs2_abc() {
    //
}

#[test]
fn dfs_abc() {
    let (tree, root) = binary_example();

    let walk = tree.walk_with::<Dfs, OverDepthData>(&root);
    let first: Vec<(usize, i32)> = walk.iter().take(5).map(|x| (x.0, *x.1)).collect();
    assert_eq!(first, [(0, 1), (1, 2), (2, 4), (3, 8), (2, 5)]);

    let n3 = tree.child(&root, 1).unwrap();

    let depths: Vec<usize> = tree.walk_with::<Dfs, OverDepthData>(&n3).iter().map(|x| x.0).collect();
    assert_eq!(depths, [0, 1, 2, 1, 2, 2]);

    let values: Vec<i32> = tree.walk_with::<Dfs, OverDepthData>(&n3).iter().map(|x| *x.1).collect();
    assert_eq!(values, [3, 6, 9, 7, 10, 11]);
}

#[test]
fn def() {
    let (tree, root) = binary_example();

    let walk = tree.walk_with::<Dfs, OverDepthNode>(&root);
    let (d, _n1) = &walk[0];
    assert_eq!(*d, 0);

    let (d, n2) = &walk[1];
    assert_eq!(*d, 1);

    let (d, n4) = &walk[2];
    assert_eq!(*d, 2);

    assert_eq!(n4.data(), &4);
    assert_eq!(n4.parent().map(|p| p.idx()), Some(n2.idx()));
    assert_eq!(n4.num_children(), 1);

    let n3 = tree.child(&root, 1).unwrap();

    let depths: Vec<usize> = tree.walk_with::<Dfs, OverDepthNode>(&n3).iter().map(|x| x.0).collect();
    assert_eq!(depths, [0, 1, 2, 1, 2, 2]);

    let values: Vec<i32> = tree.walk_with::<Dfs, OverDepthNode>(&n3).iter().map(|x| *x.1.data()).collect();
    assert_eq!(values, [3, 6, 9, 7, 10, 11]);
}

#[test]
fn build_and_walk() {
    let mut tree: Tree<i32> = Tree::new(1);
    let root = tree.root_idx().unwrap();
    let ids = tree.push_children(&root, vec![2, 3]);
    assert_eq!(ids.len(), 2);
    let bfs: Vec<i32> = tree.walk::<Bfs>(&root).into_iter().copied().collect();
    assert_eq!(bfs, [1, 2, 3]);
    let dfs: Vec<i32> = tree.walk::<Dfs>(&root).into_iter().copied().collect();
    assert_eq!(dfs, [1, 2, 3]);
    let post: Vec<i32> = tree.walk::<PostOrder>(&root).into_iter().copied().collect();
    assert_eq!(post, [2, 3, 1]);
}

#[test]
fn walks_of_binary_example() {
    let (tree, root) = binary_example();
    assert_eq!(tree.len(), 11);
    let bfs: Vec<i32> = tree.walk::<Bfs>(&root).into_iter().copied().collect();
    assert_eq!(bfs, [1, 2, 3, 4, 5, 6, 7, 8, 9, 10, 11]);
    let dfs: Vec<i32> = tree.walk::<Dfs>(&root).into_iter().copied().collect();
    assert_eq!(dfs, [1, 2, 4, 8, 5, 3, 6, 9, 7, 10, 11]);
    let post: Vec<i32> = tree.walk::<PostOrder>(&root).into_iter().copied().collect();
    assert_eq!(post, [8, 4, 5, 2, 9, 6, 10, 11, 7, 3, 1]);
}

#[test]
fn leaves_with_depth_and_sibling() {
    let (tree, root) = binary_example();
    let leaves = tree.walk_with::<Dfs, orx_tree::OverDepthSiblingNode>(&root);
    assert_eq!(leaves.len(), 11);
    let leaves = tree.leaves_with::<Dfs, orx_tree::OverDepthSiblingNode>(&root);
    let (depth, sibling_idx, leaf) = &leaves[0];
    assert_eq!(*depth, 3);
    assert_eq!(*sibling_idx, 0);
    assert_eq!(leaf.data(), &8);
    let data: Vec<i32> = tree.leaves_with::<Bfs, orx_tree::OverData>(&root).into_iter().copied().collect();
    assert_eq!(data, [5, 8, 9, 10, 11]);
}

#[test]
fn paths_with_nodes_and_depths() {
    let (tree, root) = binary_example();
    let n3 = tree.child(&root, 1).unwrap();
    let paths: Vec<Vec<(i32, usize)>> = tree
        .paths_with::<Bfs, orx_tree::NodeValueNode>(&n3)
        .into_iter()
        .map(|p| p.into_iter().map(|node| (*node.data(), node.depth())).collect())
        .collect();
    assert_eq!(
        paths,
        [[(9, 3), (6, 2), (3, 1)], [(10, 3), (7, 2), (3, 1)], [(11, 3), (7, 2), (3, 1)]]
    );
    let ptrs = tree.paths_with::<Dfs, orx_tree::NodeValuePtr>(&n3);
    assert_eq!(ptrs.len(), 3);
    assert_eq!(ptrs[0][2], n3);
}

#[test]
fn iter_visits_every_node_in_storage_order() {
    let mut tree: orx_tree::Tree<i32> = orx_tree::Tree::new(1);
    let root = tree.root_idx().unwrap();
    let c = tree.push_children(&root, vec![2, 3]);
    tree.push_child(&c[0], 4);
    tree.push_parent(&c[1], 30);
    let all: Vec<i32> = tree.iter().into_iter().copied().collect();
    assert_eq!(all, [1, 2, 3, 4, 30]);
    tree.iter_mut(|x: &i32| *x * 10);
    let all: Vec<i32> = tree.iter().into_iter().copied().collect();
    assert_eq!(all, [10, 20, 30, 40, 300]);
    let bfs: Vec<i32> = tree.walk::<orx_tree::Bfs>(&root).into_iter().copied().collect();
    assert_eq!(bfs, [10, 20, 300, 40, 30]);
}

#[test]
fn ancestors_up_to_a_stop_node() {
    let mut tree: orx_tree::Tree<i32> = orx_tree::Tree::new(1);
    let root = tree.root_idx().unwrap();
    let c = tree.push_children(&root, vec![2, 3]);
    let n6 = tree.push_child(&c[1], 6);
    let n9 = tree.push_child(&n6, 9);
    let up: Vec<i32> = tree.ancestors_up_to(&n9, &c[1]).iter().map(|i| *tree.data(i)).collect();
    assert_eq!(up, [9, 6, 3]);
    let itself: Vec<i32> = tree.ancestors_up_to(&n9, &n9).iter().map(|i| *tree.data(i)).collect();
    assert_eq!(itself, [9]);
    // a stop that is no ancestor: the walk goes up to the root
    let to_root: Vec<i32> = tree.ancestors_up_to(&n9, &c[0]).iter().map(|i| *tree.data(i)).collect();
    assert_eq!(to_root, [9, 6, 3, 1]);
}
