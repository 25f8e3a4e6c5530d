use orx_tree::memory::needs_reclaim;
use orx_tree::{Auto, AutoWithThreshold, Bfs, Lazy, NodeIdxError, Tree};

fn chain_tree() -> (Tree<u32>, Vec<orx_tree::NodeIdx>) {
    // 0 with children 1, 2, 3, 4, 5, 6, 7
    let mut tree: Tree<u32> = Tree::new(0);
    let root = tree.root_idx().unwrap();
    let ids = tree.push_children(&root, vec![1, 2, 3, 4, 5, 6, 7]);
    (tree, ids)
}

#[test]
fn lazy_policy_never_reorganizes() {
    let (tree, ids) = chain_tree();
    let mut tree: Tree<u32, Lazy> = tree.into_lazy_reclaim();
    for k in 0..6 {
        tree.prune(&ids[k]);
    }
    // removed nodes are reported as removed, others stay valid
    assert_eq!(tree.node_idx_error(&ids[0]), Some(NodeIdxError::RemovedNode));
    assert!(!tree.is_node_idx_valid(&ids[0]));
    assert_eq!(tree.node_idx_error(&ids[6]), None);
    assert_eq!(*tree.data(&ids[6]), 7);
    let u = tree.memory_utilization();
    assert_eq!(u.num_active_nodes, 2);
    assert_eq!(u.num_closed_nodes, 6);
}

#[test]
fn auto_policy_reorganizes_when_too_many_closed() {
    let (mut tree, ids) = chain_tree();
    // 8 positions; one closed node is not more than 8 / 4
    tree.prune(&ids[0]);
    assert_eq!(tree.node_idx_error(&ids[1]), None);
    assert_eq!(tree.node_idx_error(&ids[0]), Some(NodeIdxError::RemovedNode));
    tree.prune(&ids[1]);
    assert_eq!(tree.node_idx_error(&ids[2]), None);
    // a third closed node out of 8 triggers the reclaim
    tree.prune(&ids[2]);
    assert_eq!(tree.node_idx_error(&ids[3]), Some(NodeIdxError::ReorganizedCollection));
    let u = tree.memory_utilization();
    assert_eq!(u.num_active_nodes, 5);
    assert_eq!(u.num_closed_nodes, 0);
    let root = tree.root_idx().unwrap();
    let bfs: Vec<u32> = tree.walk::<Bfs>(&root).into_iter().copied().collect();
    assert_eq!(bfs, [0, 4, 5, 6, 7]);
}

#[test]
fn threshold_policy_one_reclaims_below_half() {
    let (tree, ids) = chain_tree();
    let lazy: Tree<u32, Lazy> = tree.into_lazy_reclaim();
    let mut tree: Tree<u32, AutoWithThreshold<1>> = lazy.into_auto_reclaim_with_threshold::<1>();
    let root = tree.root_idx().unwrap();
    for k in 0..4 {
        tree.prune(&ids[k]);
    }
    // 4 closed out of 8 positions is not more than half
    assert_eq!(tree.node_idx_error(&ids[4]), None);
    assert_eq!(tree.memory_utilization().num_closed_nodes, 4);
    tree.prune(&ids[4]);
    // after the reclaim the storage holds 3 positions
    assert_eq!(tree.node_idx_error(&ids[5]), Some(NodeIdxError::OutOfBounds));
    assert_eq!(tree.node_idx_error(&root), Some(NodeIdxError::ReorganizedCollection));
    assert_eq!(tree.memory_utilization().num_closed_nodes, 0);
}

#[test]
fn threshold_policy_zero_never_reclaims() {
    let (tree, ids) = chain_tree();
    let lazy: Tree<u32, Lazy> = tree.into_lazy_reclaim();
    let mut tree: Tree<u32, AutoWithThreshold<0>> = lazy.into_auto_reclaim_with_threshold::<0>();
    for k in 0..7 {
        tree.prune(&ids[k]);
    }
    let root = tree.root_idx().unwrap();
    assert_eq!(tree.node_idx_error(&root), None);
    assert_eq!(tree.memory_utilization().num_closed_nodes, 7);
    assert_eq!(tree.len(), 1);
}

#[test]
fn back_to_auto_reclaims_at_once() {
    let (tree, ids) = chain_tree();
    let mut lazy: Tree<u32, Lazy> = tree.into_lazy_reclaim();
    let root = lazy.root_idx().unwrap();
    for k in 0..4 {
        lazy.prune(&ids[k]);
    }
    let tree: Tree<u32, Auto> = lazy.into_auto_reclaim();
    assert_eq!(tree.node_idx_error(&ids[5]), Some(NodeIdxError::OutOfBounds));
    assert_eq!(tree.node_idx_error(&root), Some(NodeIdxError::ReorganizedCollection));
    assert_eq!(tree.memory_utilization().num_closed_nodes, 0);
    assert_eq!(tree.len(), 4);
}

#[test]
fn index_of_a_larger_tree_is_out_of_bounds() {
    let (_, ids) = chain_tree();
    let small: Tree<u32> = Tree::new(9);
    assert_eq!(small.node_idx_error(&ids[6]), Some(NodeIdxError::OutOfBounds));
    assert!(small.try_node(&ids[6]).is_err());
    assert!(small.get_node(&ids[6]).is_none());
}

#[test]
fn reclaim_decision() {
    // 8 used positions with 6 active: 2 closed is not more than 8 >> 2
    assert!(!needs_reclaim::<Auto>(8, 6));
    assert!(needs_reclaim::<Auto>(8, 5));
    assert!(!needs_reclaim::<Lazy>(8, 0));
    assert!(!needs_reclaim::<AutoWithThreshold<0>>(8, 0));
    assert!(needs_reclaim::<AutoWithThreshold<1>>(8, 3));
    assert!(!needs_reclaim::<AutoWithThreshold<1>>(8, 4));
}

#[test]
fn reclaim_keeps_the_walks() {
    let (tree, ids) = chain_tree();
    let mut lazy: Tree<u32, Lazy> = tree.into_lazy_reclaim();
    lazy.push_children(&ids[6], vec![70, 71]);
    for k in 0..4 {
        lazy.prune(&ids[k]);
    }
    let root = lazy.root_idx().unwrap();
    let dfs_before: Vec<(usize, u32)> =
        lazy.walk_with_depth::<orx_tree::Dfs>(&root).into_iter().map(|(d, x)| (d, *x)).collect();
    let tree: Tree<u32, Auto> = lazy.into_auto_reclaim();
    assert_eq!(tree.memory_utilization().num_closed_nodes, 0);
    let root = tree.root_idx().unwrap();
    let dfs_after: Vec<(usize, u32)> =
        tree.walk_with_depth::<orx_tree::Dfs>(&root).into_iter().map(|(d, x)| (d, *x)).collect();
    assert_eq!(dfs_before, dfs_after);
    assert_eq!(dfs_after, [(0, 0), (1, 5), (1, 6), (1, 7), (2, 70), (2, 71)]);
}

#[test]
fn prune_removes_the_whole_subtree() {
    let (mut tree, ids) = chain_tree();
    tree.push_children(&ids[0], vec![10, 11, 12]);
    assert_eq!(tree.len(), 11);
    assert_eq!(tree.prune(&ids[0]), 1);
    assert_eq!(tree.len(), 7);
}

#[test]
fn reclaim_that_moves_no_node_keeps_indices() {
    let (mut tree, ids) = chain_tree();
    let root = tree.root_idx().unwrap();
    // the closed positions are the last ones, so the reclaim moves nothing
    tree.prune(&ids[6]);
    tree.prune(&ids[5]);
    tree.prune(&ids[4]);
    let u = tree.memory_utilization();
    assert_eq!(u.num_active_nodes, 5);
    assert_eq!(u.num_closed_nodes, 0);
    assert_eq!(tree.node_idx_error(&root), None);
    assert_eq!(tree.node_idx_error(&ids[3]), None);
    assert_eq!(*tree.data(&ids[3]), 4);
    assert_eq!(tree.node_idx_error(&ids[4]), Some(NodeIdxError::OutOfBounds));
}

#[test]
fn reclaim_keeps_bfs_and_post_order_walks() {
    let (tree, ids) = chain_tree();
    let mut lazy: Tree<u32, Lazy> = tree.into_lazy_reclaim();
    lazy.push_children(&ids[5], vec![60, 61]);
    lazy.push_children(&ids[6], vec![70, 71]);
    for k in 0..4 {
        lazy.prune(&ids[k]);
    }
    let root = lazy.root_idx().unwrap();
    let bfs_before: Vec<u32> = lazy.walk::<Bfs>(&root).into_iter().copied().collect();
    let post_before: Vec<u32> = lazy.walk::<orx_tree::PostOrder>(&root).into_iter().copied().collect();
    let tree: Tree<u32, Auto> = lazy.into_auto_reclaim();
    assert_eq!(tree.memory_utilization().num_closed_nodes, 0);
    let root = tree.root_idx().unwrap();
    let bfs_after: Vec<u32> = tree.walk::<Bfs>(&root).into_iter().copied().collect();
    let post_after: Vec<u32> = tree.walk::<orx_tree::PostOrder>(&root).into_iter().copied().collect();
    assert_eq!(bfs_before, bfs_after);
    assert_eq!(post_before, post_after);
    assert_eq!(bfs_after, [0, 5, 6, 7, 60, 61, 70, 71]);
    assert_eq!(post_after, [5, 60, 61, 6, 70, 71, 7, 0]);
}

#[test]
fn into_lazy_reclaim_keeps_indices_walks_and_utilization() {
    let (mut tree, ids) = chain_tree();
    tree.prune(&ids[0]);
    let root = tree.root_idx().unwrap();
    let bfs_before: Vec<(usize, u32)> =
        tree.walk_with_depth::<Bfs>(&root).into_iter().map(|(d, x)| (d, *x)).collect();
    let u_before = tree.memory_utilization();
    let lazy: Tree<u32, Lazy> = tree.into_lazy_reclaim();
    for k in 1..7 {
        assert!(lazy.is_node_idx_valid(&ids[k]));
        assert_eq!(*lazy.data(&ids[k]), k as u32 + 1);
    }
    let bfs_after: Vec<(usize, u32)> =
        lazy.walk_with_depth::<Bfs>(&root).into_iter().map(|(d, x)| (d, *x)).collect();
    assert_eq!(bfs_before, bfs_after);
    let u_after = lazy.memory_utilization();
    assert_eq!(u_before.num_active_nodes, u_after.num_active_nodes);
    assert_eq!(u_before.num_closed_nodes, u_after.num_closed_nodes);
    assert_eq!(u_before.capacity, u_after.capacity);
    assert!(u_after.capacity >= 8);
}

#[test]
fn lazy_removals_keep_other_indices() {
    let (tree, ids) = chain_tree();
    let mut lazy: Tree<u32, Lazy> = tree.into_lazy_reclaim();
    let below = lazy.push_children(&ids[2], vec![30, 31]);
    let deep = lazy.push_child(&below[0], 300);
    lazy.prune(&ids[0]);
    assert_eq!(lazy.take_out(&ids[1]), 2);
    lazy.remove_children(&below[0]);
    assert_eq!(lazy.take_out(&below[1]), 31);
    let walked: Vec<u32> = lazy.into_walk::<Bfs>(&ids[3]);
    assert_eq!(walked, [4]);
    assert_eq!(lazy.node_idx_error(&ids[0]), Some(NodeIdxError::RemovedNode));
    assert_eq!(lazy.node_idx_error(&deep), Some(NodeIdxError::RemovedNode));
    for k in [2usize, 4, 5, 6] {
        assert_eq!(lazy.node_idx_error(&ids[k]), None);
        assert_eq!(*lazy.data(&ids[k]), k as u32 + 1);
    }
    assert_eq!(*lazy.data(&below[0]), 30);
    assert_eq!(lazy.memory_utilization().num_closed_nodes, 5);
}

#[test]
fn switching_policy_keeps_what_walks_yield() {
    let (tree, ids) = chain_tree();
    let mut lazy: Tree<u32, Lazy> = tree.into_lazy_reclaim();
    lazy.push_children(&ids[6], vec![70, 71]);
    for k in 0..5 {
        lazy.prune(&ids[k]);
    }
    let root = lazy.root_idx().unwrap();
    let dfs_before: Vec<u32> = lazy.walk::<orx_tree::Dfs>(&root).into_iter().copied().collect();
    // 5 closed of 10 positions is more than 10 / 4
    let tree: Tree<u32, AutoWithThreshold<2>> = lazy.into_auto_reclaim_with_threshold::<2>();
    assert_eq!(tree.node_idx_error(&ids[6]), Some(NodeIdxError::OutOfBounds));
    assert_eq!(tree.node_idx_error(&root), Some(NodeIdxError::ReorganizedCollection));
    let root = tree.root_idx().unwrap();
    let dfs_after: Vec<u32> = tree.walk::<orx_tree::Dfs>(&root).into_iter().copied().collect();
    assert_eq!(dfs_before, dfs_after);
    assert_eq!(dfs_after, [0, 6, 7, 70, 71]);
}
