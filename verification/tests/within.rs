use orx_tree::{Bfs, Dfs, Side, Tree};

fn walk_bfs(tree: &Tree<i32>) -> Vec<i32> {
    let root = tree.root_idx().unwrap();
    tree.walk::<Bfs>(&root).into_iter().copied().collect()
}

fn walk_dfs(tree: &Tree<i32>) -> Vec<i32> {
    let root = tree.root_idx().unwrap();
    tree.walk::<Dfs>(&root).into_iter().copied().collect()
}

#[test]
fn move_subtrees_as_children_within() {
    let mut tree: Tree<i32> = Tree::new(1);
    let root = tree.root_idx().unwrap();
    let c = tree.push_children(&root, vec![2, 3]);
    let (id2, id3) = (c[0], c[1]);
    let c = tree.push_children(&id2, vec![4, 5]);
    let (id4, id5) = (c[0], c[1]);
    let id8 = tree.push_child(&id4, 8);
    tree.push_children(&id3, vec![6, 7]);

    let st8 = id8.into_subtree_within();
    let r = tree.push_child_tree_within(&id2, st8);
    assert_eq!(r, id8);

    let st3 = id3.into_subtree_within();
    tree.push_child_tree_within(&id5, st3);

    assert_eq!(walk_bfs(&tree), [1, 2, 4, 5, 8, 3, 6, 7]);
    assert_eq!(walk_dfs(&tree), [1, 2, 4, 5, 3, 6, 7, 8]);
    // moved nodes keep their indices
    assert_eq!(*tree.data(&id3), 3);
    assert_eq!(tree.parent(&id3), Some(id5));
    assert_eq!(tree.depth(&id3), 3);
}

#[test]
fn move_subtrees_as_siblings_within() {
    let mut tree: Tree<i32> = Tree::new(1);
    let root = tree.root_idx().unwrap();
    let c = tree.push_children(&root, vec![2, 3]);
    let (id2, id3) = (c[0], c[1]);
    let c = tree.push_children(&id2, vec![4, 5]);
    let (id4, id5) = (c[0], c[1]);
    let id8 = tree.push_child(&id4, 8);
    tree.push_children(&id3, vec![6, 7]);

    tree.push_sibling_tree_within(&id5, Side::Left, id8.into_subtree_within());
    tree.push_sibling_tree_within(&id4, Side::Right, id3.into_subtree_within());

    assert_eq!(walk_bfs(&tree), [1, 2, 4, 3, 8, 5, 6, 7]);
    assert_eq!(walk_dfs(&tree), [1, 2, 4, 3, 6, 7, 8, 5]);
}

#[test]
fn move_sibling_past_its_own_position() {
    let mut tree: Tree<i32> = Tree::new(0);
    let root = tree.root_idx().unwrap();
    let c = tree.push_children(&root, vec![1, 2, 3, 4]);
    // move 1 to the right of 3
    tree.push_sibling_tree_within(&c[2], Side::Right, c[0].into_subtree_within());
    assert_eq!(walk_bfs(&tree), [0, 2, 3, 1, 4]);
    // move 4 to the left of 2
    tree.push_sibling_tree_within(&c[1], Side::Left, c[3].into_subtree_within());
    assert_eq!(walk_bfs(&tree), [0, 4, 2, 3, 1]);
    // move 2 below its own sibling 3, as its last child
    tree.push_child_tree_within(&c[2], c[1].into_subtree_within());
    assert_eq!(walk_dfs(&tree), [0, 4, 3, 2, 1]);
}
