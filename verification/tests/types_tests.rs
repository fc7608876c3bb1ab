use bin_tree::{leaf, tree, BinTree};

fn sample_tree() -> BinTree<i32> {
    tree(1, tree(2, leaf(3), ()), tree(4, (), tree(5, leaf(6), ())))
}

#[test]
fn bin_tree_types_eq_test() {
    let bt = BinTree::new_node(
        1,
        BinTree::new_node(2, BinTree::new_leaf(3), BinTree::new()),
        BinTree::new_node(
            4,
            BinTree::new(),
            BinTree::new_node(5, BinTree::new_leaf(6), BinTree::new()),
        ),
    );
    let t = sample_tree();
    assert_eq!(t, bt);
}

#[test]
fn bin_tree_types_basic_access_test() {
    let mut tree: BinTree<i32> = Default::default();
    assert_eq!(tree.is_empty(), true);
    tree = BinTree::new_leaf(10);
    assert_eq!(tree.is_leaf(), true);
    assert_eq!(tree.value().unwrap(), &10);
    *tree.left_mut().unwrap() = BinTree::new_leaf(20);
    assert_eq!(tree.is_leaf(), false);
    assert_eq!(tree.is_branch(), true);
    assert_eq!(tree.to_string(), "((20) <= 10)");
    *tree.left_mut().unwrap() = BinTree::new();
    *tree.right_mut().unwrap() = BinTree::new_leaf(30);
    assert_eq!(tree.is_empty(), false);
    assert_eq!(tree.is_leaf(), false);
    assert_eq!(tree.is_branch(), true);
    assert_eq!(tree.to_string(), "(10 => (30))");
    *tree.get_mut(&30).unwrap() = 40;
    assert_eq!(tree.to_string(), "(10 => (40))");
    let subtree = tree.get_tree_mut(&40).unwrap();
    *subtree = BinTree::new_leaf(50);
    assert_eq!(tree.to_string(), "(10 => (50))");
    *tree.get_sorted_mut(&50).unwrap() = 60;
    assert_eq!(tree.to_string(), "(10 => (60))");
    let subtree = tree.get_tree_sorted_mut(&60).unwrap();
    *subtree = BinTree::new_leaf(70);
    assert_eq!(tree.to_string(), "(10 => (70))");
}
