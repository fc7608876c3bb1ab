use bin_tree::{leaf, tree, BinTree, BinTreeError};

fn sample_tree() -> BinTree<i32> {
    tree(1, tree(2, leaf(3), ()), tree(4, (), tree(5, leaf(6), ())))
}

fn drain<T>(mut it: bin_tree::bin_tree::iter::BinTreeIntoIter<T>) -> Vec<T> {
    let mut v = Vec::new();
    while let Some(x) = it.next() {
        v.push(x);
    }
    v
}

fn copied(mut it: bin_tree::bin_tree::iter::BinTreeIter<'_, i32>) -> Vec<i32> {
    let mut v = Vec::new();
    while let Some(x) = it.next() {
        v.push(*x);
    }
    v
}

#[test]
fn bin_tree_eq_test() {
    let bt = BinTree::new_node(
        1,
        BinTree::new_node(2, BinTree::new_leaf(3), BinTree::new()),
        BinTree::new_node(
            4,
            BinTree::new(),
            BinTree::new_node(5, BinTree::new_leaf(6), BinTree::new()),
        ),
    );
    let t = sample_tree();
    assert_eq!(t, bt);
}

#[test]
fn bin_tree_iter_mut_test() {
    let mut t = sample_tree();
    let mut it = t.iter_mut();
    while let Some(i) = it.next() {
        if *i % 2 == 1 {
            *i += 10
        }
    }
    assert_eq!(t.to_string(), "(((13) <= 2) <= 11 => (4 => ((6) <= 15)))");
}

#[test]
fn bin_tree_into_iter_order_test() {
    let t = sample_tree();
    assert_eq!(drain(t.into_iter()), vec![3, 2, 1, 4, 6, 5]);
    let t = sample_tree();
    assert_eq!(drain(t.into_iter_dfs_in()), vec![3, 2, 1, 4, 6, 5]);
    let t = sample_tree();
    assert_eq!(drain(t.into_iter_dfs_pre()), vec![1, 2, 3, 4, 5, 6]);
    let t = sample_tree();
    assert_eq!(drain(t.into_iter_dfs_post()), vec![3, 2, 6, 5, 4, 1]);
    let t = sample_tree();
    assert_eq!(drain(t.into_iter_bfs()), vec![1, 2, 4, 3, 5, 6]);
}

#[test]
fn bin_tree_iter_order_test() {
    let t = sample_tree();
    assert_eq!(copied(t.iter()), vec![3, 2, 1, 4, 6, 5]);
    assert_eq!(copied(t.iter_dfs_in()), vec![3, 2, 1, 4, 6, 5]);
    assert_eq!(copied(t.iter_dfs_pre()), vec![1, 2, 3, 4, 5, 6]);
    assert_eq!(copied(t.iter_dfs_post()), vec![3, 2, 6, 5, 4, 1]);
    assert_eq!(copied(t.iter_bfs()), vec![1, 2, 4, 3, 5, 6]);
}

#[test]
fn bin_tree_iter_mut_order_test() {
    let mut t = sample_tree();
    let mut i = 0;
    let mut it = t.iter_mut();
    while let Some(e) = it.next() {
        i += 1;
        *e += i;
    }
    assert_eq!(t.to_vec(), vec![4, 4, 4, 8, 11, 11]);
    let mut it = t.iter_mut_dfs_in();
    while let Some(e) = it.next() {
        i += 1;
        *e += i;
    }
    assert_eq!(t.to_vec(), vec![11, 12, 13, 18, 22, 23]);
    let mut it = t.iter_mut_dfs_pre();
    while let Some(e) = it.next() {
        i += 1;
        *e += i;
    }
    assert_eq!(t.to_vec(), vec![26, 26, 26, 34, 40, 40]);
    let mut it = t.iter_mut_dfs_post();
    while let Some(e) = it.next() {
        i += 1;
        *e += i;
    }
    assert_eq!(t.to_vec(), vec![45, 46, 50, 57, 61, 62]);
    let mut it = t.iter_mut_bfs();
    while let Some(e) = it.next() {
        i += 1;
        *e += i;
    }
    assert_eq!(t.to_vec(), vec![73, 72, 75, 84, 91, 91]);
}

#[test]
fn bin_tree_push_right_test() {
    let mut t = BinTree::new();
    t.push_right(4);
    t.push_right(2);
    t.push_right(8);
    t.push_right(1);
    assert_eq!(t.to_string(), "(4 => (2 => (8 => (1))))");
    assert_eq!(t.to_vec(), vec![4, 2, 8, 1]);
    t.extend_right(vec![18, 6, 3, 5, 11]);
    assert_eq!(
        t.to_string(),
        "(4 => (2 => (8 => (1 => (18 => (6 => (3 => (5 => (11)))))))))"
    );
    assert_eq!(t.to_vec(), vec![4, 2, 8, 1, 18, 6, 3, 5, 11]);
}

#[test]
fn bin_tree_push_left_test() {
    let mut t = BinTree::new();
    t.push_left(4);
    t.push_left(2);
    t.push_left(8);
    t.push_left(1);
    assert_eq!(t.to_string(), "((((1) <= 8) <= 2) <= 4)");
    assert_eq!(t.to_vec(), vec![1, 8, 2, 4]);
    t.extend_left(vec![18, 6, 3, 5, 11]);
    assert_eq!(
        t.to_string(),
        "(((((((((11) <= 5) <= 3) <= 6) <= 18) <= 1) <= 8) <= 2) <= 4)"
    );
    assert_eq!(t.to_vec(), vec![11, 5, 3, 6, 18, 1, 8, 2, 4]);
}

#[test]
fn bin_tree_pop_test() {
    let mut t = sample_tree();
    assert_eq!(t.to_string(), "(((3) <= 2) <= 1 => (4 => ((6) <= 5)))");
    assert_eq!(t.pop(), Some(1));
    assert_eq!(t.to_string(), "((3) <= 2 => (4 => ((6) <= 5)))");
    assert_eq!(t.pop(), Some(2));
    assert_eq!(t.to_string(), "(3 => (4 => ((6) <= 5)))");
    assert_eq!(t.pop(), Some(3));
    assert_eq!(t.to_string(), "(4 => (5 => (6)))");
    assert_eq!(t.pop(), Some(4));
    assert_eq!(t.to_string(), "(5 => (6))");
    assert_eq!(t.pop(), Some(5));
    assert_eq!(t.to_string(), "(6)");
    assert_eq!(t.pop(), Some(6));
    assert_eq!(t.to_string(), "()");
    assert_eq!(t.pop(), None);
}

#[test]
fn bin_tree_push_sorted_unique_test() {
    let mut t = BinTree::new();
    t.push_sorted_unique(4);
    t.push_sorted_unique(2);
    t.push_sorted_unique(8);
    t.push_sorted_unique(1);
    t.push_sorted_unique(2);
    assert_eq!(t.to_string(), "(((1) <= 2) <= 4 => (8))");
    assert_eq!(t.to_vec(), vec![1, 2, 4, 8]);
    t.extend_sorted_unique(vec![18, 6, 3, 8, 5, 11]);
    assert_eq!(
        t.to_string(),
        "(((1) <= 2 => (3)) <= 4 => (((5) <= 6) <= 8 => ((11) <= 18)))"
    );
    assert_eq!(t.to_vec(), vec![1, 2, 3, 4, 5, 6, 8, 11, 18]);
}

fn remove_all_sorted() {
    let mut t = BinTree::new();
    let v = vec![18, 6, 3, 8, 5, 11, 1, 7, 3, 5, 2, 8, 10, 3, 6, 9, 3, 2];
    t.extend_sorted(v);
    let v = t.to_vec();
    for i in v {
        assert_eq!(t.remove_sorted(&i).is_some(), true);
    }
    assert_eq!(t.to_string(), "()");
}

#[test]
fn bin_tree_remove_sorted_test() {
    remove_all_sorted();
}

#[test]
fn bin_tree_remove_sorted_test_10000() {
    for _ in 0..10000 {
        remove_all_sorted();
    }
}

#[test]
fn bin_tree_basic_access_test() {
    let mut tree: BinTree<i32> = Default::default();
    assert_eq!(tree.is_empty(), true);
    tree = BinTree::new_leaf(10);
    assert_eq!(tree.is_leaf(), true);
    assert_eq!(tree.value().unwrap(), &10);
    *tree.left_mut().unwrap() = BinTree::new_leaf(20);
    assert_eq!(tree.is_leaf(), false);
    assert_eq!(tree.is_branch(), true);
    assert_eq!(tree.to_string(), "((20) <= 10)");
    *tree.left_mut().unwrap() = BinTree::new();
    *tree.right_mut().unwrap() = BinTree::new_leaf(30);
    assert_eq!(tree.is_empty(), false);
    assert_eq!(tree.is_leaf(), false);
    assert_eq!(tree.is_branch(), true);
    assert_eq!(tree.to_string(), "(10 => (30))");
    *tree.get_mut(&30).unwrap() = 40;
    assert_eq!(tree.to_string(), "(10 => (40))");
    let subtree = tree.get_tree_mut(&40).unwrap();
    *subtree = BinTree::new_leaf(50);
    assert_eq!(tree.to_string(), "(10 => (50))");
    *tree.get_sorted_mut(&50).unwrap() = 60;
    assert_eq!(tree.to_string(), "(10 => (60))");
    let subtree = tree.get_tree_sorted_mut(&60).unwrap();
    *subtree = BinTree::new_leaf(70);
    assert_eq!(tree.to_string(), "(10 => (70))");
    let subtree = tree.get_tree_sorted_mut(&70).unwrap();
    let old = subtree.take_and_replace_with(&mut BinTree::new()).unwrap();
    assert_eq!(old, 70);
    assert_eq!(tree.to_string(), "(10)");
}

#[test]
fn bin_tree_push_sorted_test() {
    let mut t = BinTree::new();
    t.push_sorted_maybe_rebalance(4, false);
    t.push_sorted_maybe_rebalance(2, false);
    t.push_sorted_maybe_rebalance(8, false);
    t.push_sorted_maybe_rebalance(1, false);
    t.push_sorted_maybe_rebalance(2, false);
    assert_eq!(t.to_string(), "(((1) <= 2 => (2)) <= 4 => (8))");
    assert_eq!(t.to_vec(), vec![1, 2, 2, 4, 8]);
    for x in vec![18, 6, 3, 8, 5, 11] {
        t.push_sorted_maybe_rebalance(x, false);
    }
    assert_eq!(
        t.to_string(),
        "(((1) <= 2 => (2 => (3))) <= 4 => (((5) <= 6) <= 8 => ((8 => (11)) <= 18)))"
    );
    assert_eq!(t.to_vec(), vec![1, 2, 2, 3, 4, 5, 6, 8, 8, 11, 18]);
}

#[test]
fn bin_tree_collect_test() {
    let v = vec![18, 6, 3, 8, 5, 11, 1, 7, 3, 5, 2, 8, 10, 3, 6, 9, 3, 2];
    let mut t = BinTree::new();
    for x in v {
        t.push_sorted_maybe_rebalance(x, false);
    }
    assert_eq!(
        t.to_string(),
        "((((1 => (2 => (2))) <= 3 => ((3 => (3 => (3))) <= 5 => (5))) <= 6 => (((6) <= 7) <= 8 => ((8 => ((9) <= 10)) <= 11))) <= 18)"
    );
}

#[test]
fn bin_tree_unsafe_take_replace_swap_test() {
    let mut t = sample_tree();

    let value1 = std::mem::take(t.get_mut(&5).unwrap());
    assert_eq!(value1, 5);
    assert_eq!(t.to_string(), "(((3) <= 2) <= 1 => (4 => ((6) <= 0)))");

    let value2 = std::mem::replace(t.get_mut(&4).unwrap(), value1);
    assert_eq!(value2, 4);
    assert_eq!(t.to_string(), "(((3) <= 2) <= 1 => (5 => ((6) <= 0)))");

    assert_eq!(t.swap(&3, &1).is_ok(), true);
    assert_eq!(t.swap(&5, &6).is_ok(), true);
    assert_eq!(t.swap(&0, &6).is_ok(), true);
    assert_eq!(t.swap(&1, &1), Err(BinTreeError::SwapSame));
    assert_eq!(t.swap(&1, &10), Err(BinTreeError::SwapNotFound2));
    assert_eq!(t.swap(&10, &1), Err(BinTreeError::SwapNotFound1));
    assert_eq!(t.to_string(), "(((1) <= 2) <= 3 => (0 => ((5) <= 6)))");
    *t.get_mut(&0).unwrap() = 4;
    assert_eq!(t.to_vec(), vec![1, 2, 3, 4, 5, 6]);
}
