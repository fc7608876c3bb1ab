use bin_tree::{leaf, tree, BinTree, BinTreeError};

fn sample_tree() -> BinTree<i32> {
    tree(1, tree(2, leaf(3), ()), tree(4, (), tree(5, leaf(6), ())))
}

fn drain<T>(mut it: bin_tree::bin_tree::iter::BinTreeIntoIter<T>) -> Vec<T> {
    let mut v = Vec::new();
    while let Some(x) = it.next() {
        v.push(x);
    }
    v
}

fn copied(mut it: bin_tree::bin_tree::iter::BinTreeIter<'_, i32>) -> Vec<i32> {
    let mut v = Vec::new();
    while let Some(x) = it.next() {
        v.push(*x);
    }
    v
}

#[test]
fn test_eq_test() {
    let bt = BinTree::new_node(
        1,
        BinTree::new_node(2, BinTree::new_leaf(3), BinTree::new()),
        BinTree::new_node(
            4,
            BinTree::new(),
            BinTree::new_node(5, BinTree::new_leaf(6), BinTree::new()),
        ),
    );
    let t = sample_tree();
    assert_eq!(t, bt);
}

#[test]
fn test_basic_access_test() {
    let mut tree: BinTree<i32> = Default::default();
    assert_eq!(tree.is_empty(), true);
    tree = BinTree::new_leaf(10);
    assert_eq!(tree.is_leaf(), true);
    assert_eq!(tree.value().unwrap(), &10);
    *tree.left_mut().unwrap() = BinTree::new_leaf(20);
    assert_eq!(tree.is_leaf(), false);
    assert_eq!(tree.is_branch(), true);
    assert_eq!(tree.to_string(), "((20) <= 10)");
    *tree.left_mut().unwrap() = BinTree::new();
    *tree.right_mut().unwrap() = BinTree::new_leaf(30);
    assert_eq!(tree.is_empty(), false);
    assert_eq!(tree.is_leaf(), false);
    assert_eq!(tree.is_branch(), true);
    assert_eq!(tree.to_string(), "(10 => (30))");
    *tree.get_mut(&30).unwrap() = 40;
    assert_eq!(tree.to_string(), "(10 => (40))");
    let subtree = tree.get_tree_mut(&40).unwrap();
    *subtree = BinTree::new_leaf(50);
    assert_eq!(tree.to_string(), "(10 => (50))");
    *tree.get_sorted_mut(&50).unwrap() = 60;
    assert_eq!(tree.to_string(), "(10 => (60))");
    let subtree = tree.get_tree_sorted_mut(&60).unwrap();
    *subtree = BinTree::new_leaf(70);
    assert_eq!(tree.to_string(), "(10 => (70))");
}

#[test]
fn test_init_height() {
    let t = sample_tree();

    assert_eq!(
        format!("{:?}", t),
        "\
        BinTree { root: Some(BinTreeNode { value: 1, \
            left: BinTree { root: Some(BinTreeNode { value: 2, \
                left: BinTree { root: Some(BinTreeNode { value: 3, \
                    left: BinTree { root: None, height: 0 }, \
                    right: BinTree { root: None, height: 0 } }), \
                    height: 1 }, \
                right: BinTree { root: None, height: 0 } }), \
                height: 2 }, \
            right: BinTree { root: Some(BinTreeNode { value: 4, \
                left: BinTree { root: None, height: 0 }, \
                right: BinTree { root: Some(BinTreeNode { value: 5, \
                    left: BinTree { root: Some(BinTreeNode { value: 6, \
                        left: BinTree { root: None, height: 0 }, \
                        right: BinTree { root: None, height: 0 } }), \
                        height: 1 }, \
                    right: BinTree { root: None, height: 0 } }), \
                    height: 2 } }), \
                height: 3 } }), \
            height: 4 }"
    );
}

#[test]
fn test_iter_mut_test() {
    let mut t = sample_tree();
    let mut it = t.iter_mut();
    while let Some(i) = it.next() {
        if *i % 2 == 1 {
            *i += 10
        }
    }
    assert_eq!(t.to_string(), "(((13) <= 2) <= 11 => (4 => ((6) <= 15)))");
}

#[test]
fn test_into_iter_order_test() {
    let t = sample_tree();
    assert_eq!(drain(t.into_iter()), vec![3, 2, 1, 4, 6, 5]);
    let t = sample_tree();
    assert_eq!(drain(t.into_iter_dfs_in()), vec![3, 2, 1, 4, 6, 5]);
    let t = sample_tree();
    assert_eq!(drain(t.into_iter_dfs_pre()), vec![1, 2, 3, 4, 5, 6]);
    let t = sample_tree();
    assert_eq!(drain(t.into_iter_dfs_post()), vec![3, 2, 6, 5, 4, 1]);
    let t = sample_tree();
    assert_eq!(drain(t.into_iter_bfs()), vec![1, 2, 4, 3, 5, 6]);
}

#[test]
fn test_iter_order_test() {
    let t = sample_tree();
    assert_eq!(copied(t.iter()), vec![3, 2, 1, 4, 6, 5]);
    assert_eq!(copied(t.iter_dfs_in()), vec![3, 2, 1, 4, 6, 5]);
    assert_eq!(copied(t.iter_dfs_pre()), vec![1, 2, 3, 4, 5, 6]);
    assert_eq!(copied(t.iter_dfs_post()), vec![3, 2, 6, 5, 4, 1]);
    assert_eq!(copied(t.iter_bfs()), vec![1, 2, 4, 3, 5, 6]);
}

#[test]
fn test_iter_mut_order_test() {
    let mut t = sample_tree();
    let mut i = 0;
    let mut it = t.iter_mut();
    while let Some(e) = it.next() {
        i += 1;
        *e += i;
    }
    assert_eq!(t.to_vec(), vec![4, 4, 4, 8, 11, 11]);
    let mut it = t.iter_mut_dfs_in();
    while let Some(e) = it.next() {
        i += 1;
        *e += i;
    }
    assert_eq!(t.to_vec(), vec![11, 12, 13, 18, 22, 23]);
    let mut it = t.iter_mut_dfs_pre();
    while let Some(e) = it.next() {
        i += 1;
        *e += i;
    }
    assert_eq!(t.to_vec(), vec![26, 26, 26, 34, 40, 40]);
    let mut it = t.iter_mut_dfs_post();
    while let Some(e) = it.next() {
        i += 1;
        *e += i;
    }
    assert_eq!(t.to_vec(), vec![45, 46, 50, 57, 61, 62]);
    let mut it = t.iter_mut_bfs();
    while let Some(e) = it.next() {
        i += 1;
        *e += i;
    }
    assert_eq!(t.to_vec(), vec![73, 72, 75, 84, 91, 91]);
}

#[test]
fn test_push_sorted_test() {
    let mut t = BinTree::new();
    t.insert(4);
    t.insert(2);
    t.insert(8);
    t.insert(1);
    t.insert(2);
    assert_eq!(t.to_string(), "(((1) <= 2 => (2)) <= 4 => (8))");
    assert_eq!(t.to_vec(), vec![1, 2, 2, 4, 8]);
    t.extend_sorted(vec![18, 6, 3, 8, 5, 11]);
    assert_eq!(
        t.to_string(),
        "(((1) <= 2 => (2 => (3))) <= 4 => (((5) <= 6) <= 8 => ((8) <= 11 => (18))))"
    );
    assert_eq!(t.height(), 4);
    assert_eq!(t.to_vec(), vec![1, 2, 2, 3, 4, 5, 6, 8, 8, 11, 18]);
}

#[test]
fn test_push_sorted_unique_test() {
    let mut t = BinTree::new();
    assert_eq!(t.insert_unique(4), true);
    assert_eq!(t.insert_unique(2), true);
    assert_eq!(t.insert_unique(8), true);
    assert_eq!(t.insert_unique(1), true);
    assert_eq!(t.insert_unique(2), false);
    assert_eq!(t.to_string(), "(((1) <= 2) <= 4 => (8))");
    assert_eq!(t.to_vec(), vec![1, 2, 4, 8]);
    assert_eq!(t.extend_sorted_unique(vec![18, 6, 3, 8, 5, 11]), 5);
    assert_eq!(
        t.to_string(),
        "(((1) <= 2 => (3)) <= 4 => (((5) <= 6) <= 8 => ((11) <= 18)))"
    );
    assert_eq!(t.to_vec(), vec![1, 2, 3, 4, 5, 6, 8, 11, 18]);
}

#[test]
fn test_push_right_test() {
    let mut t = BinTree::new();
    t.push_right(4);
    t.push_right(2);
    t.push_right(8);
    t.push_right(1);
    assert_eq!(t.to_string(), "(4 => (2 => (8 => (1))))");
    assert_eq!(t.to_vec(), vec![4, 2, 8, 1]);
    t.extend_right(vec![18, 6, 3, 5, 11]);
    assert_eq!(
        t.to_string(),
        "(4 => (2 => (8 => (1 => (18 => (6 => (3 => (5 => (11)))))))))"
    );
    assert_eq!(t.to_vec(), vec![4, 2, 8, 1, 18, 6, 3, 5, 11]);
}

#[test]
fn test_push_left_test() {
    let mut t = BinTree::new();
    t.push_left(4);
    t.push_left(2);
    t.push_left(8);
    t.push_left(1);
    assert_eq!(t.to_string(), "((((1) <= 8) <= 2) <= 4)");
    assert_eq!(t.to_vec(), vec![1, 8, 2, 4]);
    t.extend_left(vec![18, 6, 3, 5, 11]);
    assert_eq!(
        t.to_string(),
        "(((((((((11) <= 5) <= 3) <= 6) <= 18) <= 1) <= 8) <= 2) <= 4)"
    );
    assert_eq!(t.to_vec(), vec![11, 5, 3, 6, 18, 1, 8, 2, 4]);
}

#[test]
fn test_pop_test() {
    let mut t = sample_tree();
    assert_eq!(t.to_string(), "(((3) <= 2) <= 1 => (4 => ((6) <= 5)))");
    assert_eq!(t.pop(), Some(1));
    assert_eq!(t.to_string(), "((3) <= 2 => (4 => ((6) <= 5)))");
    assert_eq!(t.pop(), Some(2));
    assert_eq!(t.to_string(), "(3 => (4 => ((6) <= 5)))");
    assert_eq!(t.pop(), Some(3));
    assert_eq!(t.to_string(), "(4 => (5 => (6)))");
    assert_eq!(t.pop(), Some(4));
    assert_eq!(t.to_string(), "(5 => (6))");
    assert_eq!(t.pop(), Some(5));
    assert_eq!(t.to_string(), "(6)");
    assert_eq!(t.pop(), Some(6));
    assert_eq!(t.to_string(), "()");
    assert_eq!(t.pop(), None);
}

fn remove_all_sorted() {
    let mut t = BinTree::new();
    let v = vec![18, 6, 3, 8, 5, 11, 1, 7, 3, 5, 2, 8, 10, 3, 6, 9, 3, 2];
    t.extend_sorted(v);
    let v = t.to_vec();
    for i in v {
        assert_eq!(t.remove_sorted(&i), Some(i));
    }
    assert_eq!(t.to_string(), "()");
}

#[test]
fn test_remove_sorted_test() {
    remove_all_sorted();
}

#[test]
fn test_remove_sorted_test_10000() {
    for _ in 0..10000 {
        remove_all_sorted();
    }
}

#[test]
fn test_push_pop_test() {
    let mut t = BinTree::new();
    for i in 1..10 {
        t.push_left(i)
    }
    assert_eq!(t.to_vec(), (1..10).rev().collect::<Vec<_>>());
    for i in (1..10).rev() {
        assert_eq!(t.pop_left().unwrap(), i);
    }

    let mut t = BinTree::new();
    for i in 1..10 {
        t.push_right(i)
    }
    assert_eq!(t.to_vec(), (1..10).collect::<Vec<_>>());
    for i in (1..10).rev() {
        assert_eq!(t.pop_right().unwrap(), i);
    }

    let mut t = BinTree::new();
    for i in 1..10 {
        t.push_left(i)
    }
    assert_eq!(t.to_vec(), (1..10).rev().collect::<Vec<_>>());
    for i in 1..10 {
        assert_eq!(t.pop_right().unwrap(), i);
    }

    let mut t = BinTree::new();
    for i in 1..10 {
        t.push_right(i)
    }
    assert_eq!(t.to_vec(), (1..10).collect::<Vec<_>>());
    for i in 1..10 {
        assert_eq!(t.pop_left().unwrap(), i);
    }
}

#[test]
fn test_ordered_compare_test() {
    let mut t = BinTree::new();
    let cmp = &|s1: &&str, s2: &&str| s1.len().partial_cmp(&s2.len());
    t.insert_to_key_cmp("hello there", |i| i, cmp, true, true);
    t.insert_to_key_cmp("hello there!", |i| i, cmp, true, true);
    t.insert_to_key_cmp("hello my name is Rusty", |i| i, cmp, true, true);
    // "hello world!" replaces "hello there!" because same length...
    assert_eq!(
        t.insert_to_key_cmp("hello world!", |i| i, cmp, true, true),
        Some("hello there!")
    );
    assert_eq!(t.insert_to_key_cmp("hello", |i| i, cmp, true, true), None);
    assert_eq!(
        t.to_vec(),
        vec!["hello", "hello there", "hello world!", "hello my name is Rusty"]
    );
    let mut it = t.iter();
    while let Some(s) = it.next() {
        assert_eq!(t.get_sorted_to_key_cmp(s, &|x| x, cmp), Some(s));
    }
    assert_eq!(
        t.remove_sorted_to_key_cmp(&"hello world!", |x| x, cmp, true),
        Some("hello world!")
    );
    assert_eq!(t.to_vec(), vec!["hello", "hello there", "hello my name is Rusty"]);
    let s = t.get_mut_sorted_to_key_cmp(&"hello", &|x| x, cmp).unwrap();
    assert_eq!(s, &"hello");
    *s = "do you like the borrow checker?";
    // The tree is not sorted anymore because we used a mut reference to change a value
    // without using a normal insertion that preserves order.
    assert_eq!(
        t.to_vec(),
        vec!["do you like the borrow checker?", "hello there", "hello my name is Rusty"]
    );
}

#[test]
fn test_test_height() {
    let mut t = BinTree::new();
    assert_eq!(t.height(), 0);

    t.insert_unique(1);
    assert_eq!(t.height(), 1);

    t.extend_sorted_unique(vec![
        5, 3, 7, 38, 9, 20, 4, 5, 6, 17, 24, 3, 1, 12, 3, 24, 5, 6, 7, 2, 4, 6, 16,
    ]);
    assert_eq!(t.height(), 5);
    assert_eq!(
        format!("{:?}", t),
        "\
        BinTree { root: Some(BinTreeNode { value: 7, \
            left: BinTree { root: Some(BinTreeNode { value: 3, \
                left: BinTree { root: Some(BinTreeNode { value: 1, \
                    left: BinTree { root: None, height: 0 }, \
                    right: BinTree { root: Some(BinTreeNode { value: 2, \
                        left: BinTree { root: None, height: 0 }, \
                        right: BinTree { root: None, height: 0 } }), \
                        height: 1 } }), \
                    height: 2 }, \
                right: BinTree { root: Some(BinTreeNode { value: 5, \
                    left: BinTree { root: Some(BinTreeNode { value: 4, \
                        left: BinTree { root: None, height: 0 }, \
                        right: BinTree { root: None, height: 0 } }), \
                        height: 1 }, \
                    right: BinTree { root: Some(BinTreeNode { value: 6, \
                        left: BinTree { root: None, height: 0 }, \
                        right: BinTree { root: None, height: 0 } }), \
                        height: 1 } }), \
                    height: 2 } }), \
                height: 3 }, \
            right: BinTree { root: Some(BinTreeNode { value: 20, \
                left: BinTree { root: Some(BinTreeNode { value: 12, \
                    left: BinTree { root: Some(BinTreeNode { value: 9, \
                        left: BinTree { root: None, height: 0 }, \
                        right: BinTree { root: None, height: 0 } }), \
                        height: 1 }, \
                    right: BinTree { root: Some(BinTreeNode { value: 17, \
                        left: BinTree { root: Some(BinTreeNode { value: 16, \
                            left: BinTree { root: None, height: 0 }, \
                            right: BinTree { root: None, height: 0 } }), \
                            height: 1 }, \
                        right: BinTree { root: None, height: 0 } }), \
                        height: 2 } }), \
                    height: 3 }, \
                right: BinTree { root: Some(BinTreeNode { value: 38, \
                    left: BinTree { root: Some(BinTreeNode { value: 24, \
                        left: BinTree { root: None, height: 0 }, \
                        right: BinTree { root: None, height: 0 } }), \
                        height: 1 }, \
                    right: BinTree { root: None, height: 0 } }), \
                    height: 2 } }), \
                height: 4 } }), \
            height: 5 }\
    "
    );
    assert_eq!(
        t.to_vec(),
        vec![1, 2, 3, 4, 5, 6, 7, 9, 12, 16, 17, 20, 24, 38]
    );
}

#[test]
fn test_test_rebalance_off_on() {
    let s = "This is a very long string for my TEST!";
    let mut t;

    t = BinTree::new();
    for c in s.chars() {
        t.insert_to_key_cmp(c, |c| c, &char::partial_cmp, false, true);
    }
    assert_eq!(t.height(), 9);
    assert_eq!(
        t.to_string(),
        "(\
            (' ' => (('!') <= 'E' => ('S'))) \
        <= 'T' => \
            (('a' => ('e' => (('f') <= 'g'))) <= 'h' => ('i' => \
                ((('l' => ((('m') <= 'n') <= 'o')) <= 'r') <= 's' => (('t') <= 'v' => ('y')))))\
        )"
    );

    t = BinTree::new();
    for c in s.chars() {
        t.insert_to_key_cmp(c, |c| c, &char::partial_cmp, true, true);
    }
    assert_eq!(t.height(), 5);
    assert_eq!(
        t.to_string(),
        "(\
            (((' ' => ('!')) <= 'E' => (('S') <= 'T' => ('a'))) <= 'e' => (('f') <= 'g')) \
        <= 'h' => \
            (((('i') <= 'l' => ('m')) <= 'n' => ('o' => ('r'))) <= 's' => (('t') <= 'v' => ('y')))\
        )"
    );
}

#[test]
fn pop_sorted_height_test() {
    let s = "This is a very long string for my TEST!";
    let mut t;

    t = BinTree::new();
    t.extend_sorted_unique(s.chars().collect());
    assert_eq!(t.len(), 20);
    assert_eq!(String::from_iter(t.to_vec().iter()), " !ESTaefghilmnorstvy");
    assert_eq!(t.height(), 5);

    assert_eq!(t.recalculate_heights(), false);
    assert_eq!(t.pop_sorted(true), Some('h'));
    assert_eq!(t.recalculate_heights(), false);
    assert_eq!(t.pop_sorted(true), Some('i'));
    assert_eq!(t.recalculate_heights(), false);
    assert_eq!(t.pop_sorted(true), Some('l'));
    assert_eq!(t.recalculate_heights(), false);
    assert_eq!(t.pop_sorted(true), Some('m'));
    assert_eq!(t.recalculate_heights(), false);

    for _ in 0..t.len() {
        assert_eq!(t.pop_sorted(true).is_some(), true);
        assert_eq!(t.recalculate_heights(), false);
    }

    assert_eq!(t.is_empty(), true);
}

#[test]
fn remove_sorted_height_test() {
    let s = "This is a very long string for my TEST!";
    let mut t;

    t = BinTree::new();
    t.extend_sorted_unique(s.chars().collect());
    assert_eq!(t.len(), 20);
    assert_eq!(String::from_iter(t.to_vec().iter()), " !ESTaefghilmnorstvy");
    assert_eq!(t.height(), 5);

    assert_eq!(t.recalculate_heights(), false);
    assert_eq!(t.remove_sorted(&'r'), Some('r'));
    assert_eq!(t.recalculate_heights(), false);

    for c in t.to_vec() {
        assert_eq!(t.remove_sorted(&c), Some(c));
        assert_eq!(t.recalculate_heights(), false);
    }

    assert_eq!(t.is_empty(), true);
}

#[test]
fn test_collect_test() {
    let v = vec![18, 6, 3, 8, 5, 11, 1, 7, 3, 5, 2, 8, 10, 3, 6, 9, 3, 2];
    let t = BinTree::from_iter(v);
    assert_eq!(
        t.to_string(),
        "((((1) <= 2 => (2)) <= 3 => (((3) <= 3 => (3)) <= 5 => (5))) <= 6 => (((6) <= 7 => (8)) <= 8 => (((9) <= 10) <= 11 => (18))))"
    );
    assert_eq!(t.height(), 5);
}

#[test]
fn test_take_replace_swap_test() {
    let mut t = sample_tree();

    let value1 = std::mem::take(t.get_mut(&5).unwrap());
    assert_eq!(value1, 5);
    assert_eq!(t.to_string(), "(((3) <= 2) <= 1 => (4 => ((6) <= 0)))");

    let value2 = std::mem::replace(t.get_mut(&4).unwrap(), value1);
    assert_eq!(value2, 4);
    assert_eq!(t.to_string(), "(((3) <= 2) <= 1 => (5 => ((6) <= 0)))");

    assert_eq!(t.swap(&3, &1).is_ok(), true);
    assert_eq!(t.swap(&5, &6).is_ok(), true);
    assert_eq!(t.swap(&0, &6).is_ok(), true);
    assert_eq!(t.swap(&1, &1), Err(BinTreeError::SwapSame));
    assert_eq!(t.swap(&1, &10), Err(BinTreeError::SwapNotFound2));
    assert_eq!(t.swap(&10, &1), Err(BinTreeError::SwapNotFound1));
    assert_eq!(t.to_string(), "(((1) <= 2) <= 3 => (0 => ((5) <= 6)))");
    *t.get_mut(&0).unwrap() = 4;
    assert_eq!(t.to_vec(), vec![1, 2, 3, 4, 5, 6]);
}
