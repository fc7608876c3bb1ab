use bin_tree::{leaf, tree, BinTree};

fn sample_tree() -> BinTree<i32> {
    tree(1, tree(2, leaf(3), ()), tree(4, (), tree(5, leaf(6), ())))
}

#[test]
fn bin_tree_utils_push_sorted_test() {
    let mut t = BinTree::new();
    t.push_sorted(4);
    t.push_sorted(2);
    t.push_sorted(8);
    t.push_sorted(1);
    t.push_sorted(2);
    assert_eq!(t.to_string(), "(((1) <= 2 => (2)) <= 4 => (8))");
    assert_eq!(t.to_vec(), vec![1, 2, 2, 4, 8]);
    t.extend_sorted(vec![18, 6, 3, 8, 5, 11]);
    assert_eq!(
        t.to_string(),
        "(((1) <= 2 => (2 => (3))) <= 4 => (((5) <= 6) <= 8 => ((8) <= 11 => (18))))"
    );
    assert_eq!(t.height(), 4);
    assert_eq!(t.to_vec(), vec![1, 2, 2, 3, 4, 5, 6, 8, 8, 11, 18]);
}

#[test]
fn bin_tree_utils_push_sorted_unique_test() {
    let mut t = BinTree::new();
    assert_eq!(t.push_sorted_unique(4), true);
    assert_eq!(t.push_sorted_unique(2), true);
    assert_eq!(t.push_sorted_unique(8), true);
    assert_eq!(t.push_sorted_unique(1), true);
    assert_eq!(t.push_sorted_unique(2), false);
    assert_eq!(t.to_string(), "(((1) <= 2) <= 4 => (8))");
    assert_eq!(t.to_vec(), vec![1, 2, 4, 8]);
    assert_eq!(t.extend_sorted_unique(vec![18, 6, 3, 8, 5, 11]), 5);
    assert_eq!(
        t.to_string(),
        "(((1) <= 2 => (3)) <= 4 => (((5) <= 6) <= 8 => ((11) <= 18)))"
    );
    assert_eq!(t.to_vec(), vec![1, 2, 3, 4, 5, 6, 8, 11, 18]);
}

#[test]
fn bin_tree_utils_push_right_test() {
    let mut t = BinTree::new();
    t.push_right(4);
    t.push_right(2);
    t.push_right(8);
    t.push_right(1);
    assert_eq!(t.to_string(), "(4 => (2 => (8 => (1))))");
    assert_eq!(t.to_vec(), vec![4, 2, 8, 1]);
    t.extend_right(vec![18, 6, 3, 5, 11]);
    assert_eq!(
        t.to_string(),
        "(4 => (2 => (8 => (1 => (18 => (6 => (3 => (5 => (11)))))))))"
    );
    assert_eq!(t.to_vec(), vec![4, 2, 8, 1, 18, 6, 3, 5, 11]);
}

#[test]
fn bin_tree_utils_push_left_test() {
    let mut t = BinTree::new();
    t.push_left(4);
    t.push_left(2);
    t.push_left(8);
    t.push_left(1);
    assert_eq!(t.to_string(), "((((1) <= 8) <= 2) <= 4)");
    assert_eq!(t.to_vec(), vec![1, 8, 2, 4]);
    t.extend_left(vec![18, 6, 3, 5, 11]);
    assert_eq!(
        t.to_string(),
        "(((((((((11) <= 5) <= 3) <= 6) <= 18) <= 1) <= 8) <= 2) <= 4)"
    );
    assert_eq!(t.to_vec(), vec![11, 5, 3, 6, 18, 1, 8, 2, 4]);
}

#[test]
fn bin_tree_utils_pop_test() {
    let mut t = sample_tree();
    assert_eq!(t.to_string(), "(((3) <= 2) <= 1 => (4 => ((6) <= 5)))");
    assert_eq!(t.pop(), Some(1));
    assert_eq!(t.to_string(), "((3) <= 2 => (4 => ((6) <= 5)))");
    assert_eq!(t.pop(), Some(2));
    assert_eq!(t.to_string(), "(3 => (4 => ((6) <= 5)))");
    assert_eq!(t.pop(), Some(3));
    assert_eq!(t.to_string(), "(4 => (5 => (6)))");
    assert_eq!(t.pop(), Some(4));
    assert_eq!(t.to_string(), "(5 => (6))");
    assert_eq!(t.pop(), Some(5));
    assert_eq!(t.to_string(), "(6)");
    assert_eq!(t.pop(), Some(6));
    assert_eq!(t.to_string(), "()");
    assert_eq!(t.pop(), None);
}

#[test]
fn bin_tree_utils_push_pop_test() {
    let mut t = BinTree::new();
    for i in 1..10 {
        t.push_left(i)
    }
    assert_eq!(t.to_vec(), (1..10).rev().collect::<Vec<_>>());
    for i in (1..10).rev() {
        assert_eq!(t.pop_left().unwrap(), i);
    }

    let mut t = BinTree::new();
    for i in 1..10 {
        t.push_right(i)
    }
    assert_eq!(t.to_vec(), (1..10).collect::<Vec<_>>());
    for i in (1..10).rev() {
        assert_eq!(t.pop_right().unwrap(), i);
    }

    let mut t = BinTree::new();
    for i in 1..10 {
        t.push_left(i)
    }
    assert_eq!(t.to_vec(), (1..10).rev().collect::<Vec<_>>());
    for i in 1..10 {
        assert_eq!(t.pop_right().unwrap(), i);
    }

    let mut t = BinTree::new();
    for i in 1..10 {
        t.push_right(i)
    }
    assert_eq!(t.to_vec(), (1..10).collect::<Vec<_>>());
    for i in 1..10 {
        assert_eq!(t.pop_left().unwrap(), i);
    }
}

fn remove_all_sorted() {
    let mut t = BinTree::new();
    let v = vec![18, 6, 3, 8, 5, 11, 1, 7, 3, 5, 2, 8, 10, 3, 6, 9, 3, 2];
    t.extend_sorted(v);
    let v = t.to_vec();
    for i in v {
        assert_eq!(t.remove_sorted(&i), Some(i));
    }
    assert_eq!(t.to_string(), "()");
}

#[test]
fn bin_tree_utils_remove_sorted_test() {
    remove_all_sorted();
}

#[test]
fn bin_tree_utils_remove_sorted_test_10000() {
    for _ in 0..10000 {
        remove_all_sorted();
    }
}

#[test]
fn bin_tree_utils_collect_test() {
    let v = vec![18, 6, 3, 8, 5, 11, 1, 7, 3, 5, 2, 8, 10, 3, 6, 9, 3, 2];
    let t = BinTree::from_iter(v);
    assert_eq!(
        t.to_string(),
        "((((1) <= 2 => (2)) <= 3 => (((3) <= 3 => (3)) <= 5 => (5))) <= 6 => (((6) <= 7 => (8)) <= 8 => (((9) <= 10) <= 11 => (18))))"
    );
    assert_eq!(t.height(), 5);
}

#[test]
fn bin_tree_utils_ordered_compare_test() {
    let mut t = BinTree::new();
    let cmp = &|s1: &&str, s2: &&str| s1.len().partial_cmp(&s2.len());
    t.push_sorted_unique_cmp("hello there", cmp);
    t.push_sorted_unique_cmp("hello there!", cmp);
    t.push_sorted_unique_cmp("hello my name is Rusty", cmp);
    // "hello world!" replaces "hello there!" because same length...
    assert_eq!(t.push_sorted_unique_cmp("hello world!", cmp), Some("hello there!"));
    assert_eq!(t.push_sorted_unique_cmp("hello", cmp), None);
    assert_eq!(
        t.to_vec(),
        vec!["hello", "hello there", "hello world!", "hello my name is Rusty"]
    );
    let mut it = t.iter();
    while let Some(s) = it.next() {
        assert_eq!(t.get_sorted_with_compare(s, cmp), Some(s));
    }
    assert_eq!(
        t.remove_sorted_with_compare(&"hello world!", cmp),
        Some("hello world!")
    );
    assert_eq!(t.to_vec(), vec!["hello", "hello there", "hello my name is Rusty"]);
    let s = t.get_sorted_mut_with_compare(&"hello", cmp).unwrap();
    assert_eq!(s, &"hello");
    *s = "do you like the borrow checker?";
    // The tree is not sorted anymore because we used a mut reference to change a value
    // without using a normal insertion that preserves order.
    assert_eq!(
        t.to_vec(),
        vec!["do you like the borrow checker?", "hello there", "hello my name is Rusty"]
    );
}

#[test]
fn bin_tree_utils_test_height() {
    let mut t = BinTree::new();
    assert_eq!(t.height(), 0);

    t.push_sorted_unique(1);
    assert_eq!(t.height(), 1);

    t.extend_sorted_unique(vec![
        5, 3, 7, 38, 9, 20, 4, 5, 6, 17, 24, 3, 1, 12, 3, 24, 5, 6, 7, 2, 4, 6, 16,
    ]);
    assert_eq!(t.height(), 5);
    assert_eq!(
        format!("{:?}", t),
        "\
        BinTree { root: Some(BinTreeNode { value: 7, \
            left: BinTree { root: Some(BinTreeNode { value: 3, \
                left: BinTree { root: Some(BinTreeNode { value: 1, \
                    left: BinTree { root: None, height: 0 }, \
                    right: BinTree { root: Some(BinTreeNode { value: 2, \
                        left: BinTree { root: None, height: 0 }, \
                        right: BinTree { root: None, height: 0 } }), \
                        height: 1 } }), \
                    height: 2 }, \
                right: BinTree { root: Some(BinTreeNode { value: 5, \
                    left: BinTree { root: Some(BinTreeNode { value: 4, \
                        left: BinTree { root: None, height: 0 }, \
                        right: BinTree { root: None, height: 0 } }), \
                        height: 1 }, \
                    right: BinTree { root: Some(BinTreeNode { value: 6, \
                        left: BinTree { root: None, height: 0 }, \
                        right: BinTree { root: None, height: 0 } }), \
                        height: 1 } }), \
                    height: 2 } }), \
                height: 3 }, \
            right: BinTree { root: Some(BinTreeNode { value: 20, \
                left: BinTree { root: Some(BinTreeNode { value: 12, \
                    left: BinTree { root: Some(BinTreeNode { value: 9, \
                        left: BinTree { root: None, height: 0 }, \
                        right: BinTree { root: None, height: 0 } }), \
                        height: 1 }, \
                    right: BinTree { root: Some(BinTreeNode { value: 17, \
                        left: BinTree { root: Some(BinTreeNode { value: 16, \
                            left: BinTree { root: None, height: 0 }, \
                            right: BinTree { root: None, height: 0 } }), \
                            height: 1 }, \
                        right: BinTree { root: None, height: 0 } }), \
                        height: 2 } }), \
                    height: 3 }, \
                right: BinTree { root: Some(BinTreeNode { value: 38, \
                    left: BinTree { root: Some(BinTreeNode { value: 24, \
                        left: BinTree { root: None, height: 0 }, \
                        right: BinTree { root: None, height: 0 } }), \
                        height: 1 }, \
                    right: BinTree { root: None, height: 0 } }), \
                    height: 2 } }), \
                height: 4 } }), \
            height: 5 }\
    "
    );
    assert_eq!(
        t.to_vec(),
        vec![1, 2, 3, 4, 5, 6, 7, 9, 12, 16, 17, 20, 24, 38]
    );
}

#[test]
fn bin_tree_utils_test_rebalance_off_on() {
    let s = "This is a very long string for my TEST!";
    let mut t;

    t = BinTree::new();
    for c in s.chars() {
        t.push_sorted_unique_to_key_cmp(c, &|c| c, &char::partial_cmp, false);
    }
    assert_eq!(t.height(), 9);
    assert_eq!(
        t.to_string(),
        "(\
            (' ' => (('!') <= 'E' => ('S'))) \
        <= 'T' => \
            (('a' => ('e' => (('f') <= 'g'))) <= 'h' => ('i' => \
                ((('l' => ((('m') <= 'n') <= 'o')) <= 'r') <= 's' => (('t') <= 'v' => ('y')))))\
        )"
    );

    t = BinTree::new();
    for c in s.chars() {
        t.push_sorted_unique_to_key_cmp(c, &|c| c, &char::partial_cmp, true);
    }
    assert_eq!(t.height(), 5);
    assert_eq!(
        t.to_string(),
        "(\
            (((' ' => ('!')) <= 'E' => (('S') <= 'T' => ('a'))) <= 'e' => (('f') <= 'g')) \
        <= 'h' => \
            (((('i') <= 'l' => ('m')) <= 'n' => ('o' => ('r'))) <= 's' => (('t') <= 'v' => ('y')))\
        )"
    );
}
