use bin_tree::bin_tree::formatted::{
    list_string, pair_string, FormattedBinTree, FormattedBinTreeType,
};
use bin_tree::bin_tree::iter::BinTreeTraversal;
use bin_tree::bin_tree::iter::DepthFirstOrder;
use bin_tree::{leaf, tree, BinTree, BinTreeError, BinTreeMap, BinTreeOrderedSet};

fn sample_tree() -> BinTree<i32> {
    tree(1, tree(2, leaf(3), ()), tree(4, (), tree(5, leaf(6), ())))
}

fn is_sorted(v: &[i32]) -> bool {
    v.windows(2).all(|w| w[0] <= w[1])
}

/// A fixed, scrambled order of the positions `0..n`.
fn scrambled(n: usize, step: usize) -> Vec<usize> {
    let mut order = Vec::new();
    let mut i = 0;
    for _ in 0..n {
        i = (i + step) % n;
        order.push(i);
    }
    order
}

#[test]
fn empty_tree_has_nothing() {
    let mut t: BinTree<i32> = BinTree::new();
    assert!(t.is_empty());
    assert!(!t.is_leaf());
    assert!(!t.is_branch());
    assert_eq!(t.height(), 0);
    assert_eq!(t.balance(), 0);
    assert!(t.is_balanced());
    assert_eq!(t.value(), None);
    assert!(t.left().is_none());
    assert!(t.right().is_none());
    assert!(t.node().is_none());
    assert!(t.value_mut().is_none());
    assert!(t.left_mut().is_none());
    assert!(t.right_mut().is_none());
    assert!(t.node_mut().is_none());
    assert_eq!(t.update_height(), 0);
    assert_eq!(t.len(), 0);
    assert_eq!(t.to_vec(), Vec::<i32>::new());
    assert_eq!(t.to_string(), "()");
    assert_eq!(t.pop(), None);
    assert_eq!(t.pop_left(), None);
    assert_eq!(t.pop_right(), None);
    assert_eq!(t.pop_sorted(true), None);
    assert!(t.pop_tree().is_none());
    assert!(t.pop_tree_sorted(false).is_none());
    assert!(t.detach_left_min_tree_sorted(true).is_none());
    assert_eq!(t.remove(&1), None);
    assert_eq!(t.remove_sorted(&1), None);
    assert!(t.min_tree_mut().is_none());
    assert!(t.max_tree_mut().is_none());
    assert!(!t.set_left(BinTree::new()));
    assert!(!t.set_right(BinTree::new()));
    assert!(BinTree::<i32>::new().into_value().is_none());
    assert!(BinTree::<i32>::new().into_left().is_none());
    assert!(BinTree::<i32>::new().into_right().is_none());
    assert!(BinTree::<i32>::new().into_node().is_none());
    t.rotate_left();
    t.rotate_right();
    t.rotate_left_right();
    t.rotate_right_left();
    t.rebalance();
    assert!(t.is_empty());
    assert_eq!(t.recalculate_heights(), false);
    assert_eq!(t.recalculate_heights_rec(true, false, true), (0, false));
}

#[test]
fn constructors_compute_heights() {
    let l = BinTree::new_leaf(7);
    assert_eq!(l.height(), 1);
    assert!(l.is_leaf());
    let n = BinTree::new_node(5, BinTree::new_leaf(3), BinTree::new());
    assert_eq!(n.height(), 2);
    assert_eq!(n.balance(), 1);
    assert!(n.is_branch());
    let m = BinTree::new_node(9, BinTree::new(), n);
    assert_eq!(m.height(), 3);
    assert_eq!(m.balance(), -2);
    assert!(!m.is_balanced());
    assert_eq!(BinTree::<i32>::from(()), BinTree::new());
    assert_eq!(BinTree::<i32>::default(), BinTree::new());
    assert_eq!(leaf(4), BinTree::new_leaf(4));
}

#[test]
fn setters_and_consumers() {
    let mut t = BinTree::new();
    t.set_value(3);
    assert_eq!(t.to_string(), "(3)");
    assert_eq!(t.height(), 1);
    t.set_value(4);
    assert_eq!(t.to_string(), "(4)");
    assert!(t.set_left(leaf(1)));
    assert!(t.set_right(leaf(9)));
    assert_eq!(t.to_string(), "((1) <= 4 => (9))");
    assert_eq!(t.height(), 1);
    assert_eq!(t.update_height(), 2);
    assert_eq!(t.height(), 2);
    t.set_node(5, leaf(2), BinTree::new());
    assert_eq!(t.to_string(), "((2) <= 5)");
    let mut e = BinTree::new();
    e.set_node(5, leaf(2), BinTree::new());
    assert_eq!(e.height(), 2);
    e.set(leaf(8));
    assert_eq!(e, leaf(8));
    assert_eq!(sample_tree().into_value(), Some(1));
    assert_eq!(sample_tree().into_left().unwrap().to_string(), "((3) <= 2)");
    assert_eq!(
        sample_tree().into_right().unwrap().to_string(),
        "(4 => ((6) <= 5))"
    );
    let c = sample_tree().clone();
    assert_eq!(c, sample_tree());
}

#[test]
fn single_rotations() {
    let mut t = tree(3, tree(2, leaf(1), ()), ());
    t.rotate_right();
    assert_eq!(t.to_string(), "((1) <= 2 => (3))");
    assert_eq!(t.height(), 2);
    assert_eq!(t.right().unwrap().height(), 1);
    let mut t = tree(1, (), tree(2, (), leaf(3)));
    t.rotate_left();
    assert_eq!(t.to_string(), "((1) <= 2 => (3))");
    assert_eq!(t.height(), 2);
    let mut t = tree(4, tree(2, leaf(1), leaf(3)), leaf(5));
    t.rotate_right();
    assert_eq!(t.to_string(), "((1) <= 2 => ((3) <= 4 => (5)))");
    assert_eq!(t.to_vec(), vec![1, 2, 3, 4, 5]);
    assert_eq!(t.height(), 3);
}

#[test]
fn double_rotations() {
    let mut t = tree(3, tree(1, (), leaf(2)), ());
    t.rotate_left_right();
    assert_eq!(t.to_string(), "((1) <= 2 => (3))");
    assert_eq!(t.height(), 2);
    let mut t = tree(1, (), tree(3, leaf(2), ()));
    t.rotate_right_left();
    assert_eq!(t.to_string(), "((1) <= 2 => (3))");
    assert_eq!(t.height(), 2);
}

#[test]
fn rebalance_follows_the_table() {
    // left-heavy, left child leaning left or even: one rotation to the right
    let mut t = tree(3, tree(2, leaf(1), ()), ());
    t.rebalance();
    assert_eq!(t.to_string(), "((1) <= 2 => (3))");
    let mut t = tree(4, tree(2, leaf(1), leaf(3)), ());
    t.rebalance();
    assert_eq!(t.to_string(), "((1) <= 2 => ((3) <= 4))");
    // left-heavy, left child leaning right: left rotation below, then right
    let mut t = tree(3, tree(1, (), leaf(2)), ());
    t.rebalance();
    assert_eq!(t.to_string(), "((1) <= 2 => (3))");
    // right-heavy, right child leaning right or even: one rotation to the left
    let mut t = tree(1, (), tree(2, (), leaf(3)));
    t.rebalance();
    assert_eq!(t.to_string(), "((1) <= 2 => (3))");
    let mut t = tree(1, (), tree(3, leaf(2), leaf(4)));
    t.rebalance();
    assert_eq!(t.to_string(), "((1 => (2)) <= 3 => (4))");
    // right-heavy, right child leaning left: right rotation below, then left
    let mut t = tree(1, (), tree(3, leaf(2), ()));
    t.rebalance();
    assert_eq!(t.to_string(), "((1) <= 2 => (3))");
    // within bounds: nothing happens
    let mut t = tree(2, leaf(1), ());
    t.rebalance();
    assert_eq!(t.to_string(), "((1) <= 2)");
    assert!(t.is_balanced());
}

#[test]
fn in_order_stays_sorted() {
    let mut t = BinTree::new();
    let items = [41, 7, 19, 3, 3, 88, 64, 7, 12, 55, 1, 99, 41, 27];
    for x in items {
        t.insert(x);
        assert!(is_sorted(&t.to_vec()));
    }
    assert_eq!(t.len(), items.len());
    for x in [7, 41, 1000, 3, 99] {
        t.remove_sorted(&x);
        assert!(is_sorted(&t.to_vec()));
    }
    assert_eq!(t.to_vec(), vec![1, 3, 7, 12, 19, 27, 41, 55, 64, 88]);
    t.pop_sorted(true);
    assert!(is_sorted(&t.to_vec()));
    t.detach_left_min_tree_sorted(true);
    assert!(is_sorted(&t.to_vec()));
    let mut u = BinTree::new();
    for x in items {
        u.insert_unique(x);
        assert!(is_sorted(&u.to_vec()));
    }
    assert_eq!(u.to_vec(), vec![1, 3, 7, 12, 19, 27, 41, 55, 64, 88, 99]);
}

#[test]
fn rebalanced_operations_keep_the_balance() {
    let mut t = BinTree::new();
    for x in 0..200 {
        t.insert((x * 37) % 101);
        assert!(t.is_balanced());
    }
    for x in 0..101 {
        t.remove_sorted(&((x * 53) % 101));
        assert!(t.is_balanced());
    }
    let mut t = BinTree::new();
    for x in 0..64 {
        t.insert_unique(x);
        assert!(t.is_balanced());
    }
    assert_eq!(t.height(), 7);
    let mut u = BinTree::new();
    for x in 0..64 {
        u.insert_to_key_cmp(x, |i| i, i32::partial_cmp, false, false);
    }
    assert_eq!(u.height(), 64);
    assert!(!u.is_balanced());
}

#[test]
fn heights_need_no_repair_after_sorted_operations() {
    let mut t = BinTree::new();
    for x in 0..120 {
        t.insert((x * 29) % 97);
        assert_eq!(t.recalculate_heights(), false);
    }
    for x in 0..97 {
        t.remove_sorted(&((x * 31) % 97));
        assert_eq!(t.recalculate_heights(), false);
    }
    let mut u = BinTree::new();
    for x in 0..40 {
        u.insert_to_key_cmp((x * 7) % 41, |i| i, i32::partial_cmp, false, true);
        assert_eq!(u.recalculate_heights(), false);
    }
    for x in 0..41 {
        u.remove_sorted_to_key_cmp(&x, |i| i, i32::partial_cmp, false);
        assert_eq!(u.recalculate_heights(), false);
    }
}

#[test]
fn recalculation_repairs_stale_heights() {
    let mut t = sample_tree();
    *t.left_mut().unwrap() = BinTree::new();
    assert_eq!(t.height(), 4);
    assert_eq!(t.recalculate_heights(), false);
    let mut t = BinTree::new();
    for x in [1, 2, 3, 4] {
        t.push_right(x);
    }
    assert_eq!(t.height(), 1);
    assert_eq!(t.recalculate_heights(), true);
    assert_eq!(t.height(), 4);
    assert_eq!(t.recalculate_heights(), false);
    let mut t = BinTree::new();
    for x in [1, 2, 3, 4] {
        t.push_right(x);
    }
    assert_eq!(t.recalculate_heights_rec(true, false, false), (2, true));
    assert_eq!(t.recalculate_heights_rec(false, true, false), (4, true));
    assert_eq!(t.recalculate_heights_rec(true, true, true), (3, true));
    assert_eq!(t.recalculate_heights_rec(true, true, true), (3, false));
    assert!(t.is_balanced());
    assert_eq!(t.to_vec(), vec![1, 2, 3, 4]);
}

#[test]
fn round_trip_in_any_order() {
    let items = vec![18, 6, 3, 8, 5, 11, 1, 7, 3, 5, 2, 8, 10, 3, 6, 9, 3, 2];
    for step in [1, 5, 7, 11, 13, 17] {
        let mut t = BinTree::new();
        let mut n = 0;
        for x in &items {
            t.insert(*x);
            n += 1;
            assert_eq!(t.len(), n);
        }
        for i in scrambled(items.len(), step) {
            assert_eq!(t.remove_sorted(&items[i]), Some(items[i]));
            n -= 1;
            assert_eq!(t.len(), n);
        }
        assert!(t.is_empty());
        assert_eq!(t.to_string(), "()");
    }
}

#[test]
fn insertion_example_and_height_bound() {
    let mut t = BinTree::new();
    for x in [4, 2, 8, 1, 2] {
        t.insert_unique(x);
    }
    assert_eq!(t.to_string(), "(((1) <= 2) <= 4 => (8))");
    assert_eq!(t.height(), 3);
    for x in [18, 6, 3, 8, 5, 11] {
        t.insert_unique(x);
        let n = t.len() as u32;
        let bound = (n + 1).next_power_of_two().trailing_zeros() as isize + 1;
        assert!(t.height() <= bound);
    }
}

#[test]
fn absent_keys_are_absent() {
    let mut t = BinTree::new();
    t.extend_sorted(vec![5, 1, 9, 3, 7]);
    assert!(!t.contains(&4));
    assert!(!t.contains_sorted(&4));
    assert_eq!(t.get(&4), None);
    assert!(t.get_mut(&4).is_none());
    assert!(t.get_sorted_mut(&4).is_none());
    assert!(t.get_tree_mut(&4).is_none());
    assert!(t.get_tree_sorted_mut(&4).is_none());
    assert_eq!(t.get_sorted_with_key(&4, &|x| x), None);
    assert!(t.get_sorted_mut_with_key(&4, &|x| x).is_none());
    assert_eq!(t.get_sorted_with_compare(&4, &i32::partial_cmp), None);
    assert_eq!(t.position(&4), None);
    let before = t.to_string();
    assert_eq!(t.remove_sorted(&4), None);
    assert_eq!(t.to_string(), before);
    assert_eq!(t.remove(&4), None);
    assert_eq!(t.to_string(), before);
    assert_eq!(t.remove_sorted_with_key(&4, &|x| x), None);
    assert_eq!(t.to_string(), before);
    assert!(t.contains(&7));
    assert!(t.contains_sorted(&7));
    assert_eq!(t.get(&7), Some(&7));
    assert_eq!(t.get_sorted_with_key(&7, &|x| x), Some(&7));
}

#[test]
fn lookups_by_key() {
    let mut t: BinTree<(i32, &str)> = BinTree::new();
    for item in [(5, "five"), (2, "two"), (8, "eight"), (2, "deux")] {
        t.push_sorted_unique_to_key(item, &|p: &(i32, &str)| &p.0);
    }
    assert_eq!(t.to_vec(), vec![(2, "deux"), (5, "five"), (8, "eight")]);
    assert_eq!(t.get_sorted_with_key(&8, &|p: &(i32, &str)| &p.0), Some(&(8, "eight")));
    t.get_sorted_mut_with_key(&5, &|p: &(i32, &str)| &p.0).unwrap().1 = "cinq";
    assert_eq!(t.position_sorted_with_key(&5, &|p: &(i32, &str)| &p.0), Some(1));
    assert_eq!(t.position_sorted_with_key(&6, &|p: &(i32, &str)| &p.0), None);
    assert_eq!(
        t.remove_sorted_with_key(&5, &|p: &(i32, &str)| &p.0),
        Some((5, "cinq"))
    );
    assert_eq!(t.to_vec(), vec![(2, "deux"), (8, "eight")]);
}

#[test]
fn duplicates_go_to_the_right() {
    let mut t = BinTree::new();
    t.insert_to_key_cmp((1, 'a'), |p: &(i32, char)| &p.0, i32::partial_cmp, false, false);
    t.insert_to_key_cmp((1, 'b'), |p: &(i32, char)| &p.0, i32::partial_cmp, false, false);
    t.insert_to_key_cmp((1, 'c'), |p: &(i32, char)| &p.0, i32::partial_cmp, false, false);
    assert_eq!(t.to_vec(), vec![(1, 'a'), (1, 'b'), (1, 'c')]);
    assert_eq!(t.to_string(), "((1, 'a') => ((1, 'b') => ((1, 'c'))))");
    assert_eq!(
        t.insert_to_key_cmp((1, 'z'), |p: &(i32, char)| &p.0, i32::partial_cmp, false, true),
        Some((1, 'a'))
    );
    assert_eq!(t.to_vec(), vec![(1, 'z'), (1, 'b'), (1, 'c')]);
}

#[test]
fn sorted_pop_cases() {
    let mut t = leaf(1);
    assert_eq!(t.pop_sorted(true), Some(1));
    assert!(t.is_empty());
    let mut t = tree(2, leaf(1), ());
    assert_eq!(t.pop_sorted(true), Some(2));
    assert_eq!(t.to_string(), "(1)");
    let mut t = tree(2, (), leaf(3));
    assert_eq!(t.pop_sorted(true), Some(2));
    assert_eq!(t.to_string(), "(3)");
    let mut t = tree(4, leaf(2), tree(8, leaf(6), leaf(9)));
    let popped = t.pop_tree_sorted(true).unwrap();
    assert_eq!(popped.to_string(), "(4)");
    assert_eq!(popped.height(), 3);
    assert_eq!(t.to_string(), "((2) <= 6 => (8 => (9)))");
    assert_eq!(t.height(), 3);
    let mut t = tree(4, leaf(2), tree(8, leaf(6), leaf(9)));
    let detached = t.detach_left_min_tree_sorted(false).unwrap();
    assert_eq!(detached.to_string(), "(2)");
    assert_eq!(t.to_string(), "(4 => ((6) <= 8 => (9)))");
    assert_eq!(t.height(), 3);
    let mut t = tree(4, leaf(2), tree(8, leaf(6), leaf(9)));
    t.detach_left_min_tree_sorted(true);
    assert_eq!(t.to_string(), "((4 => (6)) <= 8 => (9))");
    let mut t = tree(4, leaf(2), tree(8, leaf(6), leaf(9)));
    assert_eq!(t.pop_sorted_with_key(&|x: &i32| x), Some(4));
    assert_eq!(t.pop_sorted_with_compare(&i32::partial_cmp), Some(6));
    assert_eq!(t.to_vec(), vec![2, 8, 9]);
}

#[test]
fn spine_ends() {
    let mut t = sample_tree();
    assert_eq!(t.min_tree_mut().unwrap().to_string(), "(3)");
    assert_eq!(t.max_tree_mut().unwrap().to_string(), "((6) <= 5)");
    *t.min_tree_mut().unwrap() = BinTree::new();
    assert_eq!(t.to_string(), "((2) <= 1 => (4 => ((6) <= 5)))");
    assert_eq!(t.pop_right(), Some(5));
    assert_eq!(t.to_string(), "((2) <= 1 => (4 => (6)))");
    assert_eq!(t.pop_left(), Some(2));
    assert_eq!(t.to_string(), "(1 => (4 => (6)))");
    assert_eq!(t.pop_left(), Some(1));
    assert_eq!(t.to_string(), "(4 => (6))");
}

#[test]
fn unordered_remove_takes_the_first_in_pre_order() {
    let mut t = tree(1, tree(2, leaf(7), ()), tree(7, (), leaf(9)));
    assert_eq!(t.remove(&7), Some(7));
    assert_eq!(t.to_string(), "((2) <= 1 => (7 => (9)))");
    assert_eq!(t.remove(&7), Some(7));
    assert_eq!(t.to_string(), "((2) <= 1 => (9))");
    assert_eq!(t.remove(&1), Some(1));
    assert_eq!(t.to_string(), "(2 => (9))");
}

#[test]
fn positions_and_exchanges() {
    let mut t = sample_tree();
    assert_eq!(t.position(&1), Some(2));
    assert_eq!(t.position(&3), Some(0));
    assert_eq!(t.position(&5), Some(5));
    assert_eq!(t.item_mut(4).map(|x| *x), Some(6));
    assert!(t.item_mut(6).is_none());
    *t.item_mut(1).unwrap() = 20;
    assert_eq!(t.to_vec(), vec![3, 20, 1, 4, 6, 5]);
    {
        let (a, b) = t.pair_mut(0, 5).unwrap();
        assert_eq!((*a, *b), (3, 5));
        *a = 30;
        *b = 50;
    }
    assert_eq!(t.to_vec(), vec![30, 20, 1, 4, 6, 50]);
    assert!(t.pair_mut(2, 2).is_none());
    assert!(t.pair_mut(3, 1).is_none());
    assert!(t.pair_mut(1, 6).is_none());
    t.exchange(4, 1);
    assert_eq!(t.to_vec(), vec![30, 6, 1, 4, 20, 50]);
    t.exchange(2, 2);
    t.exchange(0, 9);
    assert_eq!(t.to_vec(), vec![30, 6, 1, 4, 20, 50]);
    assert_eq!(t.to_string(), "(((30) <= 6) <= 1 => (4 => ((20) <= 50)))");
}

#[test]
fn swap_errors() {
    let mut t = sample_tree();
    assert_eq!(t.swap(&9, &1), Err(BinTreeError::SwapNotFound1));
    assert_eq!(t.swap(&9, &8), Err(BinTreeError::SwapNotFound1));
    assert_eq!(t.swap(&1, &9), Err(BinTreeError::SwapNotFound2));
    assert_eq!(t.swap(&4, &4), Err(BinTreeError::SwapSame));
    assert_eq!(t, sample_tree());
    assert_eq!(t.swap(&3, &5), Ok(()));
    assert_eq!(t.to_vec(), vec![5, 2, 1, 4, 6, 3]);
    assert_eq!(BinTreeError::SwapSame.to_string(), "SwapSame");
    assert_eq!(BinTreeError::SwapNotFound1.to_string(), "SwapNotFound1");
    assert_eq!(BinTreeError::SwapNotFound2.to_string(), "SwapNotFound2");
    let mut m = BinTreeMap::new();
    m.insert(1, "one");
    m.insert(2, "two");
    assert_eq!(m.swap(&3, &1), Err(BinTreeError::SwapNotFound1));
    assert_eq!(m.swap(&1, &3), Err(BinTreeError::SwapNotFound2));
    assert_eq!(m.swap(&2, &2), Err(BinTreeError::SwapSame));
    assert_eq!(m.to_string(), "[(1, \"one\"), (2, \"two\")]");
    assert_eq!(m.swap(&2, &1), Ok(()));
    assert_eq!(m.to_string(), "[(1, \"two\"), (2, \"one\")]");
}

#[test]
fn traversals_by_name() {
    let t = sample_tree();
    let order = |traversal| {
        let mut v = Vec::new();
        let mut it = t.iter_traversal(traversal);
        while let Some(x) = it.next() {
            v.push(*x);
        }
        v
    };
    assert_eq!(
        order(BinTreeTraversal::DepthFirst(DepthFirstOrder::PreOrder)),
        vec![1, 2, 3, 4, 5, 6]
    );
    assert_eq!(
        order(BinTreeTraversal::DepthFirst(DepthFirstOrder::InOrder)),
        vec![3, 2, 1, 4, 6, 5]
    );
    assert_eq!(
        order(BinTreeTraversal::DepthFirst(DepthFirstOrder::PostOrder)),
        vec![3, 2, 6, 5, 4, 1]
    );
    assert_eq!(order(BinTreeTraversal::BreadthFirst), vec![1, 2, 4, 3, 5, 6]);
    assert_eq!(sample_tree().into_vec(), vec![3, 2, 1, 4, 6, 5]);
    let mut it = BinTree::<i32>::new().into_iter_bfs();
    assert_eq!(it.next(), None);
    assert_eq!(it.next(), None);
    let mut it = sample_tree().into_iter_traversal(BinTreeTraversal::BreadthFirst);
    assert_eq!(it.next(), Some(1));
    let mut t = sample_tree();
    let mut it = t.iter_mut_traversal(BinTreeTraversal::DepthFirst(DepthFirstOrder::PostOrder));
    *it.next().unwrap() = 33;
    assert_eq!(t.to_vec(), vec![33, 2, 1, 4, 6, 5]);
}

#[test]
fn text_layouts() {
    let t = sample_tree();
    let mut out = String::from("tree: ");
    t.write_line(&mut out);
    assert_eq!(out, "tree: (((3) <= 2) <= 1 => (4 => ((6) <= 5)))");
    let small = tree('b', leaf('a'), ());
    let mut out = String::new();
    small.pretty_write(&mut out, "\t");
    assert_eq!(out, "\t@\n'b'\n\t\t@\n\t'a'\n\t\t@\n");
    let labels = small.labels();
    assert_eq!(labels.to_vec(), vec!["'a'".to_string(), "'b'".to_string()]);
    assert_eq!(labels.height(), small.height());
    let mut out = String::new();
    labels.write_line_labels(&mut out);
    assert_eq!(out, "('a') <= 'b')".replace("('a') <=", "(('a') <="));
    let mut out = String::new();
    labels.pretty_write_indent(&mut out, "..", 2);
    assert_eq!(out, "......@\n....'b'\n........@\n......'a'\n........@\n");
    let line = FormattedBinTree::new(&small, FormattedBinTreeType::Line);
    assert_eq!(line.to_string(), "(('a') <= 'b')");
    assert_eq!(line.inner(), &small);
    let pretty = FormattedBinTree::new(&small, FormattedBinTreeType::PrettyIndent(" "));
    assert_eq!(pretty.to_string(), " @\n'b'\n  @\n 'a'\n  @\n");
    assert_eq!(list_string(&vec![]), "[]");
    assert_eq!(list_string(&vec!["a".to_string()]), "[a]");
    assert_eq!(
        list_string(&vec!["a".to_string(), "b".to_string(), "c".to_string()]),
        "[a, b, c]"
    );
    assert_eq!(pair_string(&"k".to_string(), &"v".to_string()), "(k, v)");
}

#[test]
fn ordered_set_behaves_like_a_set() {
    let mut s = BinTreeOrderedSet::new();
    assert_eq!(s.len(), 0);
    assert_eq!(s.to_string(), "[]");
    for x in [5, 1, 5, 9, 1, 3] {
        s.insert(x);
    }
    assert_eq!(s.len(), 4);
    assert_eq!(s.to_string(), "[1, 3, 5, 9]");
    assert!(s.contains(&3));
    assert!(!s.contains(&4));
    assert_eq!(s.remove(&4), None);
    assert_eq!(s.remove(&3), Some(3));
    assert_eq!(s.len(), 3);
    assert!(s.inner().is_balanced());
    let other = BinTreeOrderedSet::from_vec(vec![9, 5, 1, 1]);
    assert!(s.same_items(&other));
    assert!(s == other);
    assert!(s.subset_of(&other));
    let bigger = BinTreeOrderedSet::from_tree(BinTree::from_iter(vec![9, 5, 1, 7]));
    assert!(s.subset_of(&bigger));
    assert!(!bigger.subset_of(&s));
    assert!(s != bigger);
    let mut it = bigger.into_iter();
    assert_eq!(it.next(), Some(1));
    assert_eq!(s.into_inner().to_vec(), vec![1, 5, 9]);
    assert_eq!(BinTreeOrderedSet::<i32>::default().len(), 0);
}

#[test]
fn map_keeps_one_value_per_key() {
    let mut m = BinTreeMap::new();
    assert!(m.is_empty());
    m.insert("b", 2);
    m.insert("a", 1);
    m.insert("b", 20);
    assert!(!m.is_empty());
    assert_eq!(m.len(), 2);
    assert_eq!(m.get(&"b"), Some(&20));
    assert_eq!(m.get(&"c"), None);
    assert_eq!(m.get_key_value(&"a"), Some((&"a", &1)));
    assert!(m.get_mut(&"c").is_none());
    *m.get_mut(&"a").unwrap() += 10;
    assert_eq!(m.to_string(), "[(\"a\", 11), (\"b\", 20)]");
    assert_eq!(m.remove(&"c"), None);
    assert_eq!(m.len(), 2);
    assert_eq!(m.inner().len(), 2);
    assert_eq!(m.remove(&"a"), Some(11));
    assert_eq!(m.len(), 1);
    assert_eq!(m.into_inner().to_vec().len(), 1);
    assert_eq!(BinTreeMap::<i32, i32>::default().len(), 0);
}

#[test]
fn other_names_do_the_same() {
    let mut a = BinTree::new();
    let mut b = BinTree::new();
    let mut c = BinTree::new();
    let mut d = BinTree::new();
    for x in [5, 2, 8, 2, 1, 9, 3] {
        a.insert(x);
        b.push(x);
        c.push_sorted(x);
        d.push_sorted_maybe_rebalance(x, true);
    }
    assert_eq!(a, b);
    assert_eq!(a, c);
    assert_eq!(a, d);
    let mut e = BinTree::new();
    e.extend(vec![5, 2, 8, 2, 1, 9, 3]);
    assert_eq!(a, e);
    let mut f = BinTree::new();
    for x in [3, 1, 2] {
        f.push_sorted_maybe_rebalance(x, false);
    }
    assert_eq!(f.to_string(), "((1 => (2)) <= 3)");
    let mut g = leaf(1);
    let mut other = tree(7, leaf(6), ());
    assert_eq!(g.take_and_replace_with(&mut other), Some(1));
    assert_eq!(g.to_string(), "((6) <= 7)");
    assert!(other.is_empty());
}

#[test]
fn sorted_pop_leaves_the_top_to_the_caller() {
    let build = || {
        tree(
            10,
            tree(5, tree(3, leaf(2), ()), leaf(7)),
            tree(15, (), leaf(20)),
        )
    };
    let mut t = build();
    assert!(t.is_balanced());
    assert_eq!(t.pop_sorted(true), Some(10));
    assert_eq!(t.to_string(), "((((2) <= 3) <= 5 => (7)) <= 15 => (20))");
    assert_eq!(t.balance(), 2);
    assert_eq!(t.recalculate_heights(), false);
    t.rebalance();
    assert!(t.is_balanced());
    let mut t = build();
    assert_eq!(t.remove_sorted(&10), Some(10));
    assert!(t.is_balanced());
    assert_eq!(t.to_string(), "(((2) <= 3) <= 5 => ((7) <= 15 => (20)))");
}

#[test]
fn replacing_insertion_changes_nothing_else() {
    // an unbalanced chain with right heights
    let build = || tree(3, tree(2, leaf(1), ()), ());
    let mut t = build();
    assert_eq!(t.insert_to_key_cmp(1, |i| i, i32::partial_cmp, true, true), Some(1));
    assert_eq!(t, build());
    assert_eq!(t.to_string(), "(((1) <= 2) <= 3)");
    assert_eq!(t.height(), 3);
    let mut t = build();
    assert_eq!(t.insert_unique(2), false);
    assert_eq!(t, build());
    let mut pairs = tree((3, 'c'), tree((2, 'b'), leaf((1, 'a')), ()), ());
    assert_eq!(
        pairs.insert_unique_to_key_cmp((1, 'z'), |p: &(i32, char)| &p.0, i32::partial_cmp),
        Some((1, 'a'))
    );
    assert_eq!(pairs.to_string(), "((((1, 'z')) <= (2, 'b')) <= (3, 'c'))");
    assert_eq!(pairs.height(), 3);
    // a new key does settle the path
    let mut t = build();
    assert_eq!(t.insert_unique(0), true);
    assert!(t.is_balanced());
}

#[test]
fn unordered_remove_keeps_the_rest_of_the_tree() {
    let mut t = tree(1, tree(2, leaf(1), ()), tree(4, (), tree(5, leaf(2), ())));
    assert_eq!(t.to_vec(), vec![1, 2, 1, 4, 2, 5]);
    assert_eq!(t.remove(&1), Some(1));
    assert_eq!(t.to_vec(), vec![1, 2, 4, 2, 5]);
    assert_eq!(t.to_string(), "((1) <= 2 => (4 => ((2) <= 5)))");
    assert_eq!(t.remove(&1), Some(1));
    assert_eq!(t.to_vec(), vec![2, 4, 2, 5]);
    assert_eq!(t.remove(&1), None);
    assert_eq!(t.to_vec(), vec![2, 4, 2, 5]);
}
