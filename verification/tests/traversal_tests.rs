use bin_tree::{leaf, tree, BinTree};

fn sample_tree() -> BinTree<i32> {
    tree(1, tree(2, leaf(3), ()), tree(4, (), tree(5, leaf(6), ())))
}

fn drain<T>(mut it: bin_tree::bin_tree::iter::BinTreeIntoIter<T>) -> Vec<T> {
    let mut v = Vec::new();
    while let Some(x) = it.next() {
        v.push(x);
    }
    v
}

fn copied(mut it: bin_tree::bin_tree::iter::BinTreeIter<'_, i32>) -> Vec<i32> {
    let mut v = Vec::new();
    while let Some(x) = it.next() {
        v.push(*x);
    }
    v
}

#[test]
fn bin_tree_iter_iter_mut_test() {
    let mut t = sample_tree();
    let mut it = t.iter_mut();
    while let Some(i) = it.next() {
        if *i % 2 == 1 {
            *i += 10
        }
    }
    assert_eq!(t.to_string(), "(((13) <= 2) <= 11 => (4 => ((6) <= 15)))");
}

#[test]
fn bin_tree_iter_into_iter_order_test() {
    let t = sample_tree();
    assert_eq!(drain(t.into_iter()), vec![3, 2, 1, 4, 6, 5]);
    let t = sample_tree();
    assert_eq!(drain(t.into_iter_dfs_in()), vec![3, 2, 1, 4, 6, 5]);
    let t = sample_tree();
    assert_eq!(drain(t.into_iter_dfs_pre()), vec![1, 2, 3, 4, 5, 6]);
    let t = sample_tree();
    assert_eq!(drain(t.into_iter_dfs_post()), vec![3, 2, 6, 5, 4, 1]);
    let t = sample_tree();
    assert_eq!(drain(t.into_iter_bfs()), vec![1, 2, 4, 3, 5, 6]);
}

#[test]
fn bin_tree_iter_iter_order_test() {
    let t = sample_tree();
    assert_eq!(copied(t.iter()), vec![3, 2, 1, 4, 6, 5]);
    assert_eq!(copied(t.iter_dfs_in()), vec![3, 2, 1, 4, 6, 5]);
    assert_eq!(copied(t.iter_dfs_pre()), vec![1, 2, 3, 4, 5, 6]);
    assert_eq!(copied(t.iter_dfs_post()), vec![3, 2, 6, 5, 4, 1]);
    assert_eq!(copied(t.iter_bfs()), vec![1, 2, 4, 3, 5, 6]);
}

#[test]
fn bin_tree_iter_iter_mut_order_test() {
    let mut t = sample_tree();
    let mut i = 0;
    let mut it = t.iter_mut();
    while let Some(e) = it.next() {
        i += 1;
        *e += i;
    }
    assert_eq!(t.to_vec(), vec![4, 4, 4, 8, 11, 11]);
    let mut it = t.iter_mut_dfs_in();
    while let Some(e) = it.next() {
        i += 1;
        *e += i;
    }
    assert_eq!(t.to_vec(), vec![11, 12, 13, 18, 22, 23]);
    let mut it = t.iter_mut_dfs_pre();
    while let Some(e) = it.next() {
        i += 1;
        *e += i;
    }
    assert_eq!(t.to_vec(), vec![26, 26, 26, 34, 40, 40]);
    let mut it = t.iter_mut_dfs_post();
    while let Some(e) = it.next() {
        i += 1;
        *e += i;
    }
    assert_eq!(t.to_vec(), vec![45, 46, 50, 57, 61, 62]);
    let mut it = t.iter_mut_bfs();
    while let Some(e) = it.next() {
        i += 1;
        *e += i;
    }
    assert_eq!(t.to_vec(), vec![73, 72, 75, 84, 91, 91]);
}

