use hp_data_structures::persistent_tree::Tree;
use std::rc::Rc;

/// Checks the search order, the balance and the recorded height of every
/// node; returns the height.
fn check(tree: &Tree<i32, i32>, low: Option<i32>, high: Option<i32>) -> usize {
    match tree {
        Tree::Empty => 0,
        Tree::Node { key, left, right, height, .. } => {
            if let Some(low) = low {
                assert!(low < *key);
            }
            if let Some(high) = high {
                assert!(*key < high);
            }
            let hl = check(left, low, Some(*key));
            let hr = check(right, Some(*key), high);
            assert!(hl <= hr + 1 && hr <= hl + 1, "balance factor out of range at {}", key);
            let h = 1 + hl.max(hr);
            assert_eq!(*height, h);
            h
        }
    }
}

fn keys_of(tree: &Tree<i32, i32>) -> Vec<i32> {
    Tree::in_order(tree).into_iter().map(|(k, _)| *k).collect()
}

fn build(keys: &[i32]) -> Rc<Tree<i32, i32>> {
    let mut tree = Tree::new();
    for k in keys {
        tree = Tree::insert(tree, *k, k * 10);
        check(&tree, None, None);
    }
    tree
}

#[test]
fn test_insert_and_map() {
    let tree = Tree::new();
    let tree = Tree::insert(tree, 1, 10);
    let tree = Tree::insert(tree, 2, 20);
    let mapped = Tree::map(tree.clone(), &|v| v * 2);
    // Check that mapping doubled the values
    if let Tree::Node { value, .. } = &*mapped {
        assert_eq!(*value, 20);
    }
}

#[test]
fn empty_tree_has_nothing() {
    let tree: Rc<Tree<i32, i32>> = Tree::new();
    assert!(matches!(&*tree, Tree::Empty));
    assert_eq!(Tree::get(&tree, &1), None);
    assert!(Tree::in_order(&tree).is_empty());
}

#[test]
fn sequential_inserts_stay_balanced() {
    let mut tree = Tree::new();
    for i in 0..1000 {
        tree = Tree::insert(tree, i, i);
        check(&tree, None, None);
    }
    let keys = keys_of(&tree);
    assert_eq!(keys, (0..1000).collect::<Vec<i32>>());
    // 1000 keys fit an AVL tree of height 10 when inserted in ascending order.
    assert_eq!(check(&tree, None, None), 10);
    for i in 0..1000 {
        assert_eq!(Tree::get(&tree, &i), Some(&i));
    }
    assert_eq!(Tree::get(&tree, &1000), None);
    assert_eq!(Tree::get(&tree, &-1), None);
}

#[test]
fn any_insertion_order_gives_ascending_walk() {
    let ascending: Vec<i32> = (0..64).collect();
    let descending: Vec<i32> = (0..64).rev().collect();
    let mut zigzag: Vec<i32> = Vec::new();
    for i in 0..32 {
        zigzag.push(i);
        zigzag.push(63 - i);
    }
    let mut scattered: Vec<i32> = Vec::new();
    let mut x: i32 = 0;
    for _ in 0..64 {
        x = (x + 37) % 64;
        scattered.push(x);
    }
    for order in [ascending.clone(), descending, zigzag, scattered] {
        let tree = build(&order);
        assert_eq!(keys_of(&tree), ascending);
        for k in 0..64 {
            assert_eq!(Tree::get(&tree, &k), Some(&(k * 10)));
        }
    }
}

#[test]
fn single_rotations() {
    // Left-left.
    let tree = build(&[3, 2, 1]);
    match &*tree {
        Tree::Node { key, height, .. } => {
            assert_eq!(*key, 2);
            assert_eq!(*height, 2);
        }
        Tree::Empty => panic!("empty"),
    }
    // Right-right.
    let tree = build(&[1, 2, 3]);
    match &*tree {
        Tree::Node { key, height, .. } => {
            assert_eq!(*key, 2);
            assert_eq!(*height, 2);
        }
        Tree::Empty => panic!("empty"),
    }
}

#[test]
fn double_rotations() {
    // Left-right.
    let tree = build(&[3, 1, 2]);
    match &*tree {
        Tree::Node { key, value, height, .. } => {
            assert_eq!(*key, 2);
            assert_eq!(*value, 20);
            assert_eq!(*height, 2);
        }
        Tree::Empty => panic!("empty"),
    }
    // Right-left.
    let tree = build(&[1, 3, 2]);
    match &*tree {
        Tree::Node { key, value, height, .. } => {
            assert_eq!(*key, 2);
            assert_eq!(*value, 20);
            assert_eq!(*height, 2);
        }
        Tree::Empty => panic!("empty"),
    }
    // Deeper: the inner grandchild has children of its own.
    let tree = build(&[50, 20, 60, 10, 30, 25]);
    match &*tree {
        Tree::Node { key, height, .. } => {
            assert_eq!(*key, 30);
            assert_eq!(*height, 3);
        }
        Tree::Empty => panic!("empty"),
    }
    assert_eq!(keys_of(&tree), vec![10, 20, 25, 30, 50, 60]);
}

#[test]
fn insert_replaces_the_value_of_a_key() {
    let tree = build(&[5, 3, 8]);
    let newer = Tree::insert(tree.clone(), 3, 99);
    assert_eq!(Tree::get(&newer, &3), Some(&99));
    assert_eq!(Tree::get(&tree, &3), Some(&30));
    assert_eq!(keys_of(&newer), vec![3, 5, 8]);
    check(&newer, None, None);
}

#[test]
fn versions_are_independent() {
    let a = build(&[4, 2, 6, 1, 3, 5, 7]);
    let before: Vec<Option<i32>> = (0..10).map(|k| Tree::get(&a, &k).copied()).collect();
    let b = Tree::insert(a.clone(), 9, 900);
    let c = Tree::insert(a.clone(), 2, 222);
    let d = Tree::remove(a.clone(), &4);
    let after: Vec<Option<i32>> = (0..10).map(|k| Tree::get(&a, &k).copied()).collect();
    assert_eq!(before, after);
    assert_eq!(Tree::get(&a, &9), None);
    assert_eq!(Tree::get(&b, &9), Some(&900));
    assert_eq!(Tree::get(&a, &2), Some(&20));
    assert_eq!(Tree::get(&c, &2), Some(&222));
    assert_eq!(Tree::get(&a, &4), Some(&40));
    assert_eq!(Tree::get(&d, &4), None);
    for k in 1..8 {
        assert_eq!(Tree::get(&b, &k), Some(&(k * 10)));
    }
    check(&a, None, None);
}

#[test]
fn insert_shares_what_it_does_not_rebuild() {
    let a = build(&[4, 2, 6, 1, 3, 5, 7]);
    let b = Tree::insert(a.clone(), 0, 0);
    match (&*a, &*b) {
        (Tree::Node { right: ar, .. }, Tree::Node { right: br, .. }) => {
            // The key went left: the right subtree is the same allocation.
            assert!(Rc::ptr_eq(ar, br));
        }
        _ => panic!("empty"),
    }
}

#[test]
fn map_then_get_is_f_of_get() {
    let tree = build(&[4, 2, 6, 1, 3, 5, 7]);
    let mapped = Tree::map(tree.clone(), &|v: &i32| format!("<{}>", v + 1));
    for k in 1..8 {
        let here = Tree::get(&tree, &k).unwrap();
        assert_eq!(Tree::get(&mapped, &k), Some(&format!("<{}>", here + 1)));
    }
    assert_eq!(Tree::get(&mapped, &0), None);
    // The shape is the same, node for node.
    fn same_shape(a: &Tree<i32, i32>, b: &Tree<i32, String>) -> bool {
        match (a, b) {
            (Tree::Empty, Tree::Empty) => true,
            (
                Tree::Node { key: ka, left: la, right: ra, height: ha, .. },
                Tree::Node { key: kb, left: lb, right: rb, height: hb, .. },
            ) => ka == kb && ha == hb && same_shape(la, lb) && same_shape(ra, rb),
            _ => false,
        }
    }
    assert!(same_shape(&tree, &mapped));
}

#[test]
fn remove_leaf_single_child_and_two_children() {
    let tree = build(&[50, 30, 70, 20, 40, 60, 80, 10]);
    // A leaf.
    let t = Tree::remove(tree.clone(), &40);
    assert_eq!(keys_of(&t), vec![10, 20, 30, 50, 60, 70, 80]);
    check(&t, None, None);
    // A node with one child.
    let t = Tree::remove(tree.clone(), &20);
    assert_eq!(keys_of(&t), vec![10, 30, 40, 50, 60, 70, 80]);
    check(&t, None, None);
    // A node with two children: its successor takes its place.
    let t = Tree::remove(tree.clone(), &50);
    assert_eq!(keys_of(&t), vec![10, 20, 30, 40, 60, 70, 80]);
    check(&t, None, None);
    match &*t {
        Tree::Node { key, value, .. } => {
            assert_eq!(*key, 60);
            assert_eq!(*value, 600);
        }
        Tree::Empty => panic!("empty"),
    }
    // The version it was derived from is as it was.
    assert_eq!(keys_of(&tree), vec![10, 20, 30, 40, 50, 60, 70, 80]);
}

#[test]
fn remove_of_an_absent_key_returns_the_same_version() {
    let tree = build(&[2, 1, 3]);
    let same = Tree::remove(tree.clone(), &7);
    assert!(Rc::ptr_eq(&tree, &same));
    let empty: Rc<Tree<i32, i32>> = Tree::new();
    let still = Tree::remove(empty.clone(), &1);
    assert!(Rc::ptr_eq(&empty, &still));
}

#[test]
fn remove_rebalances() {
    let mut tree = build(&(0..200).collect::<Vec<i32>>());
    for k in 0..150 {
        tree = Tree::remove(tree, &k);
        check(&tree, None, None);
        assert_eq!(Tree::get(&tree, &k), None);
    }
    assert_eq!(keys_of(&tree), (150..200).collect::<Vec<i32>>());
    for k in (150..200).rev() {
        tree = Tree::remove(tree, &k);
        check(&tree, None, None);
    }
    assert!(matches!(&*tree, Tree::Empty));
}

#[test]
fn remove_with_double_rotation() {
    // Removing 1 leaves the right side two higher with its inner side heavy.
    let tree = build(&[2, 1, 5, 4]);
    let t = Tree::remove(tree, &1);
    check(&t, None, None);
    match &*t {
        Tree::Node { key, .. } => assert_eq!(*key, 4),
        Tree::Empty => panic!("empty"),
    }
    assert_eq!(keys_of(&t), vec![2, 4, 5]);
    let tree = build(&[4, 5, 1, 2]);
    let t = Tree::remove(tree, &5);
    check(&t, None, None);
    match &*t {
        Tree::Node { key, .. } => assert_eq!(*key, 2),
        Tree::Empty => panic!("empty"),
    }
    assert_eq!(keys_of(&t), vec![1, 2, 4]);
}

#[test]
fn in_order_can_be_walked_again() {
    let tree = build(&[3, 1, 2]);
    let first: Vec<(i32, i32)> = Tree::in_order(&tree).into_iter().map(|(k, v)| (*k, *v)).collect();
    let second: Vec<(i32, i32)> = Tree::in_order(&tree).into_iter().map(|(k, v)| (*k, *v)).collect();
    assert_eq!(first, vec![(1, 10), (2, 20), (3, 30)]);
    assert_eq!(first, second);
}
