use avltree::avl::AVLTree;
use avltree::avl::Node;

#[test]
fn test_insert() {
    let mut avl = AVLTree::<i32>::new();
    avl.insert(1, 101);
    avl.insert(3, 103);
    avl.insert(5, 105);
    assert_eq!(avl.get(&1), Some(&101));
    assert_eq!(avl.get(&2), None);
    assert_eq!(avl.get(&3), Some(&103));
    assert_eq!(avl.get(&4), None);
    assert_eq!(avl.get(&5), Some(&105));
    avl.travel();
}

#[test]
fn three_keys_stay_within_two_levels() {
    let mut avl = AVLTree::<i32>::new();
    avl.insert(1, 101);
    avl.insert(3, 103);
    avl.insert(5, 105);
    assert_eq!(avl.get(&1), Some(&101));
    assert_eq!(avl.get(&2), None);
    assert_eq!(avl.get(&3), Some(&103));
    assert_eq!(avl.get(&5), Some(&105));
    // Three keys force one rotation; the result is a perfect two-level tree.
    assert_eq!(avl.get_height(), 2);
}

#[test]
fn delete_first_of_two() {
    let mut avl = AVLTree::<i32>::new();
    avl.insert(1, 101);
    avl.insert(2, 102);
    avl.delete(&1);
    assert_eq!(avl.get(&1), None);
    assert_eq!(avl.get(&2), Some(&102));
    assert_eq!(avl.get_height(), 1);
}

#[test]
fn insert_then_delete_leaves_fresh_tree_empty() {
    let mut avl = AVLTree::<i32>::new();
    avl.insert(7, 70);
    avl.delete(&7);
    assert_eq!(avl.get(&7), None);
    assert_eq!(avl.get_height(), 0);
    assert_eq!(avl.travel(), Vec::<i64>::new());
}

#[test]
fn insert_then_delete_leaves_other_keys_alone() {
    let mut avl = AVLTree::<i32>::new();
    for k in [10i64, 20, 30, 40, 50] {
        avl.insert(k, (k * 10) as i32);
    }
    avl.insert(25, 1);
    avl.delete(&25);
    assert_eq!(avl.get(&25), None);
    for k in [10i64, 20, 30, 40, 50] {
        assert_eq!(avl.get(&k), Some(&((k * 10) as i32)));
    }
    assert_eq!(avl.travel(), vec![10i64, 20, 30, 40, 50]);
}

#[test]
fn duplicate_insert_overwrites_in_place() {
    let mut avl = AVLTree::<i32>::new();
    avl.insert(5, 1);
    avl.insert(5, 2);
    assert_eq!(avl.get(&5), Some(&2));
    assert_eq!(avl.get_height(), 1);
    assert_eq!(avl.travel(), vec![5i64]);
}

#[test]
fn delete_leaf_one_child_two_children_root_and_absent() {
    let mut avl = AVLTree::<i32>::new();
    for k in [50i64, 30, 70, 20, 40, 60, 80, 10] {
        avl.insert(k, k as i32);
    }
    // Absent key: a no-op.
    avl.delete(&55);
    assert_eq!(avl.travel(), vec![10i64, 20, 30, 40, 50, 60, 70, 80]);
    // A leaf.
    avl.delete(&10);
    assert_eq!(avl.get(&10), None);
    // A node with two children.
    avl.delete(&30);
    assert_eq!(avl.get(&30), None);
    assert_eq!(avl.get(&20), Some(&20));
    assert_eq!(avl.get(&40), Some(&40));
    // The root (two children: the in-order successor replaces it).
    avl.delete(&50);
    assert_eq!(avl.get(&50), None);
    assert_eq!(avl.travel(), vec![20i64, 40, 60, 70, 80]);
}

#[test]
fn get_height_small_exact_values() {
    let mut avl = AVLTree::<i32>::new();
    assert_eq!(avl.get_height(), 0);
    avl.insert(2, 0);
    assert_eq!(avl.get_height(), 1);
    avl.insert(1, 0);
    assert_eq!(avl.get_height(), 2);
    avl.insert(3, 0);
    assert_eq!(avl.get_height(), 2);
}

#[test]
fn travel_lists_keys_in_ascending_order() {
    let mut avl = AVLTree::<i32>::new();
    for k in [5i64, 1, 9, 3, 7, -4] {
        avl.insert(k, 0);
    }
    assert_eq!(avl.travel(), vec![-4i64, 1, 3, 5, 7, 9]);
}

#[test]
fn node_new_holds_one_mapping() {
    let _leaf: Node<i32> = Node::new(4, 44);
}

/// The worst-case AVL height for `n` nodes: `1.4405 * log2(n + 2) - 0.3277`,
/// counted in edges; our heights count nodes, one more.
fn avl_height_limit(n: usize) -> f64 {
    1.4405 * ((n + 2) as f64).log2() - 0.3277
}

#[test]
fn ascending_thousand_stays_logarithmic() {
    let mut avl = AVLTree::<i32>::new();
    for k in 1i64..=1000 {
        avl.insert(k, (k + 100) as i32);
    }
    assert_eq!(avl.get(&1), Some(&101));
    assert_eq!(avl.get(&1000), Some(&1100));
    assert_eq!(avl.get(&1001), None);
    let h = avl.get_height();
    // 1.4405 * log2(1002) - 0.3277 is a little over 14: at most 14 edges,
    // so at most 15 nodes on a path; the sorted fill is in fact tighter.
    assert!(((h - 1) as f64) <= avl_height_limit(1000));
    assert!(h <= 14);
}

#[test]
fn random_sequences_respect_the_height_bound() {
    // A fixed linear congruential generator keeps the test deterministic.
    let mut state: u64 = 0x2545F4914F6CDD1D;
    let mut next = move || {
        state = state.wrapping_mul(6364136223846793005).wrapping_add(1442695040888963407);
        (state >> 33) as i64
    };
    for n in [1usize, 10, 100, 1000, 10000] {
        let mut avl = AVLTree::<i64>::new();
        for _ in 0..n {
            let k = next() % (4 * n as i64);
            avl.insert(k, -k);
        }
        let keys = avl.travel();
        assert!(keys.windows(2).all(|w| w[0] < w[1]));
        let stored = keys.len();
        assert!(stored <= n);
        let h = avl.get_height();
        if stored > 0 {
            assert!(((h - 1) as f64) <= avl_height_limit(stored));
        } else {
            assert_eq!(h, 0);
        }
        for k in &keys {
            assert_eq!(avl.get(k), Some(&-*k));
        }
    }
}

#[test]
fn mixed_operations_match_a_reference_map() {
    let mut state: u64 = 0x9E3779B97F4A7C15;
    let mut next = move || {
        state = state.wrapping_mul(6364136223846793005).wrapping_add(1442695040888963407);
        (state >> 33) as i64
    };
    let mut avl = AVLTree::<i64>::new();
    let mut reference = std::collections::BTreeMap::<i64, i64>::new();
    for step in 0..2000 {
        let k = next() % 200;
        if step % 3 == 2 {
            avl.delete(&k);
            reference.remove(&k);
        } else {
            avl.insert(k, step);
            reference.insert(k, step);
        }
    }
    for k in -200i64..=200 {
        assert_eq!(avl.get(&k), reference.get(&k));
    }
    let keys = avl.travel();
    let reference_keys: Vec<i64> = reference.keys().copied().collect();
    assert_eq!(keys, reference_keys);
}
