use structures_comparison::btree::BTree;

#[test]
fn empty_tree_finds_nothing() {
    let tree = BTree::new(2);
    assert_eq!(tree.search(&0), None);
    assert_eq!(tree.search(&u64::MAX), None);
    assert!(tree.root_is_leaf());
    assert_eq!(tree.degree(), 2);
}

#[test]
fn scenario_ascending_inserts_split_and_resolve() {
    // degree 2, keys 1..5 ascending: at least one split must happen and
    // every key resolves to its own value
    let mut tree = BTree::new(2);
    for k in 1u64..=5 {
        tree.insert(k, k * 10);
    }
    assert!(!tree.root_is_leaf(), "five keys cannot fit a degree-2 leaf root");
    for k in 1u64..=5 {
        assert_eq!(tree.search(&k), Some(k * 10));
    }
    assert_eq!(tree.search(&6), None);
}

#[test]
fn one_more_than_full_root_causes_exactly_one_split() {
    // for each degree t, 2t-1 keys keep the root a leaf; one more key
    // raises the height from zero to one
    for t in 2usize..=5 {
        let mut tree = BTree::new(t);
        let full = (2 * t - 1) as u64;
        for k in 0..full {
            tree.insert(k, k);
            assert!(tree.root_is_leaf());
        }
        tree.insert(full, full);
        assert!(!tree.root_is_leaf());
        for k in 0..=full {
            assert_eq!(tree.search(&k), Some(k));
        }
    }
}

#[test]
fn last_write_wins() {
    let mut tree = BTree::new(3);
    tree.insert(7, 1);
    tree.insert(7, 2);
    assert_eq!(tree.search(&7), Some(2));
    for k in 0u64..20 {
        tree.insert(k, k);
    }
    for k in 0u64..20 {
        tree.insert(k, k + 100);
    }
    for k in 0u64..20 {
        assert_eq!(tree.search(&k), Some(k + 100));
    }
}

#[test]
fn update_does_not_duplicate_promoted_median() {
    // overwrite the key that is about to be (or was just) promoted during a
    // split: the newest value must win
    let mut tree = BTree::new(2);
    for k in [3u64, 4, 5, 1, 2, 6, 7] {
        tree.insert(k, k);
    }
    for k in 1u64..=7 {
        tree.insert(k, k + 50);
        assert_eq!(tree.search(&k), Some(k + 50));
    }
}

#[test]
fn delete_from_leaf_keeps_other_keys() {
    let mut tree = BTree::new(2);
    for k in 1u64..=5 {
        tree.insert(k, k * 10);
    }
    tree.delete(1);
    assert_eq!(tree.search(&1), None);
    for k in 2u64..=5 {
        assert_eq!(tree.search(&k), Some(k * 10));
    }
}

#[test]
fn delete_absent_key_is_a_no_op() {
    let mut tree = BTree::new(2);
    for k in 1u64..=5 {
        tree.insert(k, k);
    }
    tree.delete(99);
    for k in 1u64..=5 {
        assert_eq!(tree.search(&k), Some(k));
    }
    let mut empty = BTree::new(4);
    empty.delete(0);
    assert_eq!(empty.search(&0), None);
}

#[test]
fn delete_internal_key_uses_predecessor() {
    let mut tree = BTree::new(2);
    for k in 1u64..=10 {
        tree.insert(k, k * 2);
    }
    // deleting keys held by internal nodes must keep all the others intact
    for victim in [4u64, 2, 8] {
        tree.delete(victim);
        assert_eq!(tree.search(&victim), None);
        for k in 1u64..=10 {
            if k != 4 && k != 2 && k != 8 {
                assert_eq!(tree.search(&k), Some(k * 2));
            }
        }
    }
}

#[test]
fn delete_everything() {
    let mut tree = BTree::new(3);
    for k in 0u64..30 {
        tree.insert(k, k);
    }
    for k in 0u64..30 {
        tree.delete(k);
        assert_eq!(tree.search(&k), None);
    }
    for k in 0u64..30 {
        assert_eq!(tree.search(&k), None);
    }
}

#[test]
fn delete_internal_key_above_emptied_leaf() {
    // empty a leaf by deletion, then delete its parent's separator: the
    // engine must still answer correctly for the remaining keys
    let mut tree = BTree::new(2);
    tree.insert(1, 10);
    tree.insert(2, 20);
    tree.insert(3, 30);
    tree.delete(1);
    tree.delete(2);
    assert_eq!(tree.search(&1), None);
    assert_eq!(tree.search(&2), None);
    assert_eq!(tree.search(&3), Some(30));
}

#[test]
fn random_order_inserts_resolve() {
    let keys = [13u64, 2, 44, 7, 1, 90, 35, 21, 60, 5, 17, 99, 3, 28, 50];
    let mut tree = BTree::new(2);
    for (i, &k) in keys.iter().enumerate() {
        tree.insert(k, i as u64);
    }
    for (i, &k) in keys.iter().enumerate() {
        assert_eq!(tree.search(&k), Some(i as u64));
    }
}

#[test]
fn update_on_full_root_performs_no_structural_change() {
    let mut tree = BTree::new(2);
    tree.insert(1, 1);
    tree.insert(2, 2);
    tree.insert(3, 3);
    assert!(tree.root_is_leaf());
    // the root is full, but overwriting a present key must not split it
    tree.insert(2, 99);
    assert!(tree.root_is_leaf());
    assert_eq!(tree.search(&2), Some(99));
    // a fresh key into the full root is what grows the tree
    tree.insert(4, 4);
    assert!(!tree.root_is_leaf());
    for (k, v) in [(1, 1), (2, 99), (3, 3), (4, 4)] {
        assert_eq!(tree.search(&k), Some(v));
    }
}

#[test]
fn delete_absent_key_leaves_structure_alone() {
    let mut tree = BTree::new(2);
    for k in 1u64..=3 {
        tree.insert(k, k);
    }
    assert!(tree.root_is_leaf());
    tree.delete(99);
    assert!(tree.root_is_leaf());
    tree.insert(4, 4);
    assert!(!tree.root_is_leaf());
    tree.delete(99);
    assert!(!tree.root_is_leaf());
}
