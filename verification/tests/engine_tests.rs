use structures_comparison::btree::BTree;
use structures_comparison::engine::StorageEngine;
use structures_comparison::lsm::LSMTree;

fn drive(engine: &mut impl StorageEngine) {
    for k in 0u64..50 {
        engine.insert(k, k * 3);
    }
    for k in 0u64..50 {
        assert_eq!(engine.search(&k), Some(k * 3));
    }
    for k in 0u64..25 {
        engine.insert(k, k * 3 + 1);
    }
    for k in 40u64..45 {
        engine.delete(k);
    }
    for k in 0u64..50 {
        let expected = if k < 25 {
            Some(k * 3 + 1)
        } else if (40..45).contains(&k) {
            None
        } else {
            Some(k * 3)
        };
        assert_eq!(engine.search(&k), expected, "key {}", k);
    }
    engine.cleanup();
}

#[test]
fn both_engines_satisfy_the_same_contract() {
    let mut tree = BTree::new(16);
    drive(&mut tree);
    let mut lsm = LSMTree::new(100);
    drive(&mut lsm);
}

#[test]
fn engines_identify_themselves() {
    let tree = BTree::new(2);
    let lsm = LSMTree::new(4);
    assert_eq!(tree.name(), "B-Tree");
    assert_eq!(lsm.name(), "LSM-Tree");
}
