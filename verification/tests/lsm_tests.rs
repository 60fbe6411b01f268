use structures_comparison::lsm::{LSMTree, LogValue};

// keys standing in for the labels A..E
const A: u64 = 1;
const B: u64 = 2;
const C: u64 = 3;
const D: u64 = 4;
const E: u64 = 5;

fn scenario_b_state() -> LSMTree {
    let mut lsm = LSMTree::new(3);
    lsm.insert(A, 1);
    lsm.insert(B, 2);
    lsm.insert(C, 3);
    lsm.insert(D, 4);
    lsm
}

#[test]
fn empty_engine_finds_nothing() {
    let lsm = LSMTree::new(10);
    assert_eq!(lsm.search(&0), None);
    assert_eq!(lsm.segment_count(), 0);
    assert_eq!(lsm.memtable_size(), 0);
}

#[test]
fn scenario_threshold_flush_and_mixed_resolution() {
    // threshold 3: the third insert flushes {A,B,C} into one segment,
    // D stays in the memtable
    let mut lsm = LSMTree::new(3);
    lsm.insert(A, 1);
    lsm.insert(B, 2);
    assert_eq!(lsm.segment_count(), 0);
    assert_eq!(lsm.memtable_size(), 2);
    lsm.insert(C, 3);
    assert_eq!(lsm.segment_count(), 1);
    assert_eq!(lsm.memtable_size(), 0);
    let seg = lsm.segment_at(0);
    assert_eq!(
        seg,
        vec![(A, LogValue::Value(1)), (B, LogValue::Value(2)), (C, LogValue::Value(3))]
    );
    lsm.insert(D, 4);
    assert_eq!(lsm.memtable_size(), 1);
    // D resolves from the memtable, A from the segment
    assert_eq!(lsm.search(&D), Some(4));
    assert_eq!(lsm.search(&A), Some(1));
    assert_eq!(lsm.search(&B), Some(2));
    assert_eq!(lsm.search(&C), Some(3));
    assert_eq!(lsm.search(&E), None);
}

#[test]
fn scenario_tombstone_shadows_older_segment() {
    // delete A, then fill the memtable to force a second flush: the new
    // segment's tombstone for A shadows the older segment's live value
    let mut lsm = scenario_b_state();
    lsm.delete(A);
    assert_eq!(lsm.search(&A), None);
    lsm.insert(E, 5);
    assert_eq!(lsm.segment_count(), 2);
    assert_eq!(lsm.memtable_size(), 0);
    let newest = lsm.segment_at(1);
    assert!(newest.contains(&(A, LogValue::Tombstone)));
    assert_eq!(lsm.search(&A), None);
    assert_eq!(lsm.search(&D), Some(4));
    assert_eq!(lsm.search(&E), Some(5));
}

#[test]
fn scenario_compaction_drops_tombstones() {
    // from the two-segment state, compaction leaves one segment holding
    // exactly the live keys with their latest values and no entry for A
    let mut lsm = scenario_b_state();
    lsm.delete(A);
    lsm.insert(E, 5);
    lsm.compact();
    assert_eq!(lsm.segment_count(), 1);
    let seg = lsm.segment_at(0);
    assert_eq!(
        seg,
        vec![
            (B, LogValue::Value(2)),
            (C, LogValue::Value(3)),
            (D, LogValue::Value(4)),
            (E, LogValue::Value(5)),
        ]
    );
    assert_eq!(lsm.search(&A), None);
    for (k, v) in [(B, 2), (C, 3), (D, 4), (E, 5)] {
        assert_eq!(lsm.search(&k), Some(v));
    }
}

#[test]
fn memtable_shadows_segments() {
    let mut lsm = LSMTree::new(2);
    lsm.insert(7, 1);
    lsm.insert(8, 1);
    assert_eq!(lsm.segment_count(), 1);
    lsm.insert(7, 99);
    assert_eq!(lsm.search(&7), Some(99));
    lsm.delete(8);
    // both writes flushed at the threshold; the newer segment still shadows
    assert_eq!(lsm.segment_count(), 2);
    assert_eq!(lsm.search(&7), Some(99));
    assert_eq!(lsm.search(&8), None);
}

#[test]
fn newer_segment_shadows_older() {
    // threshold 1: every write becomes its own segment
    let mut lsm = LSMTree::new(1);
    lsm.insert(5, 1);
    lsm.insert(5, 2);
    lsm.insert(5, 3);
    assert_eq!(lsm.segment_count(), 3);
    assert_eq!(lsm.search(&5), Some(3));
    lsm.delete(5);
    assert_eq!(lsm.search(&5), None);
    lsm.insert(5, 9);
    assert_eq!(lsm.search(&5), Some(9));
}

#[test]
fn compact_preserves_latest_values() {
    let mut lsm = LSMTree::new(1);
    for k in 0u64..10 {
        lsm.insert(k, k);
    }
    for k in 0u64..5 {
        lsm.insert(k, k + 100);
    }
    for k in 5u64..8 {
        lsm.delete(k);
    }
    lsm.compact();
    assert_eq!(lsm.segment_count(), 1);
    for k in 0u64..5 {
        assert_eq!(lsm.search(&k), Some(k + 100));
    }
    for k in 5u64..8 {
        assert_eq!(lsm.search(&k), None);
    }
    for k in 8u64..10 {
        assert_eq!(lsm.search(&k), Some(k));
    }
    // the surviving segment holds no tombstones
    for (_, e) in lsm.segment_at(0) {
        assert!(matches!(e, LogValue::Value(_)));
    }
}

#[test]
fn compact_with_no_segments_leaves_one_empty_segment() {
    let mut lsm = LSMTree::new(100);
    lsm.insert(1, 1);
    lsm.compact();
    assert_eq!(lsm.segment_count(), 1);
    assert_eq!(lsm.segment_at(0), vec![]);
    // the memtable is untouched by compaction
    assert_eq!(lsm.memtable_size(), 1);
    assert_eq!(lsm.search(&1), Some(1));
}

#[test]
fn delete_of_absent_key_writes_tombstone() {
    let mut lsm = LSMTree::new(10);
    lsm.delete(42);
    assert_eq!(lsm.memtable_size(), 1);
    assert_eq!(lsm.search(&42), None);
    lsm.insert(42, 7);
    assert_eq!(lsm.search(&42), Some(7));
}

#[test]
fn zero_threshold_flushes_every_write() {
    let mut lsm = LSMTree::new(0);
    lsm.insert(1, 1);
    assert_eq!(lsm.segment_count(), 1);
    assert_eq!(lsm.memtable_size(), 0);
    lsm.insert(2, 2);
    assert_eq!(lsm.segment_count(), 2);
    assert_eq!(lsm.search(&1), Some(1));
    assert_eq!(lsm.search(&2), Some(2));
}

#[test]
fn rebuild_from_exported_segments() {
    // flush everything out, export the segments, and rebuild: the new
    // engine answers exactly as the old one did
    let mut lsm = LSMTree::new(2);
    for k in 0u64..6 {
        lsm.insert(k, k * 7);
    }
    lsm.delete(3);
    lsm.delete(100);
    assert_eq!(lsm.memtable_size(), 0);
    let mut segs = Vec::new();
    for i in 0..lsm.segment_count() {
        segs.push(lsm.segment_at(i));
    }
    let reopened = LSMTree::with_segments(2, segs).expect("exported segments are ordered");
    for k in 0u64..6 {
        let expected = if k == 3 { None } else { Some(k * 7) };
        assert_eq!(reopened.search(&k), expected, "key {}", k);
        assert_eq!(reopened.search(&k), lsm.search(&k), "key {}", k);
    }
    assert_eq!(reopened.search(&100), None);
}

#[test]
fn rebuild_rejects_out_of_order_segment() {
    let good = vec![vec![(1u64, LogValue::Value(1)), (2u64, LogValue::Value(2))]];
    assert!(LSMTree::with_segments(3, good).is_some());
    let bad = vec![vec![(2u64, LogValue::Value(1)), (1u64, LogValue::Value(2))]];
    assert!(LSMTree::with_segments(3, bad).is_none());
    let dup = vec![vec![(1u64, LogValue::Value(1)), (1u64, LogValue::Value(2))]];
    assert!(LSMTree::with_segments(3, dup).is_none());
}
