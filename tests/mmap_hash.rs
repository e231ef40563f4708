use sekejap::mmap_hash::{HashIndexError, MmapHashIndex, TOMBSTONE_KEY};

#[test]
fn test_basic_insert_get() {
    let mut idx = MmapHashIndex::new(100);

    idx.insert(42, 7).unwrap();
    idx.insert(100, 99).unwrap();

    assert_eq!(idx.get(42), Some(7));
    assert_eq!(idx.get(100), Some(99));
    assert_eq!(idx.get(999), None);
    assert_eq!(idx.count(), 2);
}

#[test]
fn test_update() {
    let mut idx = MmapHashIndex::new(100);

    idx.insert(1, 10).unwrap();
    idx.insert(1, 20).unwrap();
    assert_eq!(idx.get(1), Some(20));
    assert_eq!(idx.count(), 1);
}

#[test]
fn mmap_hash_test_remove() {
    let mut idx = MmapHashIndex::new(100);

    idx.insert(1, 10).unwrap();
    idx.insert(2, 20).unwrap();
    idx.remove(1);

    assert_eq!(idx.get(1), None);
    assert_eq!(idx.get(2), Some(20));
    assert_eq!(idx.count(), 1);
}

#[test]
fn test_reinsert_after_remove() {
    let mut idx = MmapHashIndex::new(100);

    idx.insert(1, 10).unwrap();
    idx.remove(1);
    idx.insert(1, 30).unwrap();

    assert_eq!(idx.get(1), Some(30));
    assert_eq!(idx.count(), 1);
}

#[test]
fn test_collision_handling() {
    let mut idx = MmapHashIndex::new(32);

    for i in 1u64..=32 {
        idx.insert(i * 100, i as u32).unwrap();
    }
    for i in 1u64..=32 {
        assert_eq!(idx.get(i * 100), Some(i as u32), "missing key {}", i * 100);
    }
}

#[test]
fn capacity_is_inflated_and_rounded() {
    assert_eq!(MmapHashIndex::new(100).capacity(), 256);
    assert_eq!(MmapHashIndex::new(0).capacity(), 16);
    assert_eq!(MmapHashIndex::new(32).capacity(), 64);
}

#[test]
fn sentinel_keys_are_dropped() {
    let mut idx = MmapHashIndex::new(10);
    idx.insert(0, 5).unwrap();
    idx.insert(TOMBSTONE_KEY, 6).unwrap();
    assert_eq!(idx.count(), 0);
    assert_eq!(idx.get(0), None);
    assert_eq!(idx.get(TOMBSTONE_KEY), None);
}

#[test]
fn colliding_keys_survive_removal_of_earlier_ones() {
    // 16 slots: keys 16, 32, 48 share home slot 0.
    let mut idx = MmapHashIndex::new(0);
    idx.insert(16, 1).unwrap();
    idx.insert(32, 2).unwrap();
    idx.insert(48, 3).unwrap();
    idx.insert(1, 4).unwrap();
    idx.remove(16);
    assert_eq!(idx.get(16), None);
    assert_eq!(idx.get(32), Some(2));
    assert_eq!(idx.get(48), Some(3));
    assert_eq!(idx.get(1), Some(4));
    idx.insert(64, 5).unwrap();
    assert_eq!(idx.get(64), Some(5));
    assert_eq!(idx.count(), 4);
}

#[test]
fn full_table_reports_index_full() {
    let mut idx = MmapHashIndex::new(0);
    for k in 1u64..=16 {
        idx.insert(k, k as u32).unwrap();
    }
    for k in 1u64..=16 {
        assert_eq!(idx.get(k), Some(k as u32));
    }
    assert_eq!(idx.insert(100, 1), Err(HashIndexError::IndexFull));
}

#[test]
fn probe_stops_at_smaller_distance() {
    let mut idx = MmapHashIndex::new(0);
    idx.insert(3, 1).unwrap();
    idx.insert(4, 2).unwrap();
    // key 19 has home 3; slot 4 holds key 4 at distance 0 < 1, so the probe stops there
    assert_eq!(idx.get(19), None);
    assert_eq!(idx.slot(3).key, 3);
    assert_eq!(idx.slot(4).probe_dist, 0);
}

#[test]
fn count_follows_inserts_and_removes() {
    let mut idx = MmapHashIndex::new(4);
    idx.insert(5, 1).unwrap();
    idx.insert(6, 2).unwrap();
    idx.insert(5, 3).unwrap();
    assert_eq!(idx.count(), 2);
    idx.remove(5);
    idx.remove(5);
    assert_eq!(idx.count(), 1);
}
