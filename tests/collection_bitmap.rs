use sekejap::collection_bitmap::CollectionBitmapIndex;

#[test]
fn test_insert_get() {
    let mut idx = CollectionBitmapIndex::new();

    let col_hash = seahash::hash(b"citizens");
    idx.insert(col_hash, 0);
    idx.insert(col_hash, 5);
    idx.insert(col_hash, 100);

    let snap = idx.get_snapshot(col_hash);
    assert_eq!(snap.len(), 3);
    assert!(snap.contains(5));
    assert!(!snap.contains(1));
}

#[test]
fn collection_bitmap_test_remove() {
    let mut idx = CollectionBitmapIndex::new();
    let col_hash = seahash::hash(b"nodes");

    idx.insert(col_hash, 10);
    idx.insert(col_hash, 20);
    idx.remove(col_hash, 10);

    let snap = idx.get_snapshot(col_hash);
    assert_eq!(snap.len(), 1);
    assert!(!snap.contains(10));
    assert!(snap.contains(20));
}

#[test]
fn test_rebuild_from_iter() {
    let col_hash = seahash::hash(b"items");

    let pairs: Vec<(u64, u32)> = (0..100).map(|i| (col_hash, i)).collect();
    let idx = CollectionBitmapIndex::rebuild_from_iter(&pairs);

    let snap = idx.get_snapshot(col_hash);
    assert_eq!(snap.len(), 100);
}

#[test]
fn dirty_tracking_is_per_collection() {
    let mut idx = CollectionBitmapIndex::new();
    idx.insert(1, 1);
    idx.insert(2, 2);
    let mut d = idx.dirty_hashes();
    d.sort();
    assert_eq!(d, vec![1, 2]);
    idx.mark_clean(1);
    assert_eq!(idx.dirty_hashes(), vec![2]);
    idx.mark_clean(2);
    assert!(idx.dirty_hashes().is_empty());
    // removing an absent member changes nothing
    idx.remove(1, 99);
    assert!(idx.dirty_hashes().is_empty());
    idx.remove(1, 1);
    assert_eq!(idx.dirty_hashes(), vec![1]);
    assert!(!idx.contains(1, 1));
    assert!(idx.contains(2, 2));
    assert!(idx.get_snapshot(77).is_empty());
}
