use sekejap::range_index::{ordered_key, RangeIndex};

fn key(x: f64) -> u64 {
    ordered_key(x.to_bits())
}

#[test]
fn test_range_insert_lookup() {
    let mut idx = RangeIndex::new();

    idx.insert(1, key(100.0));
    idx.insert(2, key(200.0));
    idx.insert(3, key(300.0));

    let result = idx.lookup_range(key(150.0), key(250.0));
    assert_eq!(result.len(), 1);
    assert!(result.contains(&2));
}

#[test]
fn test_range_eq() {
    let mut idx = RangeIndex::new();

    idx.insert(1, key(100.0));
    idx.insert(2, key(100.0));
    idx.insert(3, key(200.0));

    let result = idx.lookup_eq(key(100.0));
    assert!(!result.is_empty(), "Expected at least 1 match for value 100");

    let result2 = idx.lookup_eq(key(200.0));
    assert!(!result2.is_empty(), "Expected at least 1 match for value 200");
    assert!(result2.contains(&3), "Expected node 3 in result");
}

#[test]
fn test_range_remove() {
    let mut idx = RangeIndex::new();

    idx.insert(1, key(100.0));
    idx.insert(2, key(200.0));

    assert_eq!(idx.count(), 2);

    idx.remove(1);
    assert_eq!(idx.count(), 1);

    let result = idx.lookup_range(key(0.0), key(300.0));
    assert_eq!(result.len(), 1);
    assert!(result.contains(&2));
}

#[test]
fn test_bulk_insert() {
    let mut idx = RangeIndex::new();

    let entries: Vec<(u64, u32)> = (0..1000).map(|i| (key((i * 10) as f64), i as u32)).collect();

    idx.bulk_insert(entries);

    assert_eq!(idx.count(), 1000);

    let result = idx.lookup_range(key(100.0), key(500.0));
    assert_eq!(result.len(), 41);
}

#[test]
fn ordered_keys_follow_float_order() {
    let xs = [f64::NEG_INFINITY, -1e9, -2.5, -0.0, 0.0, 1e-300, 3.0, 1e9, f64::INFINITY];
    for w in xs.windows(2) {
        assert!(key(w[0]) < key(w[1]), "{} vs {}", w[0], w[1]);
    }
}

#[test]
fn range_lookups_are_in_key_order_and_inclusive() {
    let mut idx = RangeIndex::new();
    for (n, v) in [(5u32, 500.0), (1, 100.0), (3, 300.0), (4, 400.0), (2, 200.0)] {
        idx.insert(n, key(v));
    }
    assert_eq!(idx.lookup_range(key(300.0), key(700.0)), vec![3, 4, 5]);
    assert_eq!(idx.lookup_range(key(-5.0), key(99.0)), Vec::<u32>::new());
    // a node keeps one entry: inserting again moves it
    idx.insert(1, key(450.0));
    assert_eq!(idx.count(), 5);
    assert_eq!(idx.lookup_range(key(400.0), key(500.0)), vec![4, 1, 5]);
    assert_eq!(idx.lower_bound(key(300.0)), 1);
    assert_eq!(idx.upper_bound(key(300.0)), 2);
}

#[test]
fn prices_between_three_and_seven_hundred() {
    let mut idx = RangeIndex::new();
    let entries: Vec<(u64, u32)> = (1..=10).map(|i| (key((i * 100) as f64), i as u32)).collect();
    idx.bulk_insert(entries);
    assert_eq!(idx.lookup_range(key(300.0), key(700.0)).len(), 5);
}

#[test]
fn bulk_insert_sorts_unordered_entries() {
    let mut idx = RangeIndex::new();
    idx.insert(7, key(5.0));
    idx.bulk_insert(vec![(key(9.0), 1), (key(-3.0), 2), (key(5.0), 3), (key(0.5), 4)]);
    assert_eq!(idx.count(), 5);
    assert_eq!(idx.lookup_range(key(-10.0), key(10.0)), vec![2, 4, 7, 3, 1]);
}
