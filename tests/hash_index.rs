use sekejap::hash_index::HashIndex;
use sekejap::text::hash_text;

fn v(s: &str) -> u64 {
    hash_text(s)
}

#[test]
fn test_hash_index_basic() {
    let mut idx = HashIndex::new();

    idx.insert(1, v("active"));
    idx.insert(2, v("active"));
    idx.insert(3, v("inactive"));

    let active = idx.lookup_eq(v("active"));
    assert_eq!(active.len(), 2);
    assert!(active.contains(&1));
    assert!(active.contains(&2));

    let inactive = idx.lookup_eq(v("inactive"));
    assert_eq!(inactive.len(), 1);
    assert!(inactive.contains(&3));
}

#[test]
fn test_hash_index_remove() {
    let mut idx = HashIndex::new();

    idx.insert(1, v("active"));
    assert_eq!(idx.lookup_eq(v("active")).len(), 1);

    idx.remove(1);
    assert_eq!(idx.lookup_eq(v("active")).len(), 0);
}

#[test]
fn test_hash_index_update() {
    let mut idx = HashIndex::new();

    idx.insert(1, v("active"));
    idx.insert(1, v("inactive"));

    assert_eq!(idx.lookup_eq(v("active")).len(), 0);
    assert_eq!(idx.lookup_eq(v("inactive")).len(), 1);
}

#[test]
fn twenty_alternating_statuses() {
    let mut idx = HashIndex::new();
    for i in 0..20u32 {
        idx.insert(i, v(if i % 2 == 0 { "active" } else { "inactive" }));
    }
    assert_eq!(idx.lookup_eq(v("active")).len(), 10);
    assert_eq!(idx.count(), 20);
    idx.remove(99);
    assert_eq!(idx.count(), 20);
}
