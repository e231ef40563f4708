use sekejap::postpass::{compare_keys, sort_and_skip, SortKey};
use sekejap::range_index::ordered_key;

fn num(x: f64) -> SortKey {
    SortKey::Num(ordered_key(x.to_bits()))
}

#[test]
fn missing_keys_sort_last_in_both_directions() {
    let hits = vec![
        (1, SortKey::Null),
        (2, SortKey::Str(b"b".to_vec())),
        (3, num(30.0)),
        (4, num(-5.0)),
        (5, SortKey::Str(b"a".to_vec())),
    ];
    assert_eq!(sort_and_skip(&hits, Some(true), 0), vec![4, 3, 5, 2, 1]);
    assert_eq!(sort_and_skip(&hits, Some(false), 0), vec![2, 5, 3, 4, 1]);
}

#[test]
fn skip_after_sort_and_without_sort() {
    let hits = vec![(10, num(3.0)), (11, num(1.0)), (12, num(2.0))];
    assert_eq!(sort_and_skip(&hits, Some(true), 1), vec![12, 10]);
    assert_eq!(sort_and_skip(&hits, None, 1), vec![11, 12]);
    assert_eq!(sort_and_skip(&hits, None, 9), Vec::<u32>::new());
}

#[test]
fn equal_keys_keep_bitmap_order() {
    let hits = vec![(1, num(5.0)), (2, num(5.0)), (3, num(1.0))];
    assert_eq!(sort_and_skip(&hits, Some(true), 0), vec![3, 1, 2]);
}

#[test]
fn key_comparison() {
    assert_eq!(compare_keys(&SortKey::Str(b"ab".to_vec()), &SortKey::Str(b"abc".to_vec())), -1);
    assert_eq!(compare_keys(&SortKey::Str(b"b".to_vec()), &SortKey::Str(b"abc".to_vec())), 1);
    assert_eq!(compare_keys(&SortKey::Null, &SortKey::Null), 0);
    assert_eq!(compare_keys(&num(2.0), &SortKey::Str(Vec::new())), -1);
}
