use sekejap::ql::{LimitError, SecurityLimits, SekejapQL};
use sekejap::search::SearchContext;
use sekejap::text::{collection_key_of, hash_text, parse_entity_id, same_text};

#[test]
fn entity_ids_hash_slug_and_collection() {
    let (col, full) = parse_entity_id("users/ada");
    assert_eq!(full, seahash::hash(b"users/ada"));
    assert_eq!(col, seahash::hash(b"users"));
    assert_ne!(col, full);
    let (col, _) = parse_entity_id("plain");
    assert_eq!(col, seahash::hash(b"nodes"));
    let (col, _) = parse_entity_id("a/b/c");
    assert_eq!(col, seahash::hash(b"a"));
    assert_eq!(hash_text("next"), seahash::hash(b"next"));
}

#[test]
fn collection_keys() {
    assert_eq!(collection_key_of(b"users/ada"), b"users".to_vec());
    assert_eq!(collection_key_of(b"/x"), Vec::<u8>::new());
    assert_eq!(collection_key_of(b"abc"), b"nodes".to_vec());
    assert!(same_text("abc", "abc"));
    assert!(!same_text("abc", "abd"));
}

#[test]
fn search_context_tracks_visits() {
    let mut c = SearchContext::new(16);
    assert!(!c.is_visited(3));
    c.mark_visited(3);
    assert!(c.is_visited(3));
    c.reset();
    assert!(!c.is_visited(3));
}

#[test]
fn query_limits() {
    let q = SekejapQL::new();
    assert_eq!(q.limits().max_pipeline_length, 50);
    assert_eq!(q.check_pipeline(50, 3), Ok(()));
    assert_eq!(q.check_pipeline(51, 0), Err(LimitError::PipelineTooLong));
    assert_eq!(q.check_pipeline(1, 4), Err(LimitError::NestedTooDeep));
    let small = SekejapQL::with_limits(SecurityLimits {
        max_pipeline_length: 2,
        max_nested_pipelines: 0,
        max_slug_length: 8,
        max_text_length: 8,
    });
    assert_eq!(small.check_pipeline(3, 0), Err(LimitError::PipelineTooLong));
    assert_eq!(small.check_pipeline(2, 1), Err(LimitError::NestedTooDeep));
}
