use sekejap::edge_meta::{decode, encode_blob, encode_inline, MetaRef};

#[test]
fn inline_metadata_round_trips() {
    let m = br#"{"why":"cause"}"#;
    let e = encode_inline(m).unwrap();
    assert_eq!(e.kind, 1);
    assert_eq!(e.len as usize, m.len());
    assert_eq!(e.bytes.len(), 32);
    assert_eq!(decode(&e), MetaRef::Inline(m.to_vec()));
}

#[test]
fn empty_metadata_has_no_slot_content() {
    let e = encode_inline(b"").unwrap();
    assert_eq!(e.kind, 0);
    assert_eq!(decode(&e), MetaRef::Empty);
}

#[test]
fn long_metadata_goes_to_the_blob_arena() {
    assert!(encode_inline(&[b'x'; 33]).is_none());
    assert!(encode_inline(&[b'x'; 32]).is_some());
    let e = encode_blob(4096, 77);
    assert_eq!(e.kind, 2);
    assert_eq!(&e.bytes[0..8], &4096u64.to_le_bytes());
    assert_eq!(&e.bytes[8..12], &77u32.to_le_bytes());
    assert_eq!(decode(&e), MetaRef::Blob { offset: 4096, len: 77 });
    assert_eq!(decode(&encode_blob(4096, 0)), MetaRef::Empty);
}
