use sekejap::wal::{
    count_entries, encode_entry, DiskWalConfig, NoOpWAL, WalBackend, WalConfig, WalEntry, WalMode, WalOp,
};

#[test]
fn test_noop_wal() {
    let mut wal = NoOpWAL::new();
    let entry = WalEntry {
        lsn: 0,
        timestamp: 0,
        op: WalOp::PutNode {
            slug_hash: 123,
            collection_hash: 456,
            data: vec![],
        },
    };

    let lsn1 = wal.append(&entry);
    let lsn2 = wal.append(&entry);

    assert_eq!(lsn1, 0);
    assert_eq!(lsn2, 1);
    assert_eq!(wal.current_lsn(), 2);
    assert!(!wal.is_enabled());
}

#[test]
fn noop_wal_batches_and_reports_nothing() {
    let mut wal = NoOpWAL::default();
    let e = WalEntry { lsn: 0, timestamp: 0, op: WalOp::DeleteNode { slug_hash: 1 } };
    assert_eq!(wal.append_batch(&[e.clone(), e.clone(), e]), 0);
    assert_eq!(wal.current_lsn(), 3);
    assert_eq!(wal.size_bytes(), 0);
    assert!(wal.replay_from(0).is_empty());
}

#[test]
fn put_node_frame_layout() {
    let e = WalEntry {
        lsn: 2,
        timestamp: 12345,
        op: WalOp::PutNode { slug_hash: 123, collection_hash: 456, data: vec![1, 2, 3] },
    };
    let b = encode_entry(&e);
    // 8 length + 8 lsn + 8 timestamp + 1 code + 8 + 8 + 4 + 3
    assert_eq!(b.len(), 48);
    assert_eq!(u64::from_le_bytes(b[0..8].try_into().unwrap()), 40);
    assert_eq!(u64::from_le_bytes(b[8..16].try_into().unwrap()), 2);
    assert_eq!(u64::from_le_bytes(b[16..24].try_into().unwrap()), 12345);
    assert_eq!(b[24], 1);
    assert_eq!(u64::from_le_bytes(b[25..33].try_into().unwrap()), 123);
    assert_eq!(u64::from_le_bytes(b[33..41].try_into().unwrap()), 456);
    assert_eq!(u32::from_le_bytes(b[41..45].try_into().unwrap()), 3);
    assert_eq!(&b[45..48], &[1, 2, 3]);
}

#[test]
fn op_codes_and_payload_sizes() {
    let cases = vec![
        (WalOp::DeleteNode { slug_hash: 9 }, 2u8, 8usize),
        (WalOp::PutEdge { from_node: 1, to_node: 2, edge_type_hash: 3, weight_bits: 0.5f32.to_bits() }, 3, 20),
        (WalOp::DeleteEdge { from_node: 1, to_node: 2, edge_type_hash: 3 }, 4, 16),
        (WalOp::Checkpoint { lsn: 77 }, 5, 8),
    ];
    for (op, code, payload) in cases {
        let b = encode_entry(&WalEntry { lsn: 0, timestamp: 0, op });
        assert_eq!(b[24], code);
        assert_eq!(b.len(), 25 + payload);
    }
    let b = encode_entry(&WalEntry {
        lsn: 0,
        timestamp: 0,
        op: WalOp::PutEdge { from_node: 1, to_node: 2, edge_type_hash: 3, weight_bits: 0.5f32.to_bits() },
    });
    assert_eq!(f32::from_le_bytes(b[41..45].try_into().unwrap()), 0.5);
}

#[test]
fn counting_frames_stops_at_a_torn_tail() {
    let mut log = Vec::new();
    for i in 0..10u64 {
        log.extend(encode_entry(&WalEntry {
            lsn: i,
            timestamp: i,
            op: WalOp::PutNode { slug_hash: i, collection_hash: 0, data: vec![] },
        }));
    }
    assert_eq!(count_entries(&log), 10);
    log.extend_from_slice(&[5, 0, 0]);
    assert_eq!(count_entries(&log), 10);
    let mut bad = log.clone();
    bad.extend_from_slice(&100u64.to_le_bytes());
    assert_eq!(count_entries(&bad), 10);
    assert_eq!(count_entries(&[]), 0);
    assert_eq!(count_entries(&0u64.to_le_bytes()), 0);
}

#[test]
fn wal_mode_names_ignore_case() {
    assert_eq!(WalMode::from_str("OFF"), WalMode::Disabled);
    assert_eq!(WalMode::from_str("NoOp"), WalMode::Disabled);
    assert_eq!(WalMode::from_str("Memory"), WalMode::Async);
    assert_eq!(WalMode::from_str("durable"), WalMode::Sync);
    assert_eq!(WalMode::from_str("???"), WalMode::Sync);
}

#[test]
fn wal_config_selects_backend() {
    assert_eq!(WalConfig::new(WalMode::Disabled).path("/x").backend(), WalBackend::NoOp);
    assert_eq!(WalConfig::new(WalMode::Async).path("/x").backend(), WalBackend::NoOp);
    assert_eq!(WalConfig::default().backend(), WalBackend::NoOp);
    assert_eq!(WalConfig::default().path("/data").backend(), WalBackend::Disk("/data".to_string()));
    let c = WalConfig::default().mode(WalMode::Disabled);
    assert_eq!(c.mode, WalMode::Disabled);
    assert_eq!(c.max_batch, 10_000);
    assert_eq!(DiskWalConfig::default().buffer_size, 64 * 1024);
}
