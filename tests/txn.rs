use sekejap::mvcc::{create_txn_manager, FastMvccManager, FastVersionTracker, NoOpManager, TransactionManager, TxnManager};
use sekejap::txn::{
    IsolationLevel, QuickSnapshot, Snapshot, Transaction, TxnConfig, TxnError, TxnIdGenerator, TxnMode, TxnState,
};

#[test]
fn test_noop_manager() {
    let mut mgr = NoOpManager::new();
    assert!(!mgr.is_enabled());

    let txn = mgr.begin().unwrap();
    mgr.commit(txn).unwrap();
}

#[test]
fn test_fast_mvcc_manager() {
    let mut mgr = FastMvccManager::new(TxnConfig::default());
    assert!(mgr.is_enabled());

    let mut txn = mgr.begin().unwrap();
    assert!(txn.is_active());

    txn.record_write(1);
    mgr.commit(txn).unwrap();
    assert_eq!(mgr.current_version(), 1);
}

#[test]
fn test_readonly_fast() {
    let mut mgr = FastMvccManager::new(TxnConfig::default());

    let snap = mgr.begin_readonly().unwrap();
    assert_eq!(snap.version, 0);

    let mut txn2 = mgr.begin().unwrap();
    txn2.record_write(1);
    mgr.commit(txn2).unwrap();
    assert_eq!(mgr.current_version(), 1);
}

#[test]
fn txn_mode_names_ignore_case() {
    assert_eq!(TxnMode::from_str("OFF"), TxnMode::Disabled);
    assert_eq!(TxnMode::from_str("Disabled"), TxnMode::Disabled);
    assert_eq!(TxnMode::from_str("none"), TxnMode::Disabled);
    assert_eq!(TxnMode::from_str("MVCC"), TxnMode::Enabled);
    assert_eq!(TxnMode::from_str("whatever"), TxnMode::Enabled);
    assert_eq!(TxnMode::from_lowercase("OFF"), TxnMode::Enabled);
}

#[test]
fn txn_config_builders() {
    let c = TxnConfig::new(TxnMode::Disabled);
    assert!(!c.is_enabled());
    assert_eq!(c.max_retries, 3);
    assert_eq!(c.timeout_ms, 0);
    let c = c.mode(TxnMode::Enabled).isolation(IsolationLevel::ReadCommitted);
    assert!(c.is_enabled());
    assert_eq!(c.isolation, IsolationLevel::ReadCommitted);
    assert_eq!(TxnConfig::default().isolation, IsolationLevel::Snapshot);
}

#[test]
fn snapshot_visibility() {
    let s = Snapshot::new(5, vec![7, 9]);
    assert!(s.is_visible(3, 5));
    assert!(!s.is_visible(3, 6));
    assert!(!s.is_visible(7, 1));
    assert!(Snapshot::empty().is_visible(1, 0));
    assert_eq!(Snapshot::empty().timestamp, 0);
}

#[test]
fn transaction_conflicts() {
    let mut a = Transaction::new(1, 10);
    a.record_read(5);
    a.record_read(5);
    assert_eq!(a.read_set.len(), 1);
    let mut b = Transaction::new(2, 10);
    b.record_write(5);
    // b has not committed: conflict on key 5
    assert!(a.conflicts_with(&b));
    // b committed before a started: no conflict
    b.commit_version = Some(10);
    assert!(!a.conflicts_with(&b));
    b.commit_version = Some(11);
    assert!(a.conflicts_with(&b));
    let mut c = Transaction::new(3, 0);
    c.record_write(6);
    assert!(!a.conflicts_with(&c));
    assert!(Transaction::new_readonly(4, 0).read_only);
}

#[test]
fn commit_of_inactive_transaction_fails() {
    let mut mgr = FastMvccManager::new(TxnConfig::default());
    let mut txn = mgr.begin().unwrap();
    txn.state = TxnState::Committed;
    assert_eq!(mgr.commit(txn), Err(TxnError::NotActive));
}

#[test]
fn tracker_counts_active_transactions() {
    let mut mgr = FastMvccManager::new(TxnConfig::default());
    let t1 = mgr.begin().unwrap();
    let t2 = mgr.begin().unwrap();
    assert_eq!(t1.id, 1);
    assert_eq!(t2.id, 2);
    assert_eq!(mgr.active_count(), 2);
    let snap = mgr.snapshot();
    let mut ids = snap.active_txns.clone();
    ids.sort();
    assert_eq!(ids, vec![1, 2]);
    mgr.rollback(t1);
    assert_eq!(mgr.active_count(), 1);
    mgr.commit(t2).unwrap();
    assert_eq!(mgr.active_count(), 0);
    assert_eq!(mgr.current_version(), 0);
    assert!(mgr.tracker().quick_snapshot().is_valid(0));
}

#[test]
fn version_tracker_end_raises_to_max() {
    let mut t = FastVersionTracker::new();
    t.begin_txn(4);
    assert!(t.is_active(4));
    t.end_txn(4, Some(9));
    assert!(!t.is_active(4));
    assert_eq!(t.current(), 9);
    t.end_txn(5, Some(3));
    assert_eq!(t.current(), 9);
    assert_eq!(t.peek_next(), 10);
    assert_eq!(t.increment(), 10);
    t.update_oldest();
    assert_eq!(t.oldest_active(), 10);
}

#[test]
fn id_generator_starts_at_one() {
    let mut g = TxnIdGenerator::new();
    assert_eq!(g.next(), 1);
    assert_eq!(g.next(), 2);
}

#[test]
fn quick_snapshot_validity() {
    let q = QuickSnapshot { version: 3, active_count: 0 };
    assert!(q.is_valid(3));
    assert!(!q.is_valid(4));
}

#[test]
fn create_manager_follows_mode() {
    assert!(matches!(create_txn_manager(TxnConfig::new(TxnMode::Disabled)), TxnManager::NoOp(_)));
    assert!(matches!(create_txn_manager(TxnConfig::default()), TxnManager::Mvcc(_)));
}

#[test]
fn snapshots_are_stamped_with_the_clock() {
    let s = Snapshot::new(1, vec![]);
    assert!(s.timestamp > 0);
}
