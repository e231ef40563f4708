//! Version tracking and the transaction managers built on it.
use vstd::prelude::*;

use crate::txn::{
    contains_key, Snapshot, Transaction, TxnConfig, TxnError, TxnId, TxnMode, TxnState, Version,
    QuickSnapshot,
};

verus! {

/// Removing the one occurrence of `s[i]` removes it from the set of elements.
proof fn lemma_remove_unique(s: Seq<u64>, i: int)
    requires
        s.no_duplicates(),
        0 <= i < s.len(),
    ensures
        s.remove(i).no_duplicates(),
        s.remove(i).to_set() == s.to_set().remove(s[i]),
{
    let t = s.remove(i);
    assert forall|a: int, b: int| 0 <= a < t.len() && 0 <= b < t.len() && a != b implies t[a] != t[b] by {
        let a2 = if a < i { a } else { a + 1 };
        let b2 = if b < i { b } else { b + 1 };
        assert(t[a] == s[a2]);
        assert(t[b] == s[b2]);
    }
    assert forall|x: u64| t.to_set().contains(x) implies s.to_set().remove(s[i]).contains(x) by {
        let k = t.index_of(x);
        let k2 = if k < i { k } else { k + 1 };
        assert(t[k] == s[k2]);
        assert(s.contains(x));
    }
    assert forall|x: u64| s.to_set().remove(s[i]).contains(x) implies t.to_set().contains(x) by {
        let k = s.index_of(x);
        assert(k != i);
        if k < i {
            assert(t[k] == x);
        } else {
            assert(t[k - 1] == x);
        }
    }
    assert(t.to_set() =~= s.to_set().remove(s[i]));
}

/// The committed version, the transactions in flight, the oldest version still
/// needed, and the next transaction identifier.
pub struct FastVersionTracker {
    current: Version,
    active: Vec<TxnId>,
    oldest_active: Version,
    next_txn_id: TxnId,
}

impl FastVersionTracker {
    /// The in-flight list holds each transaction once.
    pub closed spec fn wf(&self) -> bool {
        self.active@.no_duplicates()
    }

    pub closed spec fn spec_current(&self) -> Version {
        self.current
    }

    /// The transactions in flight.
    pub closed spec fn active_set(&self) -> Set<TxnId> {
        self.active@.to_set()
    }

    pub closed spec fn spec_oldest(&self) -> Version {
        self.oldest_active
    }

    pub closed spec fn spec_next_id(&self) -> TxnId {
        self.next_txn_id
    }

    pub fn new() -> (r: Self)
        ensures
            r.wf(),
            r.spec_current() == 0,
            r.active_set() == Set::<TxnId>::empty(),
            r.spec_oldest() == 0,
            r.spec_next_id() == 1,
    {
        let r = FastVersionTracker { current: 0, active: Vec::new(), oldest_active: 0, next_txn_id: 1 };
        proof {
            assert(r.active@.to_set() =~= Set::<TxnId>::empty());
        }
        r
    }

    /// The committed version.
    pub fn current(&self) -> (r: Version)
        ensures
            r == self.spec_current(),
    {
        self.current
    }

    /// The version the next commit will get.
    pub fn peek_next(&self) -> (r: Version)
        requires
            self.spec_current() < u64::MAX,
        ensures
            r == self.spec_current() + 1,
    {
        self.current + 1
    }

    /// Hands out a transaction identifier; the counter wraps like an atomic add.
    pub fn next_txn_id(&mut self) -> (r: TxnId)
        ensures
            r == old(self).spec_next_id(),
            final(self).spec_next_id() == old(self).spec_next_id().wrapping_add(1),
            final(self).active_set() == old(self).active_set(),
            final(self).wf() == old(self).wf(),
            final(self).spec_current() == old(self).spec_current(),
            final(self).spec_oldest() == old(self).spec_oldest(),
    {
        let id = self.next_txn_id;
        self.next_txn_id = self.next_txn_id.wrapping_add(1);
        id
    }

    /// Marks `txn_id` as in flight.
    pub fn begin_txn(&mut self, txn_id: TxnId)
        requires
            old(self).wf(),
        ensures
            final(self).wf(),
            final(self).active_set() == old(self).active_set().insert(txn_id),
            final(self).spec_current() == old(self).spec_current(),
            final(self).spec_oldest() == old(self).spec_oldest(),
            final(self).spec_next_id() == old(self).spec_next_id(),
    {
        if !contains_key(&self.active, txn_id) {
            proof {
                crate::txn::lemma_push_unique(self.active@, txn_id);
            }
            self.active.push(txn_id);
        } else {
            proof {
                assert(self.active@.to_set() =~= self.active@.to_set().insert(txn_id));
            }
        }
    }

    /// Ends `txn_id`; a commit raises the committed version to its own when
    /// that is higher.
    pub fn end_txn(&mut self, txn_id: TxnId, commit_version: Option<Version>)
        requires
            old(self).wf(),
        ensures
            final(self).wf(),
            final(self).active_set() == old(self).active_set().remove(txn_id),
            final(self).spec_current() == (match commit_version {
                Some(v) => if v > old(self).spec_current() { v } else { old(self).spec_current() },
                None => old(self).spec_current(),
            }),
            final(self).spec_oldest() == old(self).spec_oldest(),
            final(self).spec_next_id() == old(self).spec_next_id(),
    {
        let mut i: usize = 0;
        while i < self.active.len() && self.active[i] != txn_id
            invariant
                i <= self.active@.len(),
                forall|j: int| 0 <= j < i ==> self.active@[j] != txn_id,
            decreases self.active.len() - i,
        {
            i = i + 1;
        }
        if i < self.active.len() {
            proof {
                lemma_remove_unique(self.active@, i as int);
            }
            self.active.remove(i);
        } else {
            proof {
                assert(!self.active@.contains(txn_id));
                assert(self.active@.to_set() =~= self.active@.to_set().remove(txn_id));
            }
        }
        if let Some(v) = commit_version {
            if v > self.current {
                self.current = v;
            }
        }
    }

    /// Raises the committed version by one (wrapping like an atomic add) and
    /// returns the new value.
    pub fn increment(&mut self) -> (r: Version)
        ensures
            r == old(self).spec_current().wrapping_add(1),
            final(self).spec_current() == r,
            final(self).active_set() == old(self).active_set(),
            final(self).wf() == old(self).wf(),
            final(self).spec_oldest() == old(self).spec_oldest(),
            final(self).spec_next_id() == old(self).spec_next_id(),
    {
        self.current = self.current.wrapping_add(1);
        self.current
    }

    /// The transactions in flight.
    pub fn active_txns(&self) -> (r: Vec<TxnId>)
        requires
            self.wf(),
        ensures
            r@.no_duplicates(),
            r@.to_set() == self.active_set(),
    {
        self.active.clone()
    }

    /// How many transactions are in flight.
    pub fn active_count(&self) -> (r: usize)
        requires
            self.wf(),
        ensures
            r == self.active_set().len(),
    {
        proof {
            self.active@.unique_seq_to_set();
        }
        self.active.len()
    }

    /// Whether `txn_id` is in flight.
    pub fn is_active(&self, txn_id: TxnId) -> (r: bool)
        ensures
            r == self.active_set().contains(txn_id),
    {
        contains_key(&self.active, txn_id)
    }

    /// The oldest version still needed by a reader.
    pub fn oldest_active(&self) -> (r: Version)
        ensures
            r == self.spec_oldest(),
    {
        self.oldest_active
    }

    /// With nothing in flight, the oldest needed version is the committed one.
    pub fn update_oldest(&mut self)
        requires
            old(self).wf(),
        ensures
            final(self).wf(),
            final(self).spec_oldest() == (if old(self).active_set().len() == 0 {
                old(self).spec_current()
            } else {
                old(self).spec_oldest()
            }),
            final(self).spec_current() == old(self).spec_current(),
            final(self).active_set() == old(self).active_set(),
            final(self).spec_next_id() == old(self).spec_next_id(),
    {
        proof {
            self.active@.unique_seq_to_set();
        }
        if self.active.len() == 0 {
            self.oldest_active = self.current;
        }
    }

    /// A snapshot at the committed version with the transactions in flight.
    pub fn snapshot(&self) -> (r: Snapshot)
        requires
            self.wf(),
        ensures
            r.version == self.spec_current(),
            r.active_txns@.to_set() == self.active_set(),
    {
        Snapshot::new(self.current, self.active_txns())
    }

    /// The committed version and the number in flight.
    pub fn quick_snapshot(&self) -> (r: QuickSnapshot)
        requires
            self.wf(),
        ensures
            r.version == self.spec_current(),
            r.active_count == self.active_set().len(),
    {
        QuickSnapshot { version: self.current, active_count: self.active_count() }
    }
}

impl Default for FastVersionTracker {
    fn default() -> (r: Self)
        ensures
            r.wf(),
            r.spec_current() == 0,
            r.active_set() == Set::<TxnId>::empty(),
            r.spec_next_id() == 1,
    {
        Self::new()
    }
}

/// The operations every transaction manager offers.
pub trait TransactionManager {
    /// Well-formedness of the manager's own state.
    spec fn inv(&self) -> bool;

    /// Begins a read-write transaction.
    fn begin(&mut self) -> (r: Result<Transaction, TxnError>)
        requires
            old(self).inv(),
        ensures
            final(self).inv(),
            r matches Ok(t) ==> t.wf() && t.state == TxnState::Active && !t.read_only;

    /// Begins a read-only transaction.
    fn begin_readonly(&mut self) -> (r: Result<Snapshot, TxnError>)
        requires
            old(self).inv(),
        ensures
            final(self).inv();

    /// Commits a transaction.
    fn commit(&mut self, txn: Transaction) -> (r: Result<(), TxnError>)
        requires
            old(self).inv(),
        ensures
            final(self).inv();

    /// Rolls a transaction back.
    fn rollback(&mut self, txn: Transaction)
        requires
            old(self).inv(),
        ensures
            final(self).inv();

    /// The current snapshot for reads outside a transaction.
    fn snapshot(&self) -> (r: Snapshot)
        requires
            self.inv();

    /// How many transactions are in flight.
    fn active_count(&self) -> (r: usize)
        requires
            self.inv();

    /// The committed version.
    fn current_version(&self) -> (r: Version);

    /// Whether MVCC is on.
    fn is_enabled(&self) -> (r: bool);
}

/// A manager with snapshot isolation over a version tracker.
pub struct FastMvccManager {
    config: TxnConfig,
    tracker: FastVersionTracker,
}

impl FastMvccManager {
    pub fn new(config: TxnConfig) -> (r: Self)
        ensures
            r.inv(),
            r.spec_tracker().spec_current() == 0,
            r.spec_tracker().active_set() == Set::<TxnId>::empty(),
            r.config() == config,
    {
        FastMvccManager { config, tracker: FastVersionTracker::new() }
    }

    pub closed spec fn spec_tracker(&self) -> FastVersionTracker {
        self.tracker
    }

    pub closed spec fn config(&self) -> TxnConfig {
        self.config
    }

    /// The version tracker.
    pub fn tracker(&self) -> (r: &FastVersionTracker)
        ensures
            *r == self.spec_tracker(),
    {
        &self.tracker
    }
}

impl TransactionManager for FastMvccManager {
    closed spec fn inv(&self) -> bool {
        self.tracker.wf()
    }

    /// Takes the next identifier, starts at the committed version and marks
    /// the transaction in flight.
    fn begin(&mut self) -> (r: Result<Transaction, TxnError>)
        ensures
            r matches Ok(t) && t.id == old(self).spec_tracker().spec_next_id()
                && t.start_version == old(self).spec_tracker().spec_current(),
            final(self).spec_tracker().active_set() == old(self).spec_tracker().active_set().insert(
                old(self).spec_tracker().spec_next_id(),
            ),
            final(self).spec_tracker().spec_current() == old(self).spec_tracker().spec_current(),
            final(self).spec_tracker().spec_next_id() == old(self).spec_tracker().spec_next_id().wrapping_add(1),
    {
        let id = self.tracker.next_txn_id();
        let version = self.tracker.current();
        self.tracker.begin_txn(id);
        Ok(Transaction::new(id, version))
    }

    fn begin_readonly(&mut self) -> (r: Result<Snapshot, TxnError>)
        ensures
            r matches Ok(s) && s.version == old(self).spec_tracker().spec_current()
                && s.active_txns@.to_set() == old(self).spec_tracker().active_set(),
            final(self).spec_tracker() == old(self).spec_tracker(),
    {
        Ok(self.snapshot())
    }

    /// Fails when the transaction is no longer active; a transaction that wrote
    /// something raises the committed version by one, any other leaves it.
    fn commit(&mut self, txn: Transaction) -> (r: Result<(), TxnError>)
        ensures
            txn.state != TxnState::Active ==> r == Err::<(), TxnError>(TxnError::NotActive)
                && final(self).spec_tracker() == old(self).spec_tracker(),
            txn.state == TxnState::Active ==> r is Ok
                && final(self).spec_tracker().active_set() == old(self).spec_tracker().active_set().remove(txn.id)
                && final(self).spec_tracker().spec_current() == (if txn.read_only || txn.write_set@.len() == 0 {
                    old(self).spec_tracker().spec_current()
                } else {
                    old(self).spec_tracker().spec_current().wrapping_add(1)
                }),
    {
        let mut txn = txn;
        if !txn.is_active() {
            return Err(TxnError::NotActive);
        }
        if txn.read_only || txn.write_set.len() == 0 {
            self.tracker.end_txn(txn.id, None);
            txn.state = TxnState::Committed;
            return Ok(());
        }
        let commit_version = self.tracker.increment();
        txn.commit_version = Some(commit_version);
        txn.state = TxnState::Committed;
        self.tracker.end_txn(txn.id, Some(commit_version));
        Ok(())
    }

    /// Ends the transaction without raising the version.
    fn rollback(&mut self, txn: Transaction)
        ensures
            final(self).spec_tracker().active_set() == old(self).spec_tracker().active_set().remove(txn.id),
            final(self).spec_tracker().spec_current() == old(self).spec_tracker().spec_current(),
    {
        let mut txn = txn;
        self.tracker.end_txn(txn.id, None);
        txn.state = TxnState::RolledBack;
    }

    fn snapshot(&self) -> (r: Snapshot)
        ensures
            r.version == self.spec_tracker().spec_current(),
            r.active_txns@.to_set() == self.spec_tracker().active_set(),
    {
        self.tracker.snapshot()
    }

    fn active_count(&self) -> (r: usize)
        ensures
            r == self.spec_tracker().active_set().len(),
    {
        self.tracker.active_count()
    }

    fn current_version(&self) -> (r: Version)
        ensures
            r == self.spec_tracker().spec_current(),
    {
        self.tracker.current()
    }

    fn is_enabled(&self) -> (r: bool)
        ensures
            r,
    {
        true
    }
}

/// A manager without isolation: every call succeeds at once.
pub struct NoOpManager;

impl NoOpManager {
    pub fn new() -> (r: Self) {
        NoOpManager
    }
}

impl Default for NoOpManager {
    fn default() -> (r: Self) {
        NoOpManager
    }
}

impl TransactionManager for NoOpManager {
    open spec fn inv(&self) -> bool {
        true
    }

    /// Always transaction 0 at version 0.
    fn begin(&mut self) -> (r: Result<Transaction, TxnError>)
        ensures
            r matches Ok(t) && t.id == 0 && t.start_version == 0,
    {
        Ok(Transaction::new(0, 0))
    }

    fn begin_readonly(&mut self) -> (r: Result<Snapshot, TxnError>)
        ensures
            r matches Ok(s) && s.version == 0 && s.active_txns@.len() == 0,
    {
        Ok(Snapshot::empty())
    }

    fn commit(&mut self, txn: Transaction) -> (r: Result<(), TxnError>)
        ensures
            r is Ok,
    {
        Ok(())
    }

    fn rollback(&mut self, txn: Transaction) {
    }

    fn snapshot(&self) -> (r: Snapshot)
        ensures
            r.version == 0,
            r.active_txns@.len() == 0,
    {
        Snapshot::empty()
    }

    fn active_count(&self) -> (r: usize)
        ensures
            r == 0,
    {
        0
    }

    fn current_version(&self) -> (r: Version)
        ensures
            r == 0,
    {
        0
    }

    fn is_enabled(&self) -> (r: bool)
        ensures
            !r,
    {
        false
    }
}

/// The manager that a configuration selects.
pub enum TxnManager {
    NoOp(NoOpManager),
    Mvcc(FastMvccManager),
}

impl TxnManager {
    pub open spec fn spec_is_enabled(&self) -> bool {
        self is Mvcc
    }
}

/// Builds the manager for `config`: none when MVCC is off, snapshot isolation
/// when it is on.
pub fn create_txn_manager(config: TxnConfig) -> (r: TxnManager)
    ensures
        r.spec_is_enabled() == (config.mode == TxnMode::Enabled),
        r matches TxnManager::Mvcc(m) ==> m.inv() && m.spec_tracker().spec_current() == 0
            && m.spec_tracker().active_set() == Set::<TxnId>::empty(),
{
    match config.mode {
        TxnMode::Disabled => TxnManager::NoOp(NoOpManager::new()),
        TxnMode::Enabled => TxnManager::Mvcc(FastMvccManager::new(config)),
    }
}

} // verus!
