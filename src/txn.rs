//! Multi-version concurrency control: transactions, snapshots, the version
//! tracker and the managers that hand them out.
use vstd::prelude::*;

use crate::text::{lower_of, lowercase, same_text};

verus! {

/// Unique transaction identifier.
pub type TxnId = u64;

/// Version number of the committed state.
pub type Version = u64;

/// Whether multi-version concurrency control is switched on.
#[derive(Debug, Clone, Copy, PartialEq, Eq, Structural)]
pub enum TxnMode {
    /// No isolation: the fastest mode, for single-threaded or batch work.
    Disabled,
    /// Snapshot isolation (the default).
    Enabled,
}

/// The mode that a lower-case mode name selects; unknown names give the default.
pub open spec fn txn_mode_named(t: Seq<char>) -> TxnMode {
    if t == "off"@ || t == "disabled"@ || t == "none"@ {
        TxnMode::Disabled
    } else {
        TxnMode::Enabled
    }
}

impl Default for TxnMode {
    fn default() -> (r: Self)
        ensures
            r == TxnMode::Enabled,
    {
        TxnMode::Enabled
    }
}

impl TxnMode {
    /// Parses a mode name, ignoring case.
    pub fn from_str(s: &str) -> (r: Self)
        ensures
            r == txn_mode_named(lower_of(s@)),
    {
        let t = lowercase(s);
        Self::from_lowercase(t.as_str())
    }

    /// Parses a mode name that is already in lower case.
    pub fn from_lowercase(t: &str) -> (r: Self)
        ensures
            r == txn_mode_named(t@),
    {
        proof {
            reveal_strlit("off");
            reveal_strlit("disabled");
            reveal_strlit("none");
        }
        if same_text(t, "off") || same_text(t, "disabled") || same_text(t, "none") {
            TxnMode::Disabled
        } else {
            TxnMode::Enabled
        }
    }
}

/// Isolation level of a transaction.
#[derive(Debug, Clone, Copy, PartialEq, Eq, Structural)]
pub enum IsolationLevel {
    /// Only committed data is seen.
    ReadCommitted,
    /// The state at transaction start is seen (the default).
    Snapshot,
}

impl Default for IsolationLevel {
    fn default() -> (r: Self)
        ensures
            r == IsolationLevel::Snapshot,
    {
        IsolationLevel::Snapshot
    }
}

/// Transaction configuration.
#[derive(Debug, Clone, Copy, PartialEq, Eq, Structural)]
pub struct TxnConfig {
    pub mode: TxnMode,
    pub isolation: IsolationLevel,
    /// Timeout in milliseconds; 0 means none.
    pub timeout_ms: u64,
    /// Retries on conflict.
    pub max_retries: usize,
}

impl Default for TxnConfig {
    fn default() -> (r: Self)
        ensures
            r == (TxnConfig {
                mode: TxnMode::Enabled,
                isolation: IsolationLevel::Snapshot,
                timeout_ms: 0,
                max_retries: 3,
            }),
    {
        TxnConfig { mode: TxnMode::Enabled, isolation: IsolationLevel::Snapshot, timeout_ms: 0, max_retries: 3 }
    }
}

impl TxnConfig {
    /// The default configuration with the given mode.
    pub fn new(mode: TxnMode) -> (r: Self)
        ensures
            r == (TxnConfig { mode, isolation: IsolationLevel::Snapshot, timeout_ms: 0, max_retries: 3 }),
    {
        TxnConfig { mode, isolation: IsolationLevel::Snapshot, timeout_ms: 0, max_retries: 3 }
    }

    /// Replaces the mode.
    pub fn mode(self, mode: TxnMode) -> (r: Self)
        ensures
            r == (TxnConfig { mode, ..self }),
    {
        TxnConfig { mode, ..self }
    }

    /// Replaces the isolation level.
    pub fn isolation(self, level: IsolationLevel) -> (r: Self)
        ensures
            r == (TxnConfig { isolation: level, ..self }),
    {
        TxnConfig { isolation: level, ..self }
    }

    /// Whether MVCC is on.
    pub fn is_enabled(&self) -> (r: bool)
        ensures
            r == (self.mode == TxnMode::Enabled),
    {
        match self.mode {
            TxnMode::Enabled => true,
            TxnMode::Disabled => false,
        }
    }
}

/// Life-cycle state of a transaction.
#[derive(Debug, Clone, Copy, PartialEq, Eq, Structural)]
pub enum TxnState {
    Active,
    Committing,
    Committed,
    RolledBack,
}

/// Errors of the transaction layer.
#[derive(Debug, Clone, Copy, PartialEq, Eq, Structural)]
pub enum TxnError {
    /// The transaction handed to `commit` is no longer active.
    NotActive,
}

/// Whether `key` occurs in `keys`.
pub fn contains_key(keys: &Vec<u64>, key: u64) -> (r: bool)
    ensures
        r == keys@.contains(key),
{
    let mut i: usize = 0;
    while i < keys.len()
        invariant
            i <= keys@.len(),
            forall|j: int| 0 <= j < i ==> keys@[j] != key,
        decreases keys.len() - i,
    {
        if keys[i] == key {
            return true;
        }
        i = i + 1;
    }
    false
}

/// A transaction: identity, state, the versions that bound it, and the keys it
/// read and wrote, each recorded once.
pub struct Transaction {
    pub id: TxnId,
    pub state: TxnState,
    pub start_version: Version,
    pub commit_version: Option<Version>,
    pub read_set: Vec<u64>,
    pub write_set: Vec<u64>,
    pub read_only: bool,
}

impl Transaction {
    /// Each key is recorded at most once.
    pub open spec fn wf(&self) -> bool {
        self.read_set@.no_duplicates() && self.write_set@.no_duplicates()
    }

    /// The keys read, as a set.
    pub open spec fn reads(&self) -> Set<u64> {
        self.read_set@.to_set()
    }

    /// The keys written, as a set.
    pub open spec fn writes(&self) -> Set<u64> {
        self.write_set@.to_set()
    }

    /// A fresh read-write transaction.
    pub fn new(id: TxnId, start_version: Version) -> (r: Self)
        ensures
            r.wf(),
            r.id == id,
            r.start_version == start_version,
            r.state == TxnState::Active,
            r.commit_version is None,
            r.read_set@.len() == 0,
            r.write_set@.len() == 0,
            !r.read_only,
    {
        Transaction {
            id,
            state: TxnState::Active,
            start_version,
            commit_version: None,
            read_set: Vec::new(),
            write_set: Vec::new(),
            read_only: false,
        }
    }

    /// A fresh read-only transaction.
    pub fn new_readonly(id: TxnId, start_version: Version) -> (r: Self)
        ensures
            r.wf(),
            r.id == id,
            r.start_version == start_version,
            r.state == TxnState::Active,
            r.commit_version is None,
            r.read_set@.len() == 0,
            r.write_set@.len() == 0,
            r.read_only,
    {
        Transaction {
            id,
            state: TxnState::Active,
            start_version,
            commit_version: None,
            read_set: Vec::new(),
            write_set: Vec::new(),
            read_only: true,
        }
    }

    /// Records that `key` was read.
    pub fn record_read(&mut self, key: u64)
        requires
            old(self).wf(),
        ensures
            final(self).wf(),
            final(self).reads() == old(self).reads().insert(key),
            final(self).write_set == old(self).write_set,
            final(self).id == old(self).id,
            final(self).state == old(self).state,
            final(self).start_version == old(self).start_version,
            final(self).commit_version == old(self).commit_version,
            final(self).read_only == old(self).read_only,
    {
        if !contains_key(&self.read_set, key) {
            self.read_set.push(key);
            proof {
                lemma_push_unique(old(self).read_set@, key);
            }
        } else {
            proof {
                assert(self.read_set@.to_set() =~= old(self).read_set@.to_set().insert(key));
            }
        }
    }

    /// Records that `key` was written.
    pub fn record_write(&mut self, key: u64)
        requires
            old(self).wf(),
        ensures
            final(self).wf(),
            final(self).writes() == old(self).writes().insert(key),
            final(self).read_set == old(self).read_set,
            final(self).id == old(self).id,
            final(self).state == old(self).state,
            final(self).start_version == old(self).start_version,
            final(self).commit_version == old(self).commit_version,
            final(self).read_only == old(self).read_only,
    {
        if !contains_key(&self.write_set, key) {
            self.write_set.push(key);
            proof {
                lemma_push_unique(old(self).write_set@, key);
            }
        } else {
            proof {
                assert(self.write_set@.to_set() =~= old(self).write_set@.to_set().insert(key));
            }
        }
    }

    /// A read-write conflict: `other` committed after this transaction began
    /// (or has not committed), and wrote a key that this one read.
    pub open spec fn spec_conflicts_with(&self, other: &Transaction) -> bool {
        let other_commit = match other.commit_version {
            Some(v) => v,
            None => u64::MAX,
        };
        other_commit > self.start_version && exists|k: u64|
            self.reads().contains(k) && #[trigger] other.writes().contains(k)
    }

    /// Whether this transaction conflicts with `other`.
    pub fn conflicts_with(&self, other: &Transaction) -> (r: bool)
        ensures
            r == self.spec_conflicts_with(other),
    {
        let other_commit = match other.commit_version {
            Some(v) => v,
            None => u64::MAX,
        };
        if other_commit <= self.start_version {
            return false;
        }
        let mut i: usize = 0;
        while i < self.read_set.len()
            invariant
                other_commit > self.start_version,
                other_commit == (match other.commit_version {
                    Some(v) => v,
                    None => u64::MAX,
                }),
                i <= self.read_set@.len(),
                forall|j: int| 0 <= j < i ==> !other.write_set@.contains(#[trigger] self.read_set@[j]),
            decreases self.read_set.len() - i,
        {
            let key = self.read_set[i];
            if contains_key(&other.write_set, key) {
                proof {
                    assert(self.read_set@[i as int] == key);
                    assert(self.read_set@.contains(key));
                    assert(self.reads().contains(key));
                    assert(other.writes().contains(key));
                }
                return true;
            }
            i = i + 1;
        }
        proof {
            assert forall|k: u64| #[trigger] self.reads().contains(k) implies !other.writes().contains(k) by {
                let j = self.read_set@.index_of(k);
                assert(self.read_set@[j] == k);
            }
        }
        false
    }

    /// Whether the transaction is still active.
    pub fn is_active(&self) -> (r: bool)
        ensures
            r == (self.state == TxnState::Active),
    {
        match self.state {
            TxnState::Active => true,
            _ => false,
        }
    }
}

/// Appending a key not yet present keeps the keys unique and adds it to
/// their set.
pub(crate) proof fn lemma_push_unique(s: Seq<u64>, key: u64)
    requires
        s.no_duplicates(),
        !s.contains(key),
    ensures
        s.push(key).no_duplicates(),
        s.push(key).to_set() == s.to_set().insert(key),
{
    let t = s.push(key);
    assert forall|i: int, j: int| 0 <= i < t.len() && 0 <= j < t.len() && i != j implies t[i] != t[j] by {
        if i == s.len() {
            assert(t[j] == s[j]);
        } else if j == s.len() {
            assert(t[i] == s[i]);
        }
    }
    assert(t.to_set() =~= s.to_set().insert(key)) by {
        assert forall|x: u64| t.to_set().contains(x) implies s.to_set().insert(key).contains(x) by {
            let k = t.index_of(x);
            if k < s.len() {
                assert(s[k] == x);
            }
        }
        assert forall|x: u64| s.to_set().insert(key).contains(x) implies t.to_set().contains(x) by {
            if x == key {
                assert(t[s.len() as int] == key);
            } else {
                let k = s.index_of(x);
                assert(t[k] == x);
            }
        }
    }
}

/// Hands out transaction identifiers, starting at 1.
pub struct TxnIdGenerator {
    next_id: u64,
}

impl TxnIdGenerator {
    /// The identifier that `next` will return.
    pub closed spec fn peek(&self) -> u64 {
        self.next_id
    }

    pub fn new() -> (r: Self)
        ensures
            r.peek() == 1,
    {
        TxnIdGenerator { next_id: 1 }
    }

    /// Returns the next identifier; the counter wraps like an atomic add.
    pub fn next(&mut self) -> (r: TxnId)
        ensures
            r == old(self).peek(),
            final(self).peek() == old(self).peek().wrapping_add(1),
    {
        let id = self.next_id;
        self.next_id = self.next_id.wrapping_add(1);
        id
    }
}

impl Default for TxnIdGenerator {
    fn default() -> (r: Self)
        ensures
            r.peek() == 1,
    {
        Self::new()
    }
}

/// Relies on `std::time::SystemTime::now`: the wall clock in milliseconds since
/// the Unix epoch, or 0 where the clock reads before it.
#[verifier::external_body]
fn clock_millis() -> (r: u64) {
    std::time::SystemTime::now()
        .duration_since(std::time::UNIX_EPOCH)
        .map(|d| d.as_millis() as u64)
        .unwrap_or(0)
}

/// A snapshot of the committed state at one version.
#[derive(Debug, Clone)]
pub struct Snapshot {
    pub version: Version,
    /// Transactions in flight when the snapshot was taken.
    pub active_txns: Vec<TxnId>,
    /// Wall-clock creation time in milliseconds.
    pub timestamp: u64,
}

impl Snapshot {
    /// A snapshot at `version`, stamped with the current time.
    pub fn new(version: Version, active_txns: Vec<TxnId>) -> (r: Self)
        ensures
            r.version == version,
            r.active_txns@ == active_txns@,
    {
        Snapshot { version, active_txns, timestamp: clock_millis() }
    }

    /// A write of `writer_txn` committed at `commit_version` is visible when it
    /// committed no later than the snapshot and its writer was not in flight.
    pub open spec fn spec_is_visible(&self, writer_txn: TxnId, commit_version: Version) -> bool {
        commit_version <= self.version && !self.active_txns@.contains(writer_txn)
    }

    pub fn is_visible(&self, writer_txn: TxnId, commit_version: Version) -> (r: bool)
        ensures
            r == self.spec_is_visible(writer_txn, commit_version),
    {
        if commit_version > self.version {
            return false;
        }
        !contains_key(&self.active_txns, writer_txn)
    }

    /// The empty snapshot used when MVCC is off.
    pub fn empty() -> (r: Self)
        ensures
            r.version == 0,
            r.active_txns@.len() == 0,
            r.timestamp == 0,
    {
        Snapshot { version: 0, active_txns: Vec::new(), timestamp: 0 }
    }
}

impl Default for Snapshot {
    fn default() -> (r: Self)
        ensures
            r.version == 0,
            r.active_txns@.len() == 0,
            r.timestamp == 0,
    {
        Self::empty()
    }
}

/// A snapshot that records only the version and how many were in flight.
#[derive(Debug, Clone, Copy, PartialEq, Eq, Structural)]
pub struct QuickSnapshot {
    pub version: Version,
    pub active_count: usize,
}

impl QuickSnapshot {
    /// Valid while no write has committed since it was taken.
    pub fn is_valid(&self, current_version: Version) -> (r: bool)
        ensures
            r == (self.version == current_version),
    {
        self.version == current_version
    }
}

} // verus!
