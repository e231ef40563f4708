//! The write-ahead log: its configuration, the no-op log, and the on-disk
//! frame format. A frame is `entry_len:u64 ∥ lsn:u64 ∥ timestamp:u64 ∥
//! op_type:u8 ∥ payload`, little-endian, where `entry_len` counts the bytes
//! after itself.
use vstd::prelude::*;

use crate::text::{lower_of, lowercase, same_text};

verus! {

/// Log sequence number.
pub type Lsn = u64;

/// How durable the log is.
#[derive(Debug, Clone, Copy, PartialEq, Eq, Structural)]
pub enum WalMode {
    /// No log.
    Disabled,
    /// Buffered in memory, flushed periodically.
    Async,
    /// Appended to disk and synced (the default).
    Sync,
}

impl Default for WalMode {
    fn default() -> (r: Self)
        ensures
            r == WalMode::Sync,
    {
        WalMode::Sync
    }
}

/// The mode that a lower-case mode name selects; unknown names give the default.
pub open spec fn wal_mode_named(t: Seq<char>) -> WalMode {
    if t == "off"@ || t == "disabled"@ || t == "none"@ || t == "noop"@ {
        WalMode::Disabled
    } else if t == "async"@ || t == "memory"@ || t == "buffered"@ {
        WalMode::Async
    } else {
        WalMode::Sync
    }
}

impl WalMode {
    /// Parses a mode name, ignoring case.
    pub fn from_str(s: &str) -> (r: Self)
        ensures
            r == wal_mode_named(lower_of(s@)),
    {
        let t = lowercase(s);
        Self::from_lowercase(t.as_str())
    }

    /// Parses a mode name that is already in lower case.
    pub fn from_lowercase(t: &str) -> (r: Self)
        ensures
            r == wal_mode_named(t@),
    {
        proof {
            reveal_strlit("off");
            reveal_strlit("disabled");
            reveal_strlit("none");
            reveal_strlit("noop");
            reveal_strlit("async");
            reveal_strlit("memory");
            reveal_strlit("buffered");
        }
        if same_text(t, "off") || same_text(t, "disabled") || same_text(t, "none") || same_text(t, "noop") {
            WalMode::Disabled
        } else if same_text(t, "async") || same_text(t, "memory") || same_text(t, "buffered") {
            WalMode::Async
        } else {
            WalMode::Sync
        }
    }
}

/// Log configuration.
#[derive(Debug, Clone)]
pub struct WalConfig {
    pub mode: WalMode,
    /// Group commit interval in milliseconds.
    pub group_commit_ms: u64,
    /// Entries buffered before a forced flush.
    pub max_batch: usize,
    /// Directory of the log file, when it lives on disk.
    pub path: Option<String>,
}

/// Which log a configuration builds.
#[derive(Debug, Clone, PartialEq, Eq)]
pub enum WalBackend {
    /// The no-op log.
    NoOp,
    /// The disk log in this directory.
    Disk(String),
}

impl Default for WalConfig {
    fn default() -> (r: Self)
        ensures
            r.mode == WalMode::Sync,
            r.group_commit_ms == 10,
            r.max_batch == 10_000,
            r.path is None,
    {
        WalConfig { mode: WalMode::Sync, group_commit_ms: 10, max_batch: 10_000, path: None }
    }
}

impl WalConfig {
    /// The default configuration with the given mode.
    pub fn new(mode: WalMode) -> (r: Self)
        ensures
            r.mode == mode,
            r.group_commit_ms == 10,
            r.max_batch == 10_000,
            r.path is None,
    {
        WalConfig { mode, group_commit_ms: 10, max_batch: 10_000, path: None }
    }

    /// Replaces the mode.
    pub fn mode(self, mode: WalMode) -> (r: Self)
        ensures
            r.mode == mode,
            r.group_commit_ms == self.group_commit_ms,
            r.max_batch == self.max_batch,
            r.path == self.path,
    {
        WalConfig { mode, ..self }
    }

    /// Sets the log directory.
    pub fn path(self, path: &str) -> (r: Self)
        ensures
            r.mode == self.mode,
            r.group_commit_ms == self.group_commit_ms,
            r.max_batch == self.max_batch,
            r.path matches Some(p) && p@ == path@,
    {
        WalConfig { path: Some(path.to_string()), ..self }
    }

    /// The log this configuration builds with the given directory: the disk
    /// log only in `Sync` mode with a directory; the no-op log otherwise
    /// (`Async` is not buffered yet).
    pub fn backend_with_path(&self, path: Option<&str>) -> (r: WalBackend)
        ensures
            (self.mode == WalMode::Sync && path is Some) ==> (r matches WalBackend::Disk(p) && p@ == path->Some_0@),
            !(self.mode == WalMode::Sync && path is Some) ==> r == WalBackend::NoOp,
    {
        match self.mode {
            WalMode::Sync => match path {
                Some(p) => WalBackend::Disk(p.to_string()),
                None => WalBackend::NoOp,
            },
            _ => WalBackend::NoOp,
        }
    }

    /// The log this configuration builds with its own directory.
    pub fn backend(&self) -> (r: WalBackend)
        ensures
            (self.mode == WalMode::Sync && self.path is Some) ==> (r matches WalBackend::Disk(p) && p@
                == self.path->Some_0@),
            !(self.mode == WalMode::Sync && self.path is Some) ==> r == WalBackend::NoOp,
    {
        match &self.path {
            Some(p) => self.backend_with_path(Some(p.as_str())),
            None => self.backend_with_path(None),
        }
    }
}

/// Settings of the disk log.
#[derive(Debug, Clone, Copy, PartialEq, Eq, Structural)]
pub struct DiskWalConfig {
    pub group_commit_ms: u64,
    pub max_batch: usize,
    pub buffer_size: usize,
}

impl Default for DiskWalConfig {
    fn default() -> (r: Self)
        ensures
            r == (DiskWalConfig { group_commit_ms: 10, max_batch: 1000, buffer_size: 65536 }),
    {
        DiskWalConfig { group_commit_ms: 10, max_batch: 1000, buffer_size: 64 * 1024 }
    }
}

/// A logged operation. An edge weight is kept as the bit pattern of its `f32`.
#[derive(Debug, Clone)]
pub enum WalOp {
    PutNode { slug_hash: u64, collection_hash: u64, data: Vec<u8> },
    DeleteNode { slug_hash: u64 },
    PutEdge { from_node: u32, to_node: u32, edge_type_hash: u64, weight_bits: u32 },
    DeleteEdge { from_node: u32, to_node: u32, edge_type_hash: u64 },
    Checkpoint { lsn: Lsn },
}

/// A log entry.
#[derive(Debug, Clone)]
pub struct WalEntry {
    pub lsn: Lsn,
    pub timestamp: u64,
    pub op: WalOp,
}

/// A log that keeps nothing and only counts sequence numbers.
pub struct NoOpWAL {
    lsn: Lsn,
}

impl NoOpWAL {
    pub closed spec fn spec_lsn(&self) -> Lsn {
        self.lsn
    }

    pub fn new() -> (r: Self)
        ensures
            r.spec_lsn() == 0,
    {
        NoOpWAL { lsn: 0 }
    }

    /// Takes the next sequence number (wrapping like an atomic add).
    pub fn append(&mut self, entry: &WalEntry) -> (r: Lsn)
        ensures
            r == old(self).spec_lsn(),
            final(self).spec_lsn() == old(self).spec_lsn().wrapping_add(1),
    {
        let l = self.lsn;
        self.lsn = self.lsn.wrapping_add(1);
        l
    }

    /// Takes one sequence number per entry and returns the first.
    pub fn append_batch(&mut self, entries: &[WalEntry]) -> (r: Lsn)
        ensures
            r == old(self).spec_lsn(),
            final(self).spec_lsn() == old(self).spec_lsn().wrapping_add(entries@.len() as u64),
    {
        let l = self.lsn;
        self.lsn = self.lsn.wrapping_add(entries.len() as u64);
        l
    }

    /// Nothing to sync.
    pub fn sync(&self) {
    }

    /// Nothing to replay.
    pub fn replay_from(&self, lsn: Lsn) -> (r: Vec<WalEntry>)
        ensures
            r@.len() == 0,
    {
        Vec::new()
    }

    /// Nothing to truncate.
    pub fn truncate_before(&self, lsn: Lsn) {
    }

    pub fn size_bytes(&self) -> (r: u64)
        ensures
            r == 0,
    {
        0
    }

    pub fn current_lsn(&self) -> (r: Lsn)
        ensures
            r == self.spec_lsn(),
    {
        self.lsn
    }

    pub fn is_enabled(&self) -> (r: bool)
        ensures
            !r,
    {
        false
    }
}

impl Default for NoOpWAL {
    fn default() -> (r: Self)
        ensures
            r.spec_lsn() == 0,
    {
        Self::new()
    }
}

/// 256 to the power `n`.
pub open spec fn pow256(n: nat) -> nat
    decreases n,
{
    if n == 0 {
        1
    } else {
        256 * pow256((n - 1) as nat)
    }
}

/// The `n` low bytes of `x`, least significant first.
pub open spec fn le_bytes(x: nat, n: nat) -> Seq<u8>
    decreases n,
{
    if n == 0 {
        Seq::<u8>::empty()
    } else {
        seq![(x % 256) as u8] + le_bytes(x / 256, (n - 1) as nat)
    }
}

/// The number that little-endian bytes encode.
pub open spec fn le_value(s: Seq<u8>) -> nat
    decreases s.len(),
{
    if s.len() == 0 {
        0
    } else {
        s[0] as nat + 256 * le_value(s.subrange(1, s.len() as int))
    }
}

pub(crate) proof fn lemma_le_bytes_len(x: nat, n: nat)
    ensures
        le_bytes(x, n).len() == n,
    decreases n,
{
    if n > 0 {
        lemma_le_bytes_len(x / 256, (n - 1) as nat);
    }
}

/// Reading back `n` little-endian bytes gives the number modulo `256^n`.
pub(crate) proof fn lemma_le_round_trip(x: nat, n: nat)
    ensures
        le_value(le_bytes(x, n)) == x % pow256(n),
    decreases n,
{
    if n == 0 {
        assert(le_bytes(x, 0) =~= Seq::<u8>::empty());
    } else {
        let s = le_bytes(x, n);
        lemma_le_bytes_len(x / 256, (n - 1) as nat);
        assert(s.subrange(1, s.len() as int) =~= le_bytes(x / 256, (n - 1) as nat));
        lemma_le_round_trip(x / 256, (n - 1) as nat);
        assert(pow256(n) == 256 * pow256((n - 1) as nat));
        lemma_pow256_pos((n - 1) as nat);
        vstd::arithmetic::div_mod::lemma_mod_breakdown(x as int, 256, pow256((n - 1) as nat) as int);
        assert(s[0] == (x % 256) as u8);
    }
}

proof fn lemma_pow256_pos(n: nat)
    ensures
        pow256(n) > 0,
    decreases n,
{
    if n > 0 {
        lemma_pow256_pos((n - 1) as nat);
    }
}

proof fn lemma_pow256_mono(a: nat, b: nat)
    requires
        a <= b,
    ensures
        pow256(a) <= pow256(b),
    decreases b,
{
    if a < b {
        lemma_pow256_mono(a, (b - 1) as nat);
        lemma_pow256_pos((b - 1) as nat);
    }
}

/// Appends the `n` low bytes of `v`, least significant first.
pub(crate) fn push_le(out: &mut Vec<u8>, v: u64, n: usize)
    ensures
        final(out)@ == old(out)@ + le_bytes(v as nat, n as nat),
    decreases n,
{
    if n > 0 {
        out.push((v % 256) as u8);
        push_le(out, v / 256, n - 1);
        proof {
            assert(final(out)@ =~= old(out)@ + le_bytes(v as nat, n as nat));
        }
    } else {
        proof {
            assert(old(out)@ + le_bytes(v as nat, 0) =~= old(out)@);
        }
    }
}

/// The operation code of a logged operation.
pub open spec fn op_code(op: WalOp) -> u8 {
    match op {
        WalOp::PutNode { .. } => 1,
        WalOp::DeleteNode { .. } => 2,
        WalOp::PutEdge { .. } => 3,
        WalOp::DeleteEdge { .. } => 4,
        WalOp::Checkpoint { .. } => 5,
    }
}

/// The bytes that follow the operation code.
pub open spec fn op_payload(op: WalOp) -> Seq<u8> {
    match op {
        WalOp::PutNode { slug_hash, collection_hash, data } => le_bytes(slug_hash as nat, 8) + le_bytes(
            collection_hash as nat,
            8,
        ) + le_bytes(data@.len(), 4) + data@,
        WalOp::DeleteNode { slug_hash } => le_bytes(slug_hash as nat, 8),
        WalOp::PutEdge { from_node, to_node, edge_type_hash, weight_bits } => le_bytes(from_node as nat, 4) + le_bytes(
            to_node as nat,
            4,
        ) + le_bytes(edge_type_hash as nat, 8) + le_bytes(weight_bits as nat, 4),
        WalOp::DeleteEdge { from_node, to_node, edge_type_hash } => le_bytes(from_node as nat, 4) + le_bytes(
            to_node as nat,
            4,
        ) + le_bytes(edge_type_hash as nat, 8),
        WalOp::Checkpoint { lsn } => le_bytes(lsn as nat, 8),
    }
}

/// The bytes of an entry after its length word.
pub open spec fn entry_body(e: WalEntry) -> Seq<u8> {
    le_bytes(e.lsn as nat, 8) + le_bytes(e.timestamp as nat, 8) + seq![op_code(e.op)] + op_payload(e.op)
}

/// The frame of an entry: its body's length, then its body.
pub open spec fn entry_frame(e: WalEntry) -> Seq<u8> {
    le_bytes(entry_body(e).len(), 8) + entry_body(e)
}

/// An entry whose data length fits its 32-bit length field.
pub open spec fn entry_encodable(e: WalEntry) -> bool {
    match e.op {
        WalOp::PutNode { data, .. } => data@.len() <= 0xffff_ffff,
        _ => true,
    }
}

/// Encodes an entry as one log frame.
pub fn encode_entry(entry: &WalEntry) -> (r: Vec<u8>)
    requires
        entry_encodable(*entry),
    ensures
        r@ == entry_frame(*entry),
{
    let mut body: Vec<u8> = Vec::new();
    push_le(&mut body, entry.lsn, 8);
    push_le(&mut body, entry.timestamp, 8);
    match &entry.op {
        WalOp::PutNode { slug_hash, collection_hash, data } => {
            body.push(1);
            let ghost before = body@;
            push_le(&mut body, *slug_hash, 8);
            push_le(&mut body, *collection_hash, 8);
            push_le(&mut body, data.len() as u64, 4);
            let mut k: usize = 0;
            let ghost mid = body@;
            while k < data.len()
                invariant
                    k <= data@.len(),
                    body@ == mid + data@.subrange(0, k as int),
                decreases data.len() - k,
            {
                body.push(data[k]);
                k = k + 1;
                proof {
                    assert(body@ =~= mid + data@.subrange(0, k as int));
                }
            }
            proof {
                assert(data@.subrange(0, data@.len() as int) =~= data@);
                assert(body@ =~= before + op_payload(entry.op));
            }
        },
        WalOp::DeleteNode { slug_hash } => {
            body.push(2);
            push_le(&mut body, *slug_hash, 8);
        },
        WalOp::PutEdge { from_node, to_node, edge_type_hash, weight_bits } => {
            body.push(3);
            let ghost before = body@;
            push_le(&mut body, *from_node as u64, 4);
            push_le(&mut body, *to_node as u64, 4);
            push_le(&mut body, *edge_type_hash, 8);
            push_le(&mut body, *weight_bits as u64, 4);
            proof {
                assert(body@ =~= before + op_payload(entry.op));
            }
        },
        WalOp::DeleteEdge { from_node, to_node, edge_type_hash } => {
            body.push(4);
            let ghost before = body@;
            push_le(&mut body, *from_node as u64, 4);
            push_le(&mut body, *to_node as u64, 4);
            push_le(&mut body, *edge_type_hash, 8);
            proof {
                assert(body@ =~= before + op_payload(entry.op));
            }
        },
        WalOp::Checkpoint { lsn } => {
            body.push(5);
            push_le(&mut body, *lsn, 8);
        },
    }
    proof {
        assert(body@ =~= entry_body(*entry));
    }
    let mut out: Vec<u8> = Vec::new();
    push_le(&mut out, body.len() as u64, 8);
    let ghost head = out@;
    let mut k: usize = 0;
    while k < body.len()
        invariant
            k <= body@.len(),
            out@ == head + body@.subrange(0, k as int),
        decreases body.len() - k,
    {
        out.push(body[k]);
        k = k + 1;
        proof {
            assert(out@ =~= head + body@.subrange(0, k as int));
        }
    }
    proof {
        assert(body@.subrange(0, body@.len() as int) =~= body@);
        assert(out@ =~= Seq::<u8>::empty() + le_bytes(body@.len(), 8) + body@);
    }
    out
}

/// Longest frame body that a scan accepts.
pub const MAX_FRAME: u64 = 10_000_000;

/// How many whole frames lie at the start of `b`: a scan stops at a length
/// word that is zero, at least `MAX_FRAME`, or longer than what follows.
pub open spec fn count_frames(b: Seq<u8>) -> nat
    decreases b.len(),
{
    if b.len() < 8 {
        0
    } else {
        let l = le_value(b.subrange(0, 8));
        if 0 < l && l < MAX_FRAME && l <= b.len() - 8 {
            1 + count_frames(b.subrange(8 + l as int, b.len() as int))
        } else {
            0
        }
    }
}

/// Reads the `n`-byte little-endian number at `pos`.
pub(crate) fn read_le(b: &[u8], pos: usize, n: usize) -> (r: u64)
    requires
        n <= 8,
        pos + n <= b@.len(),
    ensures
        r == le_value(b@.subrange(pos as int, pos + n)),
{
    let len = b.len();
    let mut v: u64 = 0;
    let mut j: usize = n;
    proof {
        reveal_with_fuel(pow256, 9);
        assert(b@.subrange(pos + n, pos + n) =~= Seq::<u8>::empty());
    }
    while j > 0
        invariant
            j <= n <= 8,
            len == b@.len(),
            pos + n <= b@.len(),
            v == le_value(b@.subrange(pos + j, pos + n)),
            v < pow256((n - j) as nat),
        decreases j,
    {
        let byte = b[pos + (j - 1)];
        proof {
            let s = b@.subrange(pos + j - 1, pos + n);
            assert(s.subrange(1, s.len() as int) =~= b@.subrange(pos + j, pos + n));
            assert(s[0] == byte);
            assert(pow256((n - j + 1) as nat) == 256 * pow256((n - j) as nat));
            assert((byte as nat) + 256 * v < pow256((n - j + 1) as nat)) by (nonlinear_arith)
                requires
                    v < pow256((n - j) as nat),
                    byte < 256,
                    pow256((n - j + 1) as nat) == 256 * pow256((n - j) as nat),
            ;
            lemma_pow256_mono((n - j + 1) as nat, 8);
            reveal_with_fuel(pow256, 9);
        }
        v = byte as u64 + 256 * v;
        j = j - 1;
    }
    v
}

/// Counts the whole frames at the start of a log file's bytes, as on open.
pub fn count_entries(b: &[u8]) -> (r: u64)
    ensures
        r == count_frames(b@),
{
    let mut pos: usize = 0;
    let mut count: u64 = 0;
    proof {
        assert(b@.subrange(0, b@.len() as int) =~= b@);
    }
    while b.len() >= 8 && pos <= b.len() - 8
        invariant
            pos <= b@.len(),
            count + count_frames(b@.subrange(pos as int, b@.len() as int)) == count_frames(b@),
            count <= pos,
        decreases b.len() - pos,
    {
        let l = read_le(b, pos, 8);
        let ghost rest = b@.subrange(pos as int, b@.len() as int);
        proof {
            assert(rest.subrange(0, 8) =~= b@.subrange(pos as int, pos + 8));
        }
        if l > 0 && l < MAX_FRAME && l as usize <= b.len() - pos - 8 {
            proof {
                assert(rest.subrange(8 + l, rest.len() as int) =~= b@.subrange(pos + 8 + l, b@.len() as int));
            }
            count = count + 1;
            pos = pos + 8 + l as usize;
        } else {
            return count;
        }
    }
    proof {
        let rest = b@.subrange(pos as int, b@.len() as int);
        assert(rest.len() < 8);
    }
    count
}

/// A frame written by `encode_entry`, followed by any bytes, scans as that
/// one frame and then whatever those bytes hold.
pub proof fn lemma_frame_scans_once(e: WalEntry, rest: Seq<u8>)
    requires
        entry_body(e).len() < MAX_FRAME,
    ensures
        count_frames(entry_frame(e) + rest) == 1 + count_frames(rest),
{
    let body = entry_body(e);
    let b = entry_frame(e) + rest;
    lemma_le_bytes_len(body.len(), 8);
    lemma_le_bytes_len(e.lsn as nat, 8);
    lemma_le_bytes_len(e.timestamp as nat, 8);
    assert(body.len() >= 17);
    lemma_le_round_trip(body.len(), 8);
    reveal_with_fuel(pow256, 9);
    assert(pow256(8) == 0x1_0000_0000_0000_0000);
    vstd::arithmetic::div_mod::lemma_small_mod(body.len(), pow256(8));
    assert(b.subrange(0, 8) =~= le_bytes(body.len(), 8));
    assert(le_value(b.subrange(0, 8)) == body.len());
    assert(b.subrange(8 + body.len() as int, b.len() as int) =~= rest);
}

} // verus!
