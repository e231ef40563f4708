//! The slot table of the persistent slug index: a Robin-Hood open-addressing
//! hash table from 64-bit keys to 32-bit values. Key 0 marks an empty slot and
//! key `u64::MAX` a tombstone; a tombstone keeps the probe distance of the entry
//! it replaced, so that lookups may stop early past it.
use vstd::prelude::*;

verus! {

/// Key of an empty slot.
pub const EMPTY_KEY: u64 = 0;

/// Key of a removed slot.
pub const TOMBSTONE_KEY: u64 = 0xffff_ffff_ffff_ffff;

/// Magic number at the start of the index file ("SEKMHASH").
pub const MHASH_MAGIC: u64 = 0x5345_4B4D_4841_5348;

/// One slot: key, value and distance from the key's home slot.
#[derive(Clone, Copy, Debug, PartialEq, Eq, Structural)]
pub struct HashSlot {
    pub key: u64,
    pub value: u32,
    pub probe_dist: u32,
}

/// Errors of the slug index.
#[derive(Clone, Copy, Debug, PartialEq, Eq, Structural)]
pub enum HashIndexError {
    /// A probe ran the length of the table: it must be created larger.
    IndexFull,
}

/// Whether `k` can be stored (it is neither of the two sentinels).
pub open spec fn is_real_key(k: u64) -> bool {
    k != EMPTY_KEY && k != TOMBSTONE_KEY
}

pub open spec fn is_live(s: HashSlot) -> bool {
    is_real_key(s.key)
}

/// The home slot of `k` in a table of `cap` slots.
pub open spec fn home(k: u64, cap: int) -> int {
    (k as int) % cap
}

/// The slot `i` steps after `h`, wrapping around once (for `h` and `i`
/// below `cap`).
pub open spec fn step(h: int, i: int, cap: int) -> int {
    if h + i < cap {
        h + i
    } else {
        h + i - cap
    }
}

/// Every slot passed on the way from `h` to distance `d` is occupied, by an
/// entry at least as far from its own home as that slot is from `h`.
pub open spec fn chain_ok(s: Seq<HashSlot>, h: int, d: int) -> bool {
    forall|i: int|
        0 <= i < d ==> {
            &&& #[trigger] s[step(h, i, s.len() as int)].key != EMPTY_KEY
            &&& s[step(h, i, s.len() as int)].probe_dist >= i
        }
}

/// A live slot sits at its recorded distance from its home, with an unbroken
/// chain before it.
pub open spec fn placed_ok(s: Seq<HashSlot>, p: int) -> bool {
    let e = s[p];
    is_live(e) ==> {
        &&& (e.probe_dist as int) < s.len()
        &&& step(home(e.key, s.len() as int), e.probe_dist as int, s.len() as int) == p
        &&& chain_ok(s, home(e.key, s.len() as int), e.probe_dist as int)
    }
}

pub open spec fn keys_unique(s: Seq<HashSlot>) -> bool {
    forall|p: int, q: int|
        0 <= p < s.len() && 0 <= q < s.len() && is_live(#[trigger] s[p]) && is_live(#[trigger] s[q])
            && s[p].key == s[q].key ==> p == q
}

/// The Robin-Hood table invariant.
pub open spec fn table_ok(s: Seq<HashSlot>) -> bool {
    &&& 0 < s.len() < 0x1_0000_0000
    &&& keys_unique(s)
    &&& forall|p: int| 0 <= p < s.len() ==> #[trigger] placed_ok(s, p)
}

/// Slot `p` holds the live key `k`.
pub open spec fn holds(s: Seq<HashSlot>, p: int, k: u64) -> bool {
    0 <= p < s.len() && is_live(s[p]) && s[p].key == k
}

/// The key-to-value map that the slots hold.
pub open spec fn table_view(s: Seq<HashSlot>) -> Map<u64, u32> {
    Map::new(
        |k: u64| exists|p: int| holds(s, p, k),
        |k: u64| s[choose|p: int| holds(s, p, k)].value,
    )
}

/// How many slots are live.
pub open spec fn live_count(s: Seq<HashSlot>) -> nat
    decreases s.len(),
{
    if s.len() == 0 {
        0
    } else {
        live_count(s.drop_last()) + if is_live(s.last()) { 1nat } else { 0nat }
    }
}

proof fn lemma_live_count_update(s: Seq<HashSlot>, p: int, x: HashSlot)
    requires
        0 <= p < s.len(),
    ensures
        live_count(s.update(p, x)) + (if is_live(s[p]) { 1int } else { 0int }) == live_count(s) + (
        if is_live(x) { 1int } else { 0int }),
    decreases s.len(),
{
    let t = s.update(p, x);
    if p == s.len() - 1 {
        assert(t.drop_last() =~= s.drop_last());
    } else {
        assert(t.drop_last() =~= s.drop_last().update(p, x));
        lemma_live_count_update(s.drop_last(), p, x);
    }
}

/// How many slots are not empty (live or tombstoned).
pub open spec fn occupied_count(s: Seq<HashSlot>) -> nat
    decreases s.len(),
{
    if s.len() == 0 {
        0
    } else {
        occupied_count(s.drop_last()) + if s.last().key != EMPTY_KEY { 1nat } else { 0nat }
    }
}

proof fn lemma_occupied_update(s: Seq<HashSlot>, p: int, x: HashSlot)
    requires
        0 <= p < s.len(),
    ensures
        occupied_count(s.update(p, x)) + (if s[p].key != EMPTY_KEY { 1int } else { 0int }) == occupied_count(s) + (
        if x.key != EMPTY_KEY { 1int } else { 0int }),
    decreases s.len(),
{
    let t = s.update(p, x);
    if p == s.len() - 1 {
        assert(t.drop_last() =~= s.drop_last());
    } else {
        assert(t.drop_last() =~= s.drop_last().update(p, x));
        lemma_occupied_update(s.drop_last(), p, x);
    }
}

/// With fewer occupied slots than slots, some slot is empty.
proof fn lemma_has_empty(s: Seq<HashSlot>)
    requires
        occupied_count(s) < s.len(),
    ensures
        exists|p: int| 0 <= p < s.len() && #[trigger] s[p].key == EMPTY_KEY,
    decreases s.len(),
{
    if s.last().key == EMPTY_KEY {
        assert(s[s.len() - 1].key == EMPTY_KEY);
    } else {
        lemma_has_empty(s.drop_last());
        let p = choose|p: int| 0 <= p < s.drop_last().len() && #[trigger] s.drop_last()[p].key == EMPTY_KEY;
        assert(s[p].key == EMPTY_KEY);
    }
}

proof fn lemma_live_count_bound(s: Seq<HashSlot>)
    ensures
        live_count(s) <= s.len(),
    decreases s.len(),
{
    if s.len() > 0 {
        lemma_live_count_bound(s.drop_last());
    }
}

/// With unique keys, the view has one key per live slot.
proof fn lemma_view_len(s: Seq<HashSlot>)
    requires
        keys_unique(s),
    ensures
        table_view(s).dom().finite(),
        table_view(s).dom().len() == live_count(s),
    decreases s.len(),
{
    if s.len() == 0 {
        assert(table_view(s).dom() =~= Set::<u64>::empty());
    } else {
        let t = s.drop_last();
        let n = s.len() - 1;
        assert(keys_unique(t)) by {
            assert forall|p: int, q: int|
                0 <= p < t.len() && 0 <= q < t.len() && is_live(#[trigger] t[p]) && is_live(#[trigger] t[q]) && t[p].key
                    == t[q].key implies p == q by {
                assert(t[p] == s[p] && t[q] == s[q]);
            }
        }
        lemma_view_len(t);
        let d = table_view(s).dom();
        let dt = table_view(t).dom();
        if is_live(s.last()) {
            let k0 = s.last().key;
            assert(!dt.contains(k0)) by {
                if dt.contains(k0) {
                    let p = choose|p: int| holds(t, p, k0);
                    assert(holds(t, p, k0));
                    assert(s[p] == t[p]);
                    assert(s[n] == s.last());
                }
            }
            assert(d =~= dt.insert(k0)) by {
                assert forall|k: u64| d.contains(k) <==> dt.contains(k) || k == k0 by {
                    if d.contains(k) {
                        let p = choose|p: int| holds(s, p, k);
                        if p < n {
                            assert(holds(t, p, k));
                        }
                    }
                    if dt.contains(k) {
                        let p = choose|p: int| holds(t, p, k);
                        assert(holds(s, p, k));
                    }
                    if k == k0 {
                        assert(holds(s, n, k));
                    }
                }
            }
        } else {
            assert(d =~= dt) by {
                assert forall|k: u64| d.contains(k) <==> dt.contains(k) by {
                    if d.contains(k) {
                        let p = choose|p: int| holds(s, p, k);
                        assert(p < n);
                        assert(holds(t, p, k));
                    }
                    if dt.contains(k) {
                        let p = choose|p: int| holds(t, p, k);
                        assert(holds(s, p, k));
                    }
                }
            }
        }
    }
}

/// With unique keys, the view at a live slot's key is that slot's value.
proof fn lemma_view_at(s: Seq<HashSlot>, p: int)
    requires
        keys_unique(s),
        0 <= p < s.len(),
        is_live(s[p]),
    ensures
        table_view(s).contains_key(s[p].key),
        table_view(s)[s[p].key] == s[p].value,
{
    let k = s[p].key;
    assert(holds(s, p, k));
    let q = choose|q: int| holds(s, q, k);
    assert(holds(s, q, k));
    assert(p == q);
}

/// Writing `x` over slot `p`, where the key of `x` is held nowhere else,
/// replaces the entry of slot `p` by that of `x` in the view.
proof fn lemma_view_update(s: Seq<HashSlot>, p: int, x: HashSlot)
    requires
        keys_unique(s),
        0 <= p < s.len(),
        is_live(x) ==> forall|q: int| 0 <= q < s.len() && q != p ==> !holds(s, q, x.key),
    ensures
        keys_unique(s.update(p, x)),
        table_view(s.update(p, x)) == ({
            let m = if is_live(s[p]) { table_view(s).remove(s[p].key) } else { table_view(s) };
            if is_live(x) { m.insert(x.key, x.value) } else { m }
        }),
{
    let t = s.update(p, x);
    let m = if is_live(s[p]) { table_view(s).remove(s[p].key) } else { table_view(s) };
    let m2 = if is_live(x) { m.insert(x.key, x.value) } else { m };
    assert forall|a: int, b: int|
        0 <= a < t.len() && 0 <= b < t.len() && is_live(#[trigger] t[a]) && is_live(#[trigger] t[b])
            && t[a].key == t[b].key implies a == b by {
        if a == p && b != p {
            assert(holds(s, b, x.key));
        } else if b == p && a != p {
            assert(holds(s, a, x.key));
        }
    }
    assert forall|k: u64| #[trigger] table_view(t).contains_key(k) == m2.contains_key(k) by {
        if table_view(t).contains_key(k) {
            let q = choose|q: int| holds(t, q, k);
            if q != p {
                assert(holds(s, q, k));
                if is_live(s[p]) && s[p].key == k {
                    assert(false);
                }
            }
        }
        if m2.contains_key(k) {
            if is_live(x) && k == x.key {
                assert(holds(t, p, k));
            } else {
                let q = choose|q: int| holds(s, q, k);
                assert(holds(s, q, k));
                assert(q != p);
                assert(holds(t, q, k));
            }
        }
    }
    assert forall|k: u64| #[trigger] table_view(t).contains_key(k) implies table_view(t)[k] == m2[k] by {
        let q = choose|q: int| holds(t, q, k);
        assert(holds(t, q, k));
        lemma_view_at(t, q);
        if q != p {
            assert(holds(s, q, k));
            lemma_view_at(s, q);
        }
    }
    assert(table_view(t) =~= m2);
}

/// A write that keeps every slot occupied as before, with a probe distance no
/// smaller, leaves the chains of all other slots intact.
proof fn lemma_chains_kept(s: Seq<HashSlot>, p: int, x: HashSlot)
    requires
        table_ok(s),
        0 <= p < s.len(),
        s[p].key == EMPTY_KEY || (x.key != EMPTY_KEY && x.probe_dist >= s[p].probe_dist),
    ensures
        forall|q: int| 0 <= q < s.len() && q != p ==> #[trigger] placed_ok(s.update(p, x), q),
{
    let t = s.update(p, x);
    assert forall|q: int| 0 <= q < s.len() && q != p implies #[trigger] placed_ok(t, q) by {
        assert(placed_ok(s, q));
        if is_live(t[q]) {
            let h = home(t[q].key, s.len() as int);
            assert forall|i: int| 0 <= i < t[q].probe_dist implies {
                &&& #[trigger] t[step(h, i, t.len() as int)].key != EMPTY_KEY
                &&& t[step(h, i, t.len() as int)].probe_dist >= i
            } by {
                assert(s[step(h, i, s.len() as int)].key != EMPTY_KEY);
            }
        }
    }
}

/// The slot after `p` in a table of `cap` slots.
pub open spec fn next_slot(p: int, cap: int) -> int {
    if p + 1 == cap {
        0
    } else {
        p + 1
    }
}

/// The next slot after `step(h, i)` is `step(h, i + 1)`.
proof fn lemma_step_next(h: int, i: int, cap: int)
    requires
        0 <= h < cap,
        0 <= i,
        i + 1 <= cap,
    ensures
        step(h, i + 1, cap) == next_slot(step(h, i, cap), cap),
{
}

/// Every slot is `step(h, i)` for some distance `i` below the table length.
proof fn lemma_step_covers(h: int, p: int, cap: int)
    requires
        0 <= h < cap,
        0 <= p < cap,
    ensures
        step(h, if p >= h { p - h } else { p + cap - h }, cap) == p,
{
}

/// The Robin-Hood table. Its contents are `self@`, a map from key to value.
pub struct MmapHashIndex {
    slots: Vec<HashSlot>,
    count: u64,
}

/// `p` is a power of two.
pub open spec fn is_pow2(p: nat) -> bool
    decreases p,
{
    if p == 1 {
        true
    } else if p < 1 || p % 2 == 1 {
        false
    } else {
        is_pow2(p / 2)
    }
}

/// The slot count for a requested capacity: the capacity inflated by 1/0.65
/// (rounded up), at least 16, rounded up to a power of two.
pub open spec fn wanted_slots(capacity: nat) -> nat {
    let inflated = (20 * capacity + 12) / 13;
    if inflated < 16 { 16 } else { inflated }
}

impl View for MmapHashIndex {
    type V = Map<u64, u32>;

    open spec fn view(&self) -> Map<u64, u32> {
        table_view(self.spec_slots())
    }
}

impl MmapHashIndex {
    /// The slots, in table order.
    pub closed spec fn spec_slots(&self) -> Seq<HashSlot> {
        self.slots@
    }

    pub open spec fn wf(&self) -> bool {
        &&& table_ok(self.spec_slots())
        &&& self.spec_count() == live_count(self.spec_slots())
    }

    pub closed spec fn spec_count(&self) -> nat {
        self.count as nat
    }

    /// Slots that are not empty: live entries and tombstones.
    pub open spec fn spec_occupied(&self) -> nat {
        occupied_count(self.spec_slots())
    }

    pub open spec fn spec_capacity(&self) -> nat {
        self.spec_slots().len()
    }

    /// An empty table with room for `capacity` keys at a load of at most 65%:
    /// the smallest power of two of slots that is at least `wanted_slots`.
    pub fn new(capacity: u64) -> (r: Self)
        requires
            capacity <= 0x4000_0000,
        ensures
            r.wf(),
            r@ == Map::<u64, u32>::empty(),
            forall|p: int| 0 <= p < r.spec_capacity() ==> #[trigger] r.spec_slots()[p].key == EMPTY_KEY,
            r.spec_occupied() == 0,
            is_pow2(r.spec_capacity()),
            r.spec_capacity() >= wanted_slots(capacity as nat),
            r.spec_capacity() < 2 * wanted_slots(capacity as nat),
    {
        let inflated: u64 = (20 * capacity + 12) / 13;
        let want: u64 = if inflated < 16 { 16 } else { inflated };
        proof {
            assert(20 * capacity + 12 <= 20 * 0x4000_0000 + 12);
            vstd::arithmetic::div_mod::lemma_div_is_ordered(
                (20 * capacity + 12) as int,
                (20 * 0x4000_0000 + 12) as int,
                13,
            );
        }
        let mut cap: u64 = 1;
        while cap < want
            invariant
                1 <= cap,
                is_pow2(cap as nat),
                want == wanted_slots(capacity as nat),
                16 <= want <= 0x7000_0000,
                cap < 2 * want,
            decreases 2 * want - cap,
        {
            proof {
                assert((2 * cap) as nat / 2 == cap as nat);
                assert((2 * cap) as nat % 2 == 0);
            }
            cap = cap * 2;
        }
        let n: usize = cap as usize;
        let mut slots: Vec<HashSlot> = Vec::new();
        while slots.len() < n
            invariant
                slots@.len() <= n,
                forall|p: int| 0 <= p < slots@.len() ==> slots@[p].key == EMPTY_KEY && slots@[p].probe_dist == 0,
                live_count(slots@) == 0,
                occupied_count(slots@) == 0,
            decreases n - slots.len(),
        {
            let ghost before = slots@;
            slots.push(HashSlot { key: EMPTY_KEY, value: 0, probe_dist: 0 });
            proof {
                assert(slots@.drop_last() =~= before);
            }
        }
        let r = MmapHashIndex { slots, count: 0 };
        proof {
            assert(table_view(r.slots@) =~= Map::<u64, u32>::empty());
            assert forall|p: int| 0 <= p < r.slots@.len() implies #[trigger] placed_ok(r.slots@, p) by {}
        }
        r
    }

    /// Number of slots.
    pub fn capacity(&self) -> (r: u64)
        requires
            self.wf(),
        ensures
            r == self.spec_capacity(),
    {
        self.slots.len() as u64
    }

    /// The slot at `p`, as the file stores it.
    pub fn slot(&self, p: usize) -> (r: HashSlot)
        requires
            p < self.spec_capacity(),
        ensures
            r == self.spec_slots()[p as int],
    {
        self.slots[p]
    }

    /// Where the probe for `key` finds it, if anywhere. The probe starts at the
    /// key's home slot and stops at an empty slot, or at a slot whose probe
    /// distance is below the distance walked so far.
    fn find(&self, key: u64) -> (r: Option<usize>)
        requires
            self.wf(),
            is_real_key(key),
        ensures
            r matches Some(p) ==> holds(self.spec_slots(), p as int, key),
            r is None ==> !self@.contains_key(key),
    {
        let ghost s = self.slots@;
        let cap = self.slots.len();
        let h: usize = (key % (cap as u64)) as usize;
        let mut pos: usize = h;
        let mut d: usize = 0;
        while d < cap
            invariant
                s == self.slots@,
                self.wf(),
                is_real_key(key),
                table_ok(s),
                cap == s.len(),
                h == home(key, cap as int),
                0 <= h < cap,
                d <= cap,
                d < cap ==> pos == step(h as int, d as int, cap as int),
                forall|i: int| 0 <= i < d ==> !holds(s, #[trigger] step(h as int, i, cap as int), key),
            decreases cap - d,
        {
            proof {
                lemma_step_next(h as int, d as int, cap as int);
            }
            let slot = self.slots[pos];
            if slot.key == key {
                return Some(pos);
            }
            if slot.key == EMPTY_KEY || (slot.probe_dist as usize) < d {
                proof {
                    self.lemma_absent_at(key, d as int);
                }
                return None;
            }
            proof {
                lemma_step_next(h as int, d as int, cap as int);
            }
            pos = if pos + 1 == cap { 0 } else { pos + 1 };
            d = d + 1;
        }
        proof {
            assert forall|p: int| !holds(s, p, key) by {
                if holds(s, p, key) {
                    assert(placed_ok(s, p));
                    let pd = s[p].probe_dist as int;
                    assert(step(h as int, pd, cap as int) == p);
                }
            }
        }
        None
    }

    /// The probe for a live key stops, without a match, at distance `d` when
    /// slot `d` is empty or holds a smaller probe distance: the key is absent.
    proof fn lemma_absent_at(&self, key: u64, d: int)
        requires
            self.wf(),
            is_real_key(key),
            0 <= d < self.spec_capacity(),
            forall|i: int|
                0 <= i < d ==> !holds(
                    self.spec_slots(),
                    #[trigger] step(home(key, self.spec_capacity() as int), i, self.spec_capacity() as int),
                    key,
                ),
            ({
                let e = self.spec_slots()[step(home(key, self.spec_capacity() as int), d, self.spec_capacity() as int)];
                e.key != key && (e.key == EMPTY_KEY || e.probe_dist < d)
            }),
        ensures
            !self@.contains_key(key),
    {
        let s = self.spec_slots();
        let cap = s.len() as int;
        let h = home(key, cap);
        if self@.contains_key(key) {
            let p = choose|p: int| holds(s, p, key);
            assert(holds(s, p, key));
            assert(placed_ok(s, p));
            let pd = s[p].probe_dist as int;
            assert(step(h, pd, cap) == p);
            if pd < d {
                assert(!holds(s, step(h, pd, cap), key));
            } else if pd == d {
            } else {
                assert(s[step(h, d, cap)].key != EMPTY_KEY);
                assert(s[step(h, d, cap)].probe_dist >= d);
            }
        }
    }

    /// Looks `key` up. Sentinel keys are never present.
    pub fn get(&self, key: u64) -> (r: Option<u32>)
        requires
            self.wf(),
        ensures
            !is_real_key(key) ==> r is None,
            is_real_key(key) ==> r == (if self@.contains_key(key) { Some(self@[key]) } else { None::<u32> }),
    {
        if key == EMPTY_KEY || key == TOMBSTONE_KEY {
            return None;
        }
        match self.find(key) {
            Some(p) => {
                proof {
                    lemma_view_at(self.slots@, p as int);
                }
                Some(self.slots[p].value)
            },
            None => None,
        }
    }

    /// Number of live entries.
    pub fn count(&self) -> (r: u64)
        requires
            self.wf(),
        ensures
            r == live_count(self.spec_slots()),
            r == self@.len(),
    {
        proof {
            lemma_view_len(self.spec_slots());
        }
        self.count
    }

    /// Maps `key` to `value`. A sentinel key is dropped with no effect; a
    /// present key gets the new value in place; a new key is placed by
    /// Robin-Hood displacement. When the probe runs the length of the table the
    /// insert fails with `IndexFull`, which cannot happen while an empty slot
    /// is left.
    #[verifier::rlimit(40)]
    pub fn insert(&mut self, key: u64, value: u32) -> (r: Result<(), HashIndexError>)
        requires
            old(self).wf(),
        ensures
            !is_real_key(key) ==> r is Ok && final(self)@ == old(self)@,
            r is Ok ==> final(self).wf() && final(self).spec_capacity() == old(self).spec_capacity(),
            r is Ok && is_real_key(key) ==> final(self)@ == old(self)@.insert(key, value),
            (exists|p: int| 0 <= p < old(self).spec_capacity() && #[trigger] old(self).spec_slots()[p].key == EMPTY_KEY)
                ==> r is Ok,
            old(self)@.contains_key(key) ==> r is Ok,
            old(self).spec_occupied() < old(self).spec_capacity() ==> r is Ok,
            r is Ok ==> final(self).spec_occupied() <= old(self).spec_occupied() + 1,
    {
        proof {
            if occupied_count(self.slots@) < self.slots@.len() {
                lemma_has_empty(self.slots@);
            }
        }
        if key == EMPTY_KEY || key == TOMBSTONE_KEY {
            return Ok(());
        }
        if let Some(p) = self.find(key) {
            let old_slot = self.slots[p];
            let updated = HashSlot { key: old_slot.key, value, probe_dist: old_slot.probe_dist };
            proof {
                let s = self.slots@;
                lemma_view_update(s, p as int, updated);
                lemma_chains_kept(s, p as int, updated);
                lemma_live_count_update(s, p as int, updated);
                lemma_occupied_update(s, p as int, updated);
                lemma_view_at(s, p as int);
                let t = s.update(p as int, updated);
                assert(placed_ok(s, p as int));
                assert(placed_ok(t, p as int)) by {
                    let hh = home(key, s.len() as int);
                    assert forall|i: int| 0 <= i < updated.probe_dist implies {
                        &&& #[trigger] t[step(hh, i, t.len() as int)].key != EMPTY_KEY
                        &&& t[step(hh, i, t.len() as int)].probe_dist >= i
                    } by {
                        assert(s[step(hh, i, s.len() as int)].key != EMPTY_KEY);
                    }
                }
                assert(table_view(s).remove(key).insert(key, value) =~= table_view(s).insert(key, value));
            }
            self.slots.set(p, updated);
            return Ok(());
        }
        let ghost s0 = self.slots@;
        let ghost target = self@.insert(key, value);
        let cap = self.slots.len();
        let h0: usize = (key % (cap as u64)) as usize;
        let mut pos: usize = h0;
        let mut steps: usize = 0;
        let mut carried = HashSlot { key, value, probe_dist: 0 };
        proof {
            assert(table_view(s0).insert(key, value) == target);
        }
        while steps < cap
            invariant
                is_real_key(key),
                s0 == old(self).spec_slots(),
                !table_view(s0).contains_key(key),
                target == table_view(s0).insert(key, value),
                cap == self.slots@.len(),
                cap == s0.len(),
                0 <= h0 < cap,
                pos == step(h0 as int, steps as int, cap as int),
                forall|i: int| 0 <= i < steps ==> (#[trigger] self.slots@[step(h0 as int, i, cap as int)]).key != EMPTY_KEY,
                forall|p: int| 0 <= p < cap && (#[trigger] s0[p]).key == EMPTY_KEY ==> self.slots@[p].key == EMPTY_KEY,
                table_ok(self.slots@),
                is_live(carried),
                (carried.probe_dist as int) < cap,
                step(home(carried.key, cap as int), carried.probe_dist as int, cap as int) == pos,
                chain_ok(self.slots@, home(carried.key, cap as int), carried.probe_dist as int),
                !table_view(self.slots@).contains_key(carried.key),
                table_view(self.slots@).insert(carried.key, carried.value) == target,
                self.count as int == live_count(s0),
                live_count(self.slots@) == live_count(s0),
                occupied_count(self.slots@) == occupied_count(s0),
            decreases cap - steps,
        {
            proof {
                lemma_step_next(h0 as int, steps as int, cap as int);
            }
            let slot = self.slots[pos];
            let ghost s = self.slots@;
            if slot.key == EMPTY_KEY || (slot.key == TOMBSTONE_KEY && slot.probe_dist <= carried.probe_dist) {
                proof {
                    self.lemma_place(carried, pos as int);
                    lemma_live_count_update(s, pos as int, carried);
                    lemma_occupied_update(s, pos as int, carried);
                    lemma_live_count_bound(s);
                }
                self.slots.set(pos, carried);
                self.count = self.count + 1;
                return Ok(());
            }
            if slot.key != TOMBSTONE_KEY && slot.probe_dist < carried.probe_dist {
                proof {
                    self.lemma_place(carried, pos as int);
                    lemma_live_count_update(s, pos as int, carried);
                    lemma_occupied_update(s, pos as int, carried);
                    assert(placed_ok(s, pos as int));
                    lemma_view_at(s, pos as int);
                    let t = s.update(pos as int, carried);
                    let hs = home(slot.key, cap as int);
                    assert forall|i: int| 0 <= i < slot.probe_dist implies {
                        &&& #[trigger] t[step(hs, i, cap as int)].key != EMPTY_KEY
                        &&& t[step(hs, i, cap as int)].probe_dist >= i
                    } by {
                        vstd::arithmetic::div_mod::lemma_mod_bound(slot.key as int, cap as int);
                        assert(s[step(hs, i, cap as int)].key != EMPTY_KEY);
                    }
                    assert(table_view(t).insert(slot.key, slot.value) =~= target);
                }
                self.slots.set(pos, carried);
                carried = slot;
            }
            if carried.probe_dist as usize + 1 >= cap {
                proof {
                    let t = self.slots@;
                    let hc = home(carried.key, cap as int);
                    vstd::arithmetic::div_mod::lemma_mod_bound(carried.key as int, cap as int);
                    assert(t[pos as int].key != EMPTY_KEY);
                    if occupied_count(s0) < s0.len() {
                        lemma_has_empty(s0);
                    }
                    assert forall|p: int| 0 <= p < cap implies #[trigger] s0[p].key != EMPTY_KEY by {
                        lemma_step_covers(hc, p, cap as int);
                        let i = if p >= hc { p - hc } else { p + cap - hc };
                        if i < carried.probe_dist {
                            assert(t[step(hc, i, cap as int)].key != EMPTY_KEY);
                        }
                    }
                }
                return Err(HashIndexError::IndexFull);
            }
            proof {
                let t = self.slots@;
                let hc = home(carried.key, cap as int);
                vstd::arithmetic::div_mod::lemma_mod_bound(carried.key as int, cap as int);
                lemma_step_next(hc, carried.probe_dist as int, cap as int);
                assert(t[pos as int].key != EMPTY_KEY);
                assert(t[pos as int].probe_dist >= carried.probe_dist);
                assert forall|i: int| 0 <= i < carried.probe_dist + 1 implies {
                    &&& #[trigger] t[step(hc, i, cap as int)].key != EMPTY_KEY
                    &&& t[step(hc, i, cap as int)].probe_dist >= i
                } by {
                    if i < carried.probe_dist {
                        assert(chain_ok(t, hc, carried.probe_dist as int));
                    }
                }
                assert(t.len() == cap);
                assert(chain_ok(t, hc, carried.probe_dist + 1));
                assert forall|p: int| 0 <= p < cap && (#[trigger] s0[p]).key == EMPTY_KEY implies t[p].key == EMPTY_KEY by {
                    assert(s[p].key == EMPTY_KEY);
                }
            }
            carried = HashSlot { key: carried.key, value: carried.value, probe_dist: carried.probe_dist + 1 };
            pos = if pos + 1 == cap { 0 } else { pos + 1 };
            steps = steps + 1;
        }
        proof {
            if occupied_count(s0) < s0.len() {
                lemma_has_empty(s0);
            }
            assert forall|p: int| 0 <= p < cap implies #[trigger] s0[p].key != EMPTY_KEY by {
                lemma_step_covers(h0 as int, p, cap as int);
                let i = if p >= h0 { p - h0 } else { p + cap - h0 };
                assert(self.slots@[step(h0 as int, i, cap as int)].key != EMPTY_KEY);
            }
        }
        Err(HashIndexError::IndexFull)
    }

    /// Placing `x` at `p`, where its chain is unbroken, the slot is empty or
    /// a tombstone of no larger distance or an entry of smaller distance, and
    /// its key is held nowhere, keeps the table invariant and puts the key in
    /// the view in place of the slot's own.
    proof fn lemma_place(&self, x: HashSlot, p: int)
        requires
            table_ok(self.spec_slots()),
            0 <= p < self.spec_capacity(),
            is_live(x),
            (x.probe_dist as int) < self.spec_capacity(),
            step(home(x.key, self.spec_capacity() as int), x.probe_dist as int, self.spec_capacity() as int) == p,
            chain_ok(self.spec_slots(), home(x.key, self.spec_capacity() as int), x.probe_dist as int),
            !table_view(self.spec_slots()).contains_key(x.key),
            self.spec_slots()[p].key == EMPTY_KEY || x.probe_dist >= self.spec_slots()[p].probe_dist,
        ensures
            table_ok(self.spec_slots().update(p, x)),
            table_view(self.spec_slots().update(p, x)) == ({
                let s = self.spec_slots();
                let m = if is_live(s[p]) { table_view(s).remove(s[p].key) } else { table_view(s) };
                m.insert(x.key, x.value)
            }),
    {
        let s = self.spec_slots();
        let cap = s.len() as int;
        let t = s.update(p, x);
        assert forall|q: int| 0 <= q < s.len() && q != p implies !holds(s, q, x.key) by {
            if holds(s, q, x.key) {
                assert(table_view(s).contains_key(x.key));
            }
        }
        lemma_view_update(s, p, x);
        lemma_chains_kept(s, p, x);
        let hx = home(x.key, cap);
        vstd::arithmetic::div_mod::lemma_mod_bound(x.key as int, cap);
        assert(placed_ok(t, p)) by {
            assert forall|i: int| 0 <= i < x.probe_dist implies {
                &&& #[trigger] t[step(hx, i, cap)].key != EMPTY_KEY
                &&& t[step(hx, i, cap)].probe_dist >= i
            } by {
                assert(s[step(hx, i, cap)].key != EMPTY_KEY);
            }
        }
        assert forall|q: int| 0 <= q < t.len() implies #[trigger] placed_ok(t, q) by {
            if q != p {
                assert(placed_ok(t, q));
            }
        }
    }

    /// Removes `key`, leaving a tombstone that keeps the slot's probe distance.
    /// A sentinel or absent key leaves the table as it was.
    pub fn remove(&mut self, key: u64)
        requires
            old(self).wf(),
        ensures
            final(self).wf(),
            final(self).spec_capacity() == old(self).spec_capacity(),
            final(self)@ == old(self)@.remove(key),
            final(self).spec_occupied() == old(self).spec_occupied(),
    {
        if key == EMPTY_KEY || key == TOMBSTONE_KEY {
            proof {
                assert(!self@.contains_key(key));
                assert(self@.remove(key) =~= self@);
            }
            return;
        }
        match self.find(key) {
            None => {
                proof {
                    assert(self@.remove(key) =~= self@);
                }
            },
            Some(p) => {
                let old_slot = self.slots[p];
                let tomb = HashSlot { key: TOMBSTONE_KEY, value: old_slot.value, probe_dist: old_slot.probe_dist };
                proof {
                    let s = self.slots@;
                    lemma_view_update(s, p as int, tomb);
                    lemma_chains_kept(s, p as int, tomb);
                    lemma_live_count_update(s, p as int, tomb);
                    lemma_occupied_update(s, p as int, tomb);
                    let t = s.update(p as int, tomb);
                    assert forall|q: int| 0 <= q < t.len() implies #[trigger] placed_ok(t, q) by {
                        if q != p {
                            assert(placed_ok(t, q));
                        }
                    }
                    assert(live_count(s) >= 1);
                }
                self.slots.set(p, tomb);
                self.count = self.count - 1;
            },
        }
    }
}

/// A live key is absent exactly when its probe stops without meeting it: the
/// probe stops at an empty slot, or at one whose probe distance is below the
/// distance walked; and a present key is reached by the probe before any such
/// stop, since every slot on its way is occupied at no smaller distance.
pub proof fn lemma_probe_invariant(t: &MmapHashIndex, key: u64, d: int)
    requires
        t.wf(),
        is_real_key(key),
        0 <= d < t.spec_capacity(),
    ensures
        ({
            let cap = t.spec_capacity() as int;
            let h = home(key, cap);
            let s = t.spec_slots();
            (forall|i: int| 0 <= i < d ==> !holds(s, #[trigger] step(h, i, cap), key)) && s[step(h, d, cap)].key
                != key && (s[step(h, d, cap)].key == EMPTY_KEY || s[step(h, d, cap)].probe_dist < d)
                ==> !t@.contains_key(key)
        }),
        t@.contains_key(key) ==> exists|p: int|
            #![trigger holds(t.spec_slots(), p, key)]
            holds(t.spec_slots(), p, key) && step(
                home(key, t.spec_capacity() as int),
                t.spec_slots()[p].probe_dist as int,
                t.spec_capacity() as int,
            ) == p && chain_ok(t.spec_slots(), home(key, t.spec_capacity() as int), t.spec_slots()[p].probe_dist as int),
{
    let cap = t.spec_capacity() as int;
    let h = home(key, cap);
    let s = t.spec_slots();
    if (forall|i: int| 0 <= i < d ==> !holds(s, #[trigger] step(h, i, cap), key)) && s[step(h, d, cap)].key != key
        && (s[step(h, d, cap)].key == EMPTY_KEY || s[step(h, d, cap)].probe_dist < d) {
        t.lemma_absent_at(key, d);
    }
    if t@.contains_key(key) {
        let p = choose|p: int| holds(s, p, key);
        assert(holds(s, p, key));
        assert(placed_ok(s, p));
    }
}

} // verus!
