//! The range index of a numeric payload field: `(key, node)` entries kept
//! sorted by key, answered by binary search. Keys are `f64` values mapped by
//! `ordered_key` to integers that sort as `f64::total_cmp` does.
use vstd::multiset::Multiset;
use vstd::prelude::*;

verus! {

/// The integer whose unsigned order is the total order of the `f64` with
/// these bits: negative values have all bits flipped, the others only the
/// sign bit.
pub open spec fn ordered_key_spec(bits: u64) -> u64 {
    if bits >> 63u64 == 1 {
        !bits
    } else {
        bits | 0x8000_0000_0000_0000u64
    }
}

/// The range key of the `f64` with bits `bits`.
pub fn ordered_key(bits: u64) -> (r: u64)
    ensures
        r == ordered_key_spec(bits),
{
    if bits >> 63u64 == 1 {
        !bits
    } else {
        bits | 0x8000_0000_0000_0000u64
    }
}

/// One index entry: the key and the node it belongs to.
pub type RangeEntry = (u64, u32);

/// Keys never decrease.
pub open spec fn sorted(d: Seq<RangeEntry>) -> bool {
    forall|i: int, j: int| 0 <= i <= j < d.len() ==> (#[trigger] d[i]).0 <= (#[trigger] d[j]).0
}

/// The nodes of the entries whose keys lie in `[lo, hi]`, in entry order.
pub open spec fn nodes_in(d: Seq<RangeEntry>, lo: u64, hi: u64) -> Seq<u32>
    decreases d.len(),
{
    if d.len() == 0 {
        Seq::<u32>::empty()
    } else {
        let rest = nodes_in(d.drop_last(), lo, hi);
        if lo <= d.last().0 && d.last().0 <= hi {
            rest.push(d.last().1)
        } else {
            rest
        }
    }
}

/// The entries that do not belong to `node`, in order.
pub open spec fn without(d: Seq<RangeEntry>, node: u32) -> Seq<RangeEntry>
    decreases d.len(),
{
    if d.len() == 0 {
        Seq::<RangeEntry>::empty()
    } else {
        let rest = without(d.drop_last(), node);
        if d.last().1 == node {
            rest
        } else {
            rest.push(d.last())
        }
    }
}

proof fn lemma_nodes_in_none(d: Seq<RangeEntry>, lo: u64, hi: u64)
    requires
        forall|i: int| 0 <= i < d.len() ==> !(lo <= (#[trigger] d[i]).0 && d[i].0 <= hi),
    ensures
        nodes_in(d, lo, hi) == Seq::<u32>::empty(),
    decreases d.len(),
{
    if d.len() > 0 {
        lemma_nodes_in_none(d.drop_last(), lo, hi);
    }
}

proof fn lemma_nodes_in_tail(d: Seq<RangeEntry>, k: int, lo: u64, hi: u64)
    requires
        0 <= k <= d.len(),
        forall|i: int| k <= i < d.len() ==> !(lo <= (#[trigger] d[i]).0 && d[i].0 <= hi),
    ensures
        nodes_in(d, lo, hi) == nodes_in(d.subrange(0, k), lo, hi),
    decreases d.len() - k,
{
    if k < d.len() {
        lemma_nodes_in_tail(d.drop_last(), k, lo, hi);
        assert(d.drop_last().subrange(0, k) =~= d.subrange(0, k));
    } else {
        assert(d.subrange(0, k) =~= d);
    }
}

proof fn lemma_without_sorted(d: Seq<RangeEntry>, node: u32)
    requires
        sorted(d),
    ensures
        sorted(without(d, node)),
        forall|x: RangeEntry| without(d, node).contains(x) ==> d.contains(x),
    decreases d.len(),
{
    if d.len() > 0 {
        let r = without(d.drop_last(), node);
        lemma_without_sorted(d.drop_last(), node);
        assert forall|x: RangeEntry| r.contains(x) implies d.contains(x) by {
            assert(d.drop_last().contains(x));
            let i = d.drop_last().index_of(x);
            assert(d[i] == x);
        }
        if d.last().1 != node {
            assert forall|i: int, j: int| 0 <= i <= j < r.push(d.last()).len() implies (#[trigger] r.push(d.last())[i]).0
                <= (#[trigger] r.push(d.last())[j]).0 by {
                if j == r.len() && i < r.len() {
                    let x = r[i];
                    assert(r.contains(x));
                    assert(d.drop_last().contains(x));
                    let k = d.drop_last().index_of(x);
                    assert(d[k] == x);
                }
            }
            assert forall|x: RangeEntry| r.push(d.last()).contains(x) implies d.contains(x) by {
                if x != d.last() {
                    let i = r.push(d.last()).index_of(x);
                    assert(r[i] == x);
                    assert(r.contains(x));
                } else {
                    assert(d[d.len() - 1] == x);
                }
            }
        }
    }
}

/// Relies on `slice::sort_by_key` on the key field: a stable sort, so the
/// result is ordered by key and holds the same entries.
#[verifier::external_body]
fn sort_by_key_field(v: &mut Vec<RangeEntry>)
    ensures
        sorted(final(v)@),
        final(v)@.to_multiset() == old(v)@.to_multiset(),
{
    v.sort_by_key(|e| e.0)
}

/// The sorted entries of one field.
pub struct RangeIndex {
    data: Vec<RangeEntry>,
}

impl View for RangeIndex {
    type V = Seq<RangeEntry>;

    closed spec fn view(&self) -> Seq<RangeEntry> {
        self.data@
    }
}

impl RangeIndex {
    pub open spec fn wf(&self) -> bool {
        sorted(self@)
    }

    pub fn new() -> (r: Self)
        ensures
            r.wf(),
            r@.len() == 0,
    {
        RangeIndex { data: Vec::new() }
    }

    /// Number of entries.
    pub fn count(&self) -> (r: usize)
        ensures
            r == self@.len(),
    {
        self.data.len()
    }

    /// The first position whose key is at least `k`.
    pub fn lower_bound(&self, k: u64) -> (r: usize)
        requires
            self.wf(),
        ensures
            r <= self@.len(),
            forall|i: int| 0 <= i < r ==> (#[trigger] self@[i]).0 < k,
            forall|i: int| r <= i < self@.len() ==> (#[trigger] self@[i]).0 >= k,
    {
        let mut lo: usize = 0;
        let mut hi: usize = self.data.len();
        while lo < hi
            invariant
                self.wf(),
                lo <= hi <= self@.len(),
                forall|i: int| 0 <= i < lo ==> (#[trigger] self@[i]).0 < k,
                forall|i: int| hi <= i < self@.len() ==> (#[trigger] self@[i]).0 >= k,
            decreases hi - lo,
        {
            let mid = lo + (hi - lo) / 2;
            if self.data[mid].0 < k {
                proof {
                    assert forall|i: int| 0 <= i < mid + 1 implies (#[trigger] self@[i]).0 < k by {
                        assert(self@[i].0 <= self@[mid as int].0);
                    }
                }
                lo = mid + 1;
            } else {
                proof {
                    assert forall|i: int| mid <= i < self@.len() implies (#[trigger] self@[i]).0 >= k by {
                        assert(self@[mid as int].0 <= self@[i].0);
                    }
                }
                hi = mid;
            }
        }
        lo
    }

    /// The first position whose key is above `k`.
    pub fn upper_bound(&self, k: u64) -> (r: usize)
        requires
            self.wf(),
        ensures
            r <= self@.len(),
            forall|i: int| 0 <= i < r ==> (#[trigger] self@[i]).0 <= k,
            forall|i: int| r <= i < self@.len() ==> (#[trigger] self@[i]).0 > k,
    {
        let mut lo: usize = 0;
        let mut hi: usize = self.data.len();
        while lo < hi
            invariant
                self.wf(),
                lo <= hi <= self@.len(),
                forall|i: int| 0 <= i < lo ==> (#[trigger] self@[i]).0 <= k,
                forall|i: int| hi <= i < self@.len() ==> (#[trigger] self@[i]).0 > k,
            decreases hi - lo,
        {
            let mid = lo + (hi - lo) / 2;
            if self.data[mid].0 <= k {
                proof {
                    assert forall|i: int| 0 <= i < mid + 1 implies (#[trigger] self@[i]).0 <= k by {
                        assert(self@[i].0 <= self@[mid as int].0);
                    }
                }
                lo = mid + 1;
            } else {
                proof {
                    assert forall|i: int| mid <= i < self@.len() implies (#[trigger] self@[i]).0 > k by {
                        assert(self@[mid as int].0 <= self@[i].0);
                    }
                }
                hi = mid;
            }
        }
        lo
    }

    /// The nodes whose keys lie in `[lo, hi]`, in key order.
    pub fn lookup_range(&self, lo: u64, hi: u64) -> (r: Vec<u32>)
        requires
            self.wf(),
        ensures
            r@ == nodes_in(self@, lo, hi),
    {
        let ghost d = self@;
        let start = self.lower_bound(lo);
        let end = self.upper_bound(hi);
        let mut out: Vec<u32> = Vec::new();
        proof {
            lemma_nodes_in_none(d.subrange(0, start as int), lo, hi);
        }
        if start >= end {
            proof {
                assert forall|i: int| start <= i < d.len() implies !(lo <= (#[trigger] d[i]).0 && d[i].0 <= hi) by {
                    if i >= end as int {
                    } else {
                        assert(d[i].0 >= lo);
                    }
                }
                lemma_nodes_in_tail(d, start as int, lo, hi);
            }
            return out;
        }
        let mut k: usize = start;
        while k < end
            invariant
                self.wf(),
                d == self@,
                start <= k <= end <= d.len(),
                forall|i: int| 0 <= i < start ==> (#[trigger] d[i]).0 < lo,
                forall|i: int| start <= i < d.len() ==> (#[trigger] d[i]).0 >= lo,
                forall|i: int| 0 <= i < end ==> (#[trigger] d[i]).0 <= hi,
                out@ == nodes_in(d.subrange(0, k as int), lo, hi),
            decreases end - k,
        {
            out.push(self.data[k].1);
            proof {
                assert(d.subrange(0, k + 1).drop_last() =~= d.subrange(0, k as int));
            }
            k = k + 1;
        }
        proof {
            lemma_nodes_in_tail(d, end as int, lo, hi);
        }
        out
    }

    /// The nodes whose key is exactly `k`.
    pub fn lookup_eq(&self, k: u64) -> (r: Vec<u32>)
        requires
            self.wf(),
        ensures
            r@ == nodes_in(self@, k, k),
    {
        self.lookup_range(k, k)
    }

    /// Removes every entry of `node`.
    pub fn remove(&mut self, node: u32)
        requires
            old(self).wf(),
        ensures
            final(self).wf(),
            final(self)@ == without(old(self)@, node),
    {
        let ghost d = self@;
        let mut out: Vec<RangeEntry> = Vec::new();
        let mut k: usize = 0;
        while k < self.data.len()
            invariant
                d == self@,
                k <= d.len(),
                out@ == without(d.subrange(0, k as int), node),
            decreases self.data.len() - k,
        {
            let e = self.data[k];
            if e.1 != node {
                out.push(e);
            }
            proof {
                assert(d.subrange(0, k + 1).drop_last() =~= d.subrange(0, k as int));
            }
            k = k + 1;
        }
        proof {
            assert(d.subrange(0, d.len() as int) =~= d);
            lemma_without_sorted(d, node);
        }
        self.data = out;
    }

    /// Sets the key of `node`: its old entries go, and the new one goes after
    /// every entry with a key no greater.
    pub fn insert(&mut self, node: u32, key: u64)
        requires
            old(self).wf(),
        ensures
            final(self).wf(),
            exists|p: int|
                0 <= p <= without(old(self)@, node).len() && final(self)@ == without(old(self)@, node).insert(p, (key, node))
                    && (forall|i: int| 0 <= i < p ==> (#[trigger] without(old(self)@, node)[i]).0 <= key) && (forall|i: int|
                    p <= i < without(old(self)@, node).len() ==> (#[trigger] without(old(self)@, node)[i]).0 > key),
    {
        self.remove(node);
        let p = self.upper_bound(key);
        let ghost r = self@;
        self.data.insert(p, (key, node));
        proof {
            assert forall|i: int, j: int| 0 <= i <= j < self@.len() implies (#[trigger] self@[i]).0 <= (#[trigger] self@[j]).0 by {
                if i < p && j > p {
                    assert(self@[j] == r[j - 1]);
                } else if i > p {
                    assert(self@[i] == r[i - 1]);
                    assert(self@[j] == r[j - 1]);
                }
            }
            assert(self@ == r.insert(p as int, (key, node)));
        }
    }

    /// Adds many entries with one sort and one merge; entries already present
    /// stay, and ties keep existing entries first.
    pub fn bulk_insert(&mut self, entries: Vec<RangeEntry>)
        requires
            old(self).wf(),
            old(self)@.len() + entries@.len() <= usize::MAX,
        ensures
            final(self).wf(),
            final(self)@.to_multiset() == old(self)@.to_multiset().add(entries@.to_multiset()),
    {
        let mut fresh = entries;
        sort_by_key_field(&mut fresh);
        let a = &self.data;
        let b = &fresh;
        let mut merged: Vec<RangeEntry> = Vec::new();
        let mut i: usize = 0;
        let mut j: usize = 0;
        proof {
            let e = Seq::<RangeEntry>::empty();
            assert(a@.subrange(0, 0) =~= e);
            assert(b@.subrange(0, 0) =~= e);
            assert(merged@ =~= e);
            e.to_multiset_ensures();
            assert(e.to_multiset() =~= Multiset::<RangeEntry>::empty());
        }
        while i < a.len() || j < b.len()
            invariant
                sorted(a@),
                sorted(b@),
                i <= a@.len(),
                j <= b@.len(),
                sorted(merged@),
                merged@.len() == i + j,
                merged@.to_multiset() == a@.subrange(0, i as int).to_multiset().add(b@.subrange(0, j as int).to_multiset()),
                forall|x: int, y: int| 0 <= x < merged@.len() && i <= y < a@.len() ==> (#[trigger] merged@[x]).0 <= (#[trigger] a@[y]).0,
                forall|x: int, y: int| 0 <= x < merged@.len() && j <= y < b@.len() ==> (#[trigger] merged@[x]).0 <= (#[trigger] b@[y]).0,
            decreases a@.len() + b@.len() - i - j,
        {
            let take_a = j >= b.len() || (i < a.len() && a[i].0 <= b[j].0);
            let e = if take_a { a[i] } else { b[j] };
            let ghost before = merged@;
            merged.push(e);
            proof {
                before.to_multiset_ensures();
                if take_a {
                    let s = a@.subrange(0, i as int);
                    assert(a@.subrange(0, i + 1) =~= s.push(a@[i as int]));
                    s.to_multiset_ensures();
                } else {
                    let s = b@.subrange(0, j as int);
                    assert(b@.subrange(0, j + 1) =~= s.push(b@[j as int]));
                    s.to_multiset_ensures();
                }
            }
            if take_a {
                i = i + 1;
            } else {
                j = j + 1;
            }
            proof {
                assert(merged@.to_multiset() =~= a@.subrange(0, i as int).to_multiset().add(b@.subrange(0, j as int).to_multiset()));
                assert forall|x: int, y: int| 0 <= x < merged@.len() && i <= y < a@.len() implies (#[trigger] merged@[x]).0
                    <= (#[trigger] a@[y]).0 by {
                    if x == before.len() {
                        if take_a {
                            assert(a@[i - 1].0 <= a@[y].0);
                        } else {
                            assert(i < a@.len());
                            assert(e.0 < a@[i as int].0);
                            assert(a@[i as int].0 <= a@[y].0);
                        }
                    }
                }
                assert forall|x: int, y: int| 0 <= x < merged@.len() && j <= y < b@.len() implies (#[trigger] merged@[x]).0
                    <= (#[trigger] b@[y]).0 by {
                    if x == before.len() {
                        if !take_a {
                            assert(b@[j - 1].0 <= b@[y].0);
                        } else {
                            assert(j < b@.len());
                            assert(e.0 <= b@[j as int].0);
                            assert(b@[j as int].0 <= b@[y].0);
                        }
                    }
                }
                assert forall|x: int, y: int| 0 <= x <= y < merged@.len() implies (#[trigger] merged@[x]).0 <= (#[trigger] merged@[y]).0 by {
                    if y == before.len() && x < y {
                        if take_a {
                            assert(before[x].0 <= a@[i - 1].0);
                        } else {
                            assert(before[x].0 <= b@[j - 1].0);
                        }
                    }
                }
            }
        }
        proof {
            assert(a@.subrange(0, a@.len() as int) =~= a@);
            assert(b@.subrange(0, b@.len() as int) =~= b@);
        }
        self.data = merged;
    }
}

} // verus!
