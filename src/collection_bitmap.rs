//! Per-collection bitmaps of node indices, with per-collection dirty flags so
//! that a flush rewrites only the collections that changed.
use vstd::prelude::*;

use crate::bitmap::{bitmap_clone, bitmap_contains, bitmap_contents, bitmap_insert, bitmap_new, bitmap_remove};

verus! {

/// One collection: its hash, its members and whether they changed since the
/// last flush.
pub struct CollectionEntry {
    pub hash: u64,
    pub bitmap: roaring::RoaringBitmap,
    pub dirty: bool,
}

/// The members of every collection.
pub struct CollectionBitmapIndex {
    entries: Vec<CollectionEntry>,
}

impl CollectionBitmapIndex {
    pub closed spec fn spec_entries(&self) -> Seq<CollectionEntry> {
        self.entries@
    }

    /// Each collection has one entry.
    pub closed spec fn wf(&self) -> bool {
        forall|a: int, b: int|
            0 <= a < self.entries@.len() && 0 <= b < self.entries@.len() && (#[trigger] self.entries@[a]).hash
                == (#[trigger] self.entries@[b]).hash ==> a == b
    }

    /// Position of the entry of collection `h`.
    pub closed spec fn entry_at(&self, h: u64, p: int) -> bool {
        0 <= p < self.entries@.len() && self.entries@[p].hash == h
    }

    /// The members of collection `h` (empty for an unknown collection).
    pub closed spec fn members(&self, h: u64) -> Set<u32> {
        if exists|p: int| self.entry_at(h, p) {
            bitmap_contents(self.entries@[choose|p: int| self.entry_at(h, p)].bitmap)
        } else {
            Set::<u32>::empty()
        }
    }

    /// Whether collection `h` changed since it was last marked clean.
    pub closed spec fn is_dirty(&self, h: u64) -> bool {
        exists|p: int| self.entry_at(h, p) && self.entries@[p].dirty
    }

    pub fn new() -> (r: Self)
        ensures
            r.wf(),
            forall|h: u64| #[trigger] r.members(h) == Set::<u32>::empty(),
    {
        CollectionBitmapIndex { entries: Vec::new() }
    }

    /// Position of the entry of collection `h`, if it has one.
    fn find(&self, h: u64) -> (r: Option<usize>)
        requires
            self.wf(),
        ensures
            r matches Some(p) ==> self.entry_at(h, p as int) && self.members(h) == bitmap_contents(
                self.entries@[p as int].bitmap,
            ),
            r is None ==> !exists|p: int| self.entry_at(h, p),
    {
        let mut i: usize = 0;
        while i < self.entries.len()
            invariant
                self.wf(),
                i <= self.entries@.len(),
                forall|j: int| 0 <= j < i ==> self.entries@[j].hash != h,
            decreases self.entries.len() - i,
        {
            if self.entries[i].hash == h {
                proof {
                    assert(self.entry_at(h, i as int));
                    self.lemma_members_at(h, i as int);
                }
                return Some(i);
            }
            i = i + 1;
        }
        None
    }

    /// Two tables whose entries carry the same hashes in the same places find
    /// every collection at the same place.
    proof fn lemma_same_hashes(a: &Self, b: &Self)
        requires
            a.wf(),
            a.entries@.len() == b.entries@.len(),
            forall|q: int| 0 <= q < a.entries@.len() ==> (#[trigger] a.entries@[q]).hash == b.entries@[q].hash,
        ensures
            b.wf(),
            forall|g: u64, q: int| #[trigger] a.entry_at(g, q) == b.entry_at(g, q),
    {
        assert forall|x: int, y: int|
            0 <= x < b.entries@.len() && 0 <= y < b.entries@.len() && (#[trigger] b.entries@[x]).hash
                == (#[trigger] b.entries@[y]).hash implies x == y by {
            assert(a.entries@[x].hash == a.entries@[y].hash);
        }
    }

    proof fn lemma_members_at(&self, h: u64, p: int)
        requires
            self.wf(),
            self.entry_at(h, p),
        ensures
            self.members(h) == bitmap_contents(self.entries@[p].bitmap),
            self.is_dirty(h) == self.entries@[p].dirty,
    {
        let c = choose|q: int| self.entry_at(h, q);
        assert(self.entries@[c].hash == self.entries@[p].hash);
    }

    /// Adds node `idx` to collection `h` and marks it dirty.
    pub fn insert(&mut self, h: u64, idx: u32)
        requires
            old(self).wf(),
        ensures
            final(self).wf(),
            final(self).members(h) == old(self).members(h).insert(idx),
            final(self).is_dirty(h),
            forall|g: u64| g != h ==> #[trigger] final(self).members(g) == old(self).members(g) && final(self).is_dirty(g)
                == old(self).is_dirty(g),
    {
        match self.find(h) {
            Some(p) => {
                bitmap_insert(&mut self.entries[p].bitmap, idx);
                self.entries[p].dirty = true;
                proof {
                    Self::lemma_same_hashes(old(self), self);
                    old(self).lemma_members_at(h, p as int);
                    self.lemma_members_at(h, p as int);
                    assert forall|g: u64| g != h implies #[trigger] self.members(g) == old(self).members(g) && self.is_dirty(g)
                        == old(self).is_dirty(g) by {
                        if exists|q: int| old(self).entry_at(g, q) {
                            let q = choose|q: int| old(self).entry_at(g, q);
                            old(self).lemma_members_at(g, q);
                            assert(self.entry_at(g, q));
                            self.lemma_members_at(g, q);
                        } else {
                            assert(!exists|q: int| self.entry_at(g, q)) by {
                                if exists|q: int| self.entry_at(g, q) {
                                    let q = choose|q: int| self.entry_at(g, q);
                                    assert(old(self).entry_at(g, q));
                                }
                            }
                        }
                    }
                }
            },
            None => {
                let mut b = bitmap_new();
                bitmap_insert(&mut b, idx);
                self.entries.push(CollectionEntry { hash: h, bitmap: b, dirty: true });
                proof {
                    let n = old(self).entries@.len() as int;
                    assert forall|x: int, y: int|
                        0 <= x < self.entries@.len() && 0 <= y < self.entries@.len() && (#[trigger] self.entries@[x]).hash
                            == (#[trigger] self.entries@[y]).hash implies x == y by {
                        if x == n && y != n {
                            assert(old(self).entry_at(h, y));
                        } else if y == n && x != n {
                            assert(old(self).entry_at(h, x));
                        } else if x != n && y != n {
                            assert(old(self).entries@[x].hash == old(self).entries@[y].hash);
                        }
                    }
                    assert(self.entry_at(h, n));
                    self.lemma_members_at(h, n);
                    assert(old(self).members(h) == Set::<u32>::empty());
                    assert(bitmap_contents(b) =~= Set::<u32>::empty().insert(idx));
                    assert forall|g: u64| g != h implies #[trigger] self.members(g) == old(self).members(g) && self.is_dirty(g)
                        == old(self).is_dirty(g) by {
                        if exists|q: int| old(self).entry_at(g, q) {
                            let q = choose|q: int| old(self).entry_at(g, q);
                            old(self).lemma_members_at(g, q);
                            assert(self.entry_at(g, q));
                            self.lemma_members_at(g, q);
                        } else {
                            assert(!exists|q: int| self.entry_at(g, q)) by {
                                if exists|q: int| self.entry_at(g, q) {
                                    let q = choose|q: int| self.entry_at(g, q);
                                    assert(q != n);
                                    assert(old(self).entry_at(g, q));
                                }
                            }
                        }
                    }
                }
            },
        }
    }

    /// Removes node `idx` from collection `h`; a collection that had it is
    /// marked dirty.
    pub fn remove(&mut self, h: u64, idx: u32)
        requires
            old(self).wf(),
        ensures
            final(self).wf(),
            final(self).members(h) == old(self).members(h).remove(idx),
            old(self).members(h).contains(idx) ==> final(self).is_dirty(h),
            !old(self).members(h).contains(idx) ==> final(self).is_dirty(h) == old(self).is_dirty(h),
            forall|g: u64| g != h ==> #[trigger] final(self).members(g) == old(self).members(g) && final(self).is_dirty(g)
                == old(self).is_dirty(g),
    {
        match self.find(h) {
            Some(p) => {
                let was = bitmap_remove(&mut self.entries[p].bitmap, idx);
                if was {
                    self.entries[p].dirty = true;
                }
                proof {
                    Self::lemma_same_hashes(old(self), self);
                    old(self).lemma_members_at(h, p as int);
                    self.lemma_members_at(h, p as int);
                    assert forall|g: u64| g != h implies #[trigger] self.members(g) == old(self).members(g) && self.is_dirty(g)
                        == old(self).is_dirty(g) by {
                        if exists|q: int| old(self).entry_at(g, q) {
                            let q = choose|q: int| old(self).entry_at(g, q);
                            old(self).lemma_members_at(g, q);
                            assert(self.entry_at(g, q));
                            self.lemma_members_at(g, q);
                        } else {
                            assert(!exists|q: int| self.entry_at(g, q)) by {
                                if exists|q: int| self.entry_at(g, q) {
                                    let q = choose|q: int| self.entry_at(g, q);
                                    assert(old(self).entry_at(g, q));
                                }
                            }
                        }
                    }
                }
            },
            None => {
                proof {
                    assert(self.members(h) =~= self.members(h).remove(idx));
                }
            },
        }
    }

    /// Whether node `idx` is in collection `h`.
    pub fn contains(&self, h: u64, idx: u32) -> (r: bool)
        requires
            self.wf(),
        ensures
            r == self.members(h).contains(idx),
    {
        match self.find(h) {
            Some(p) => bitmap_contains(&self.entries[p].bitmap, idx),
            None => false,
        }
    }

    /// A copy of the members of collection `h`, for iteration.
    pub fn get_snapshot(&self, h: u64) -> (r: roaring::RoaringBitmap)
        requires
            self.wf(),
        ensures
            bitmap_contents(r) == self.members(h),
    {
        match self.find(h) {
            Some(p) => bitmap_clone(&self.entries[p].bitmap),
            None => bitmap_new(),
        }
    }

    /// The collections whose members changed since they were marked clean.
    pub fn dirty_hashes(&self) -> (r: Vec<u64>)
        requires
            self.wf(),
        ensures
            forall|h: u64| r@.contains(h) <==> self.is_dirty(h),
    {
        let mut out: Vec<u64> = Vec::new();
        let mut i: usize = 0;
        while i < self.entries.len()
            invariant
                self.wf(),
                i <= self.entries@.len(),
                forall|h: u64|
                    out@.contains(h) <==> exists|p: int| 0 <= p < i && self.entries@[p].hash == h && self.entries@[p].dirty,
            decreases self.entries.len() - i,
        {
            if self.entries[i].dirty {
                let ghost before = out@;
                out.push(self.entries[i].hash);
                proof {
                    assert forall|h: u64| out@.contains(h) <==> exists|p: int|
                        0 <= p < i + 1 && self.entries@[p].hash == h && self.entries@[p].dirty by {
                        if out@.contains(h) && !before.contains(h) {
                            assert(h == self.entries@[i as int].hash);
                        }
                        if exists|p: int| 0 <= p < i + 1 && self.entries@[p].hash == h && self.entries@[p].dirty {
                            let p = choose|p: int| 0 <= p < i + 1 && self.entries@[p].hash == h && self.entries@[p].dirty;
                            if p == i {
                                assert(out@[before.len() as int] == h);
                            } else {
                                assert(before.contains(h));
                                let k = before.index_of(h);
                                assert(out@[k] == h);
                            }
                        }
                    }
                }
            }
            i = i + 1;
        }
        proof {
            assert forall|h: u64| out@.contains(h) <==> self.is_dirty(h) by {
                if out@.contains(h) {
                    let p = choose|p: int| 0 <= p < i && self.entries@[p].hash == h && self.entries@[p].dirty;
                    assert(self.entry_at(h, p));
                }
            }
        }
        out
    }

    /// Marks collection `h` as written out.
    pub fn mark_clean(&mut self, h: u64)
        requires
            old(self).wf(),
        ensures
            final(self).wf(),
            !final(self).is_dirty(h),
            forall|g: u64| #[trigger] final(self).members(g) == old(self).members(g),
            forall|g: u64| g != h ==> #[trigger] final(self).is_dirty(g) == old(self).is_dirty(g),
    {
        match self.find(h) {
            Some(p) => {
                self.entries[p].dirty = false;
                proof {
                    Self::lemma_same_hashes(old(self), self);
                    self.lemma_members_at(h, p as int);
                    assert forall|g: u64| g != h implies #[trigger] self.is_dirty(g) == old(self).is_dirty(g) by {
                        if exists|q: int| old(self).entry_at(g, q) {
                            let q = choose|q: int| old(self).entry_at(g, q);
                            old(self).lemma_members_at(g, q);
                            assert(self.entry_at(g, q));
                            self.lemma_members_at(g, q);
                        } else {
                            assert(!exists|q: int| self.entry_at(g, q)) by {
                                if exists|q: int| self.entry_at(g, q) {
                                    let q = choose|q: int| self.entry_at(g, q);
                                    assert(old(self).entry_at(g, q));
                                }
                            }
                        }
                    }
                    assert forall|g: u64| #[trigger] self.members(g) == old(self).members(g) && (g != h ==> self.is_dirty(g)
                        == old(self).is_dirty(g)) by {
                        if exists|q: int| old(self).entry_at(g, q) {
                            let q = choose|q: int| old(self).entry_at(g, q);
                            old(self).lemma_members_at(g, q);
                            assert(self.entry_at(g, q));
                            self.lemma_members_at(g, q);
                        } else {
                            assert(!exists|q: int| self.entry_at(g, q)) by {
                                if exists|q: int| self.entry_at(g, q) {
                                    let q = choose|q: int| self.entry_at(g, q);
                                    assert(old(self).entry_at(g, q));
                                }
                            }
                        }
                    }
                }
            },
            None => {},
        }
    }

    /// Rebuilds every collection from `(collection, node)` pairs, as on reopen
    /// after a scan of the node arena.
    pub fn rebuild_from_iter(pairs: &Vec<(u64, u32)>) -> (r: Self)
        ensures
            r.wf(),
            forall|h: u64, i: u32| #[trigger] r.members(h).contains(i) <==> pairs@.contains((h, i)),
    {
        let mut r = Self::new();
        let mut k: usize = 0;
        while k < pairs.len()
            invariant
                r.wf(),
                k <= pairs@.len(),
                forall|h: u64, i: u32| #[trigger] r.members(h).contains(i) <==> pairs@.subrange(0, k as int).contains((h, i)),
            decreases pairs.len() - k,
        {
            let (h, i) = pairs[k];
            let ghost before = r;
            r.insert(h, i);
            proof {
                let s0 = pairs@.subrange(0, k as int);
                let s1 = pairs@.subrange(0, k + 1);
                assert(s1 =~= s0.push((h, i)));
                assert forall|g: u64, j: u32| #[trigger] r.members(g).contains(j) <==> s1.contains((g, j)) by {
                    assert(before.members(g).contains(j) <==> s0.contains((g, j)));
                    if s0.contains((g, j)) {
                        let q = s0.index_of((g, j));
                        assert(s1[q] == (g, j));
                    }
                    if (g, j) == (h, i) {
                        assert(s1[k as int] == (h, i));
                    }
                    if s1.contains((g, j)) {
                        let q = s1.index_of((g, j));
                        if q < k {
                            assert(s0[q] == (g, j));
                        }
                    }
                    if g != h {
                        assert(r.members(g) == before.members(g));
                    } else {
                        assert(r.members(h) == before.members(h).insert(i));
                    }
                }
            }
            k = k + 1;
        }
        proof {
            assert(pairs@.subrange(0, pairs@.len() as int) =~= pairs@);
        }
        r
    }
}

} // verus!
