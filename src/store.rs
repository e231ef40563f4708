//! The node table: node records in arena order, the slug index from slug
//! hash to arena index, and the collection bitmaps, kept in step on every
//! write and delete.
use vstd::prelude::*;

use crate::bitmap::{bitmap_contents, bitmap_insert, bitmap_new};
use crate::collection_bitmap::CollectionBitmapIndex;
use crate::mmap_hash::{is_real_key, HashIndexError, MmapHashIndex};

verus! {

/// The fixed part of a node. Coordinates are kept as the bit patterns of
/// their `f32` values.
#[derive(Clone, Copy, Debug, PartialEq, Eq, Structural)]
pub struct NodeRecord {
    pub slug_hash: u64,
    pub collection_hash: u64,
    pub active: bool,
    pub lat_bits: u32,
    pub lon_bits: u32,
    pub blob_offset: u64,
    pub blob_len: u32,
    pub vec_slot: u32,
    pub crc32: u32,
}

/// Errors of the node table.
#[derive(Clone, Copy, Debug, PartialEq, Eq, Structural)]
pub enum StoreError {
    /// The slug index is full; the table must be rebuilt larger.
    IndexFull,
    /// Arena indices are exhausted.
    ArenaFull,
}

/// No two live records share a storable slug hash.
pub open spec fn live_slugs_distinct(s: Seq<NodeRecord>) -> bool {
    forall|i: int, j: int|
        0 <= i < s.len() && 0 <= j < s.len() && i != j && s[i].active && s[j].active && is_real_key(s[i].slug_hash)
            ==> #[trigger] s[i].slug_hash != #[trigger] s[j].slug_hash
}

/// Nodes, slug index and collection bitmaps.
pub struct NodeTable {
    nodes: Vec<NodeRecord>,
    slugs: MmapHashIndex,
    collections: CollectionBitmapIndex,
}

impl NodeTable {
    pub closed spec fn spec_nodes(&self) -> Seq<NodeRecord> {
        self.nodes@
    }

    /// The slug index: slug hash to arena index.
    pub closed spec fn slug_map(&self) -> Map<u64, u32> {
        self.slugs@
    }

    /// The members of collection `h`.
    pub closed spec fn collection(&self, h: u64) -> Set<u32> {
        self.collections.members(h)
    }

    /// The number of slots of the slug index.
    pub closed spec fn slug_capacity(&self) -> nat {
        self.slugs.spec_capacity()
    }

    /// Whether collection `h` changed since it was last written out.
    pub closed spec fn collection_dirty(&self, h: u64) -> bool {
        self.collections.is_dirty(h)
    }

    /// Node `i` is live.
    pub open spec fn live(&self, i: int) -> bool {
        0 <= i < self.spec_nodes().len() && self.spec_nodes()[i].active
    }

    pub closed spec fn wf(&self) -> bool {
        &&& self.slugs.wf()
        &&& self.collections.wf()
        &&& self.nodes@.len() < 0xffff_ffff
        &&& self.slugs.spec_occupied() <= self.nodes@.len()
        &&& forall|i: int|
            #![trigger self.nodes@[i]]
            0 <= i < self.nodes@.len() && self.nodes@[i].active && is_real_key(self.nodes@[i].slug_hash)
                ==> self.slugs@.contains_key(self.nodes@[i].slug_hash) && self.slugs@[self.nodes@[i].slug_hash] == i
        &&& forall|k: u64|
            #[trigger] self.slugs@.contains_key(k) ==> {
                &&& self.slugs@[k] < self.nodes@.len()
                &&& self.nodes@[self.slugs@[k] as int].active
                &&& self.nodes@[self.slugs@[k] as int].slug_hash == k
            }
        &&& forall|h: u64, i: u32|
            #[trigger] self.collections.members(h).contains(i) <==> (i < self.nodes@.len() && self.nodes@[i as int].active
                && self.nodes@[i as int].collection_hash == h)
    }

    /// Every live node with a storable slug hash is what the slug index
    /// gives for that hash, and the index gives nothing else.
    pub proof fn lemma_slug_bijection(&self, i: int)
        requires
            self.wf(),
            self.live(i),
            is_real_key(self.spec_nodes()[i].slug_hash),
        ensures
            self.slug_map().contains_key(self.spec_nodes()[i].slug_hash),
            self.slug_map()[self.spec_nodes()[i].slug_hash] == i,
            forall|k: u64| #[trigger] self.slug_map().contains_key(k) ==> self.live(self.slug_map()[k] as int)
                && self.spec_nodes()[self.slug_map()[k] as int].slug_hash == k,
    {
    }

    /// Collection `h` holds node `i` exactly when that node is live and
    /// belongs to `h`.
    pub proof fn lemma_collection_complete(&self, h: u64, i: u32)
        requires
            self.wf(),
        ensures
            self.collection(h).contains(i) <==> (self.live(i as int) && self.spec_nodes()[i as int].collection_hash == h),
    {
    }

    /// A well-formed table never holds two live nodes with one storable slug
    /// hash.
    pub proof fn lemma_live_slugs_distinct(&self)
        requires
            self.wf(),
        ensures
            live_slugs_distinct(self.spec_nodes()),
    {
        let s = self.nodes@;
        assert forall|i: int, j: int|
            0 <= i < s.len() && 0 <= j < s.len() && i != j && s[i].active && s[j].active && is_real_key(s[i].slug_hash)
                implies #[trigger] s[i].slug_hash != #[trigger] s[j].slug_hash by {
            if s[i].slug_hash == s[j].slug_hash {
                assert(self.slugs@[s[i].slug_hash] == i);
                assert(self.slugs@[s[j].slug_hash] == j);
            }
        }
    }

    /// Two well-formed tables with the same node records agree on every slug
    /// lookup and every collection: what a reopen rebuilds answers as before.
    pub proof fn lemma_reopen_equivalence(a: &NodeTable, b: &NodeTable)
        requires
            a.wf(),
            b.wf(),
            a.spec_nodes() == b.spec_nodes(),
        ensures
            a.slug_map() == b.slug_map(),
            forall|h: u64| #[trigger] a.collection(h) == b.collection(h),
    {
        assert forall|k: u64| #[trigger] a.slugs@.contains_key(k) implies b.slugs@.contains_key(k) && b.slugs@[k] == a.slugs@[k] by {
            let p = choose|p: int| crate::mmap_hash::holds(a.slugs.spec_slots(), p, k);
            assert(crate::mmap_hash::holds(a.slugs.spec_slots(), p, k));
            let i = a.slugs@[k] as int;
            assert(a.nodes@[i].active);
        }
        assert forall|k: u64| #[trigger] b.slugs@.contains_key(k) implies a.slugs@.contains_key(k) by {
            let p = choose|p: int| crate::mmap_hash::holds(b.slugs.spec_slots(), p, k);
            assert(crate::mmap_hash::holds(b.slugs.spec_slots(), p, k));
            let i = b.slugs@[k] as int;
            assert(b.nodes@[i].active);
        }
        assert(a.slugs@ =~= b.slugs@);
        assert forall|h: u64| #[trigger] a.collection(h) == b.collection(h) by {
            assert forall|i: u32| a.collections.members(h).contains(i) == b.collections.members(h).contains(i) by {}
            assert(a.collections.members(h) =~= b.collections.members(h));
        }
    }

    /// An empty table whose slug index has room for `capacity` nodes.
    pub fn new(capacity: u64) -> (r: Self)
        requires
            capacity <= 0x4000_0000,
        ensures
            r.wf(),
            r.spec_nodes().len() == 0,
            r.slug_map() == Map::<u64, u32>::empty(),
            r.slug_capacity() >= capacity,
    {
        let r = NodeTable { nodes: Vec::new(), slugs: MmapHashIndex::new(capacity), collections: CollectionBitmapIndex::new() };
        proof {
            assert((20 * capacity + 12) / 13 >= capacity) by (nonlinear_arith)
                requires
                    capacity >= 0,
            ;
            assert forall|h: u64, i: u32| #[trigger] r.collections.members(h).contains(i) <==> (i < r.nodes@.len()
                && r.nodes@[i as int].active && r.nodes@[i as int].collection_hash == h) by {
                assert(r.collections.members(h) == Set::<u32>::empty());
            }
        }
        r
    }

    /// Number of node slots, live or not.
    pub fn len(&self) -> (r: usize)
        ensures
            r == self.spec_nodes().len(),
    {
        self.nodes.len()
    }

    /// The node at arena index `i`.
    pub fn node(&self, i: u32) -> (r: NodeRecord)
        requires
            i < self.spec_nodes().len(),
        ensures
            r == self.spec_nodes()[i as int],
    {
        self.nodes[i as usize]
    }

    /// The arena index of the live node with this slug hash, if any.
    pub fn get(&self, slug_hash: u64) -> (r: Option<u32>)
        requires
            self.wf(),
        ensures
            r == (if self.slug_map().contains_key(slug_hash) { Some(self.slug_map()[slug_hash]) } else { None::<u32> }),
            r matches Some(i) ==> self.live(i as int) && self.spec_nodes()[i as int].slug_hash == slug_hash,
    {
        self.slugs.get(slug_hash)
    }

    /// Deactivates node `i` and takes it out of its collection; the slug
    /// index is left as it is, still naming `i` for its slug hash.
    fn retire(&mut self, i: u32)
        requires
            old(self).wf(),
            old(self).live(i as int),
        ensures
            final(self).slugs == old(self).slugs,
            final(self).collections.wf(),
            final(self).nodes@ == old(self).nodes@.update(i as int, NodeRecord { active: false, ..old(self).nodes@[i as int] }),
            forall|j: int|
                #![trigger final(self).nodes@[j]]
                0 <= j < final(self).nodes@.len() && final(self).nodes@[j].active && is_real_key(final(self).nodes@[j].slug_hash)
                    ==> final(self).slugs@.contains_key(final(self).nodes@[j].slug_hash) && final(self).slugs@[final(
                    self).nodes@[j].slug_hash] == j,
            forall|k: u64|
                #[trigger] final(self).slugs@.contains_key(k) && k != old(self).nodes@[i as int].slug_hash ==> {
                    &&& final(self).slugs@[k] < final(self).nodes@.len()
                    &&& final(self).nodes@[final(self).slugs@[k] as int].active
                    &&& final(self).nodes@[final(self).slugs@[k] as int].slug_hash == k
                },
            final(self).slugs@.contains_key(old(self).nodes@[i as int].slug_hash) ==> final(self).slugs@[old(
                self,
            ).nodes@[i as int].slug_hash] == i,
            forall|h: u64, j: u32|
                #[trigger] final(self).collections.members(h).contains(j) <==> (j < final(self).nodes@.len()
                    && final(self).nodes@[j as int].active && final(self).nodes@[j as int].collection_hash == h),
    {
        let rec = self.nodes[i as usize];
        let off = NodeRecord { active: false, ..rec };
        self.nodes.set(i as usize, off);
        self.collections.remove(rec.collection_hash, i);
        proof {
            let on = old(self).nodes@;
            let nn = self.nodes@;
            assert forall|j: int|
                #![trigger nn[j]]
                0 <= j < nn.len() && nn[j].active && is_real_key(nn[j].slug_hash) implies self.slugs@.contains_key(nn[j].slug_hash)
                    && self.slugs@[nn[j].slug_hash] == j by {
                assert(on[j] == nn[j]);
            }
            assert forall|k: u64|
                #[trigger] self.slugs@.contains_key(k) && k != rec.slug_hash implies {
                    &&& self.slugs@[k] < nn.len()
                    &&& nn[self.slugs@[k] as int].active
                    &&& nn[self.slugs@[k] as int].slug_hash == k
                } by {
                assert(old(self).slugs@.contains_key(k));
            }
            if self.slugs@.contains_key(rec.slug_hash) {
                assert(old(self).slugs@.contains_key(rec.slug_hash));
                let j = old(self).slugs@[rec.slug_hash] as int;
                assert(on[j].active && on[j].slug_hash == rec.slug_hash);
                assert(is_real_key(rec.slug_hash)) by {
                    let p = choose|p: int| crate::mmap_hash::holds(self.slugs.spec_slots(), p, rec.slug_hash);
                    assert(crate::mmap_hash::holds(self.slugs.spec_slots(), p, rec.slug_hash));
                }
                assert(on[i as int].active && is_real_key(on[i as int].slug_hash));
            }
            assert forall|h: u64, j: u32| #[trigger] self.collections.members(h).contains(j) <==> (j < nn.len()
                && nn[j as int].active && nn[j as int].collection_hash == h) by {
                assert(old(self).collections.members(h).contains(j) <==> (j < on.len() && on[j as int].active
                    && on[j as int].collection_hash == h));
                if h != rec.collection_hash {
                    assert(self.collections.members(h) == old(self).collections.members(h));
                }
            }
        }
    }

    /// Tombstones node `i`: it leaves its collection and the slug index.
    fn tombstone(&mut self, i: u32)
        requires
            old(self).wf(),
            old(self).live(i as int),
        ensures
            final(self).wf(),
            final(self).spec_nodes() == old(self).spec_nodes().update(
                i as int,
                NodeRecord { active: false, ..old(self).spec_nodes()[i as int] },
            ),
            final(self).slug_map() == old(self).slug_map().remove(old(self).spec_nodes()[i as int].slug_hash),
    {
        let rec = self.nodes[i as usize];
        let off = NodeRecord { active: false, ..rec };
        self.nodes.set(i as usize, off);
        self.collections.remove(rec.collection_hash, i);
        self.slugs.remove(rec.slug_hash);
        proof {
            let on = old(self).nodes@;
            let nn = self.nodes@;
            assert forall|j: int|
                #![trigger nn[j]]
                0 <= j < nn.len() && nn[j].active && is_real_key(nn[j].slug_hash) implies self.slugs@.contains_key(nn[j].slug_hash)
                    && self.slugs@[nn[j].slug_hash] == j by {
                assert(on[j] == nn[j]);
                if nn[j].slug_hash == rec.slug_hash {
                    assert(old(self).slugs@[rec.slug_hash] == j);
                    if is_real_key(rec.slug_hash) {
                        assert(old(self).slugs@[rec.slug_hash] == i);
                    }
                }
            }
            assert forall|k: u64| #[trigger] self.slugs@.contains_key(k) implies {
                &&& self.slugs@[k] < nn.len()
                &&& nn[self.slugs@[k] as int].active
                &&& nn[self.slugs@[k] as int].slug_hash == k
            } by {
                assert(old(self).slugs@.contains_key(k));
                if old(self).slugs@[k] == i {
                    assert(on[i as int].slug_hash == k);
                }
            }
            assert forall|h: u64, j: u32| #[trigger] self.collections.members(h).contains(j) <==> (j < nn.len()
                && nn[j as int].active && nn[j as int].collection_hash == h) by {
                assert(old(self).collections.members(h).contains(j) <==> (j < on.len() && on[j as int].active
                    && on[j as int].collection_hash == h));
                if h != rec.collection_hash {
                    assert(self.collections.members(h) == old(self).collections.members(h));
                }
            }
        }
    }

    /// Writes a node: a live node with the same storable slug hash is
    /// tombstoned, the new record is appended live, the slug index points at
    /// it and its collection gains it. Returns its arena index. A full slug
    /// index is fatal for the table: nothing is promised of it after
    /// `IndexFull`.
    pub fn write(
        &mut self,
        slug_hash: u64,
        collection_hash: u64,
        lat_bits: u32,
        lon_bits: u32,
        blob_offset: u64,
        blob_len: u32,
        vec_slot: u32,
        crc32: u32,
    ) -> (r: Result<u32, StoreError>)
        requires
            old(self).wf(),
        ensures
            old(self).spec_nodes().len() + 1 >= 0xffff_ffff ==> r == Err::<u32, StoreError>(StoreError::ArenaFull)
                && *final(self) == *old(self),
            r matches Ok(i) ==> {
                let rec = NodeRecord {
                    slug_hash,
                    collection_hash,
                    active: true,
                    lat_bits,
                    lon_bits,
                    blob_offset,
                    blob_len,
                    vec_slot,
                    crc32,
                };
                let prior = if is_real_key(slug_hash) && old(self).slug_map().contains_key(slug_hash) {
                    let p = old(self).slug_map()[slug_hash] as int;
                    old(self).spec_nodes().update(p, NodeRecord { active: false, ..old(self).spec_nodes()[p] })
                } else {
                    old(self).spec_nodes()
                };
                &&& final(self).wf()
                &&& i == old(self).spec_nodes().len()
                &&& final(self).spec_nodes() == prior.push(rec)
                &&& final(self).slug_map() == if is_real_key(slug_hash) {
                    old(self).slug_map().insert(slug_hash, i)
                } else {
                    old(self).slug_map()
                }
            },
            r is Err && old(self).spec_nodes().len() + 1 < 0xffff_ffff ==> r == Err::<u32, StoreError>(StoreError::IndexFull),
            old(self).spec_nodes().len() + 1 < 0xffff_ffff && (!is_real_key(slug_hash) || old(self).slug_map().contains_key(
                slug_hash,
            ) || old(self).spec_nodes().len() < old(self).slug_capacity()) ==> r is Ok,
            r is Ok ==> final(self).slug_capacity() == old(self).slug_capacity(),
    {
        if self.nodes.len() + 1 >= 0xffff_ffff {
            return Err(StoreError::ArenaFull);
        }
        let storable = slug_hash != 0 && slug_hash != 0xffff_ffff_ffff_ffff;
        if storable {
            if let Some(prev) = self.slugs.get(slug_hash) {
                self.retire(prev);
                proof {
                    assert forall|j: int| 0 <= j < self.nodes@.len() && self.nodes@[j].active implies self.nodes@[j].slug_hash
                        != slug_hash by {
                        if self.nodes@[j].slug_hash == slug_hash {
                            assert(self.nodes@[j] == old(self).nodes@[j]);
                        }
                    }
                }
            } else {
                proof {
                    assert forall|j: int| 0 <= j < self.nodes@.len() && self.nodes@[j].active implies self.nodes@[j].slug_hash
                        != slug_hash by {
                        if self.nodes@[j].slug_hash == slug_hash {
                            assert(self.nodes@[j] == old(self).nodes@[j]);
                        }
                    }
                }
            }
        }
        let ghost mid = *self;
        let idx = self.nodes.len() as u32;
        let rec = NodeRecord {
            slug_hash,
            collection_hash,
            active: true,
            lat_bits,
            lon_bits,
            blob_offset,
            blob_len,
            vec_slot,
            crc32,
        };
        self.nodes.push(rec);
        if storable {
            match self.slugs.insert(slug_hash, idx) {
                Ok(()) => {},
                Err(HashIndexError::IndexFull) => {
                    return Err(StoreError::IndexFull);
                },
            }
        }
        self.collections.insert(collection_hash, idx);
        proof {
            let mn = mid.nodes@;
            let nn = self.nodes@;
            assert forall|j: int|
                #![trigger nn[j]]
                0 <= j < nn.len() && nn[j].active && is_real_key(nn[j].slug_hash) implies self.slugs@.contains_key(nn[j].slug_hash)
                    && self.slugs@[nn[j].slug_hash] == j by {
                if j < mn.len() {
                    assert(mn[j] == nn[j]);
                    assert(mn[j].slug_hash != slug_hash);
                    assert(mid.slugs@.contains_key(nn[j].slug_hash));
                }
            }
            assert forall|k: u64| #[trigger] self.slugs@.contains_key(k) implies {
                &&& self.slugs@[k] < nn.len()
                &&& nn[self.slugs@[k] as int].active
                &&& nn[self.slugs@[k] as int].slug_hash == k
            } by {
                if k != slug_hash {
                    assert(mid.slugs@.contains_key(k));
                }
            }
            assert forall|h: u64, j: u32| #[trigger] self.collections.members(h).contains(j) <==> (j < nn.len()
                && nn[j as int].active && nn[j as int].collection_hash == h) by {
                assert(mid.collections.members(h).contains(j) <==> (j < mn.len() && mn[j as int].active
                    && mn[j as int].collection_hash == h));
                if h != collection_hash {
                    assert(self.collections.members(h) == mid.collections.members(h));
                }
            }
        }
        Ok(idx)
    }

    /// Appends a tombstoned record; no index changes.
    fn push_inactive(&mut self, rec: NodeRecord)
        requires
            old(self).wf(),
            !rec.active,
            old(self).spec_nodes().len() + 1 < 0xffff_ffff,
        ensures
            final(self).wf(),
            final(self).spec_nodes() == old(self).spec_nodes().push(rec),
            final(self).slug_map() == old(self).slug_map(),
            final(self).slug_capacity() == old(self).slug_capacity(),
    {
        self.nodes.push(rec);
        proof {
            let on = old(self).nodes@;
            let nn = self.nodes@;
            assert forall|j: int|
                #![trigger nn[j]]
                0 <= j < nn.len() && nn[j].active && is_real_key(nn[j].slug_hash) implies self.slugs@.contains_key(nn[j].slug_hash)
                    && self.slugs@[nn[j].slug_hash] == j by {
                assert(on[j] == nn[j]);
            }
            assert forall|h: u64, j: u32| #[trigger] self.collections.members(h).contains(j) <==> (j < nn.len()
                && nn[j as int].active && nn[j as int].collection_hash == h) by {
                assert(old(self).collections.members(h).contains(j) <==> (j < on.len() && on[j as int].active
                    && on[j as int].collection_hash == h));
            }
        }
    }

    /// Rebuilds the table from the node records of an arena scan, as on
    /// reopen: live records enter the slug index and their collections.
    /// Records whose live slug hashes are distinct come back unchanged.
    pub fn rebuild(records: &Vec<NodeRecord>, capacity: u64) -> (r: Result<NodeTable, StoreError>)
        requires
            capacity <= 0x4000_0000,
        ensures
            r matches Ok(t) ==> t.wf() && (live_slugs_distinct(records@) ==> t.spec_nodes() == records@),
            records@.len() <= capacity ==> r is Ok,
    {
        let mut t = NodeTable::new(capacity);
        let mut i: usize = 0;
        while i < records.len()
            invariant
                t.wf(),
                i <= records@.len(),
                t.spec_nodes().len() == i,
                capacity <= 0x4000_0000,
                t.slug_capacity() >= capacity,
                live_slugs_distinct(records@) ==> t.spec_nodes() == records@.subrange(0, i as int),
            decreases records.len() - i,
        {
            let rec = records[i];
            if t.nodes.len() + 1 >= 0xffff_ffff {
                return Err(StoreError::ArenaFull);
            }
            if rec.active {
                let ghost before = t;
                proof {
                    if live_slugs_distinct(records@) && is_real_key(rec.slug_hash) && t.slug_map().contains_key(rec.slug_hash) {
                        let j = t.slugs@[rec.slug_hash] as int;
                        assert(t.nodes@[j] == records@[j]);
                        assert(false);
                    }
                }
                match t.write(
                    rec.slug_hash,
                    rec.collection_hash,
                    rec.lat_bits,
                    rec.lon_bits,
                    rec.blob_offset,
                    rec.blob_len,
                    rec.vec_slot,
                    rec.crc32,
                ) {
                    Ok(_) => {},
                    Err(e) => {
                        return Err(e);
                    },
                }
            } else {
                t.push_inactive(rec);
            }
            i = i + 1;
            proof {
                if live_slugs_distinct(records@) {
                    assert(t.spec_nodes() =~= records@.subrange(0, i as int));
                }
            }
        }
        proof {
            assert(records@.subrange(0, records@.len() as int) =~= records@);
        }
        Ok(t)
    }

    /// Deletes the live node with this slug hash, if any, and returns its
    /// arena index: it is tombstoned and leaves the slug index and its
    /// collection.
    pub fn delete(&mut self, slug_hash: u64) -> (r: Option<u32>)
        requires
            old(self).wf(),
        ensures
            final(self).wf(),
            final(self).slug_map() == old(self).slug_map().remove(slug_hash),
            !final(self).slug_map().contains_key(slug_hash),
            r == (if old(self).slug_map().contains_key(slug_hash) { Some(old(self).slug_map()[slug_hash]) } else { None::<u32> }),
            r matches Some(i) ==> final(self).spec_nodes() == old(self).spec_nodes().update(
                i as int,
                NodeRecord { active: false, ..old(self).spec_nodes()[i as int] },
            ) && !final(self).live(i as int),
            r is None ==> *final(self) == *old(self),
    {
        match self.slugs.get(slug_hash) {
            Some(i) => {
                self.tombstone(i);
                Some(i)
            },
            None => {
                proof {
                    assert(self.slugs@.remove(slug_hash) =~= self.slugs@);
                }
                None
            },
        }
    }

    /// The members of collection `h`, as a bitmap.
    pub fn collection_snapshot(&self, h: u64) -> (r: roaring::RoaringBitmap)
        requires
            self.wf(),
        ensures
            bitmap_contents(r) == self.collection(h),
    {
        self.collections.get_snapshot(h)
    }

    /// Whether collection `h` holds node `i`.
    pub fn in_collection(&self, h: u64, i: u32) -> (r: bool)
        requires
            self.wf(),
        ensures
            r == (self.live(i as int) && self.spec_nodes()[i as int].collection_hash == h),
    {
        self.collections.contains(h, i)
    }

    /// Records that collection `h` was written out.
    pub fn mark_flushed(&mut self, h: u64)
        requires
            old(self).wf(),
        ensures
            final(self).wf(),
            final(self).spec_nodes() == old(self).spec_nodes(),
            final(self).slug_map() == old(self).slug_map(),
            forall|g: u64| #[trigger] final(self).collection(g) == old(self).collection(g),
            !final(self).collection_dirty(h),
    {
        self.collections.mark_clean(h);
    }

    /// The collection index, for flushing.
    pub fn collections(&self) -> (r: &CollectionBitmapIndex)
        ensures
            r.members(0) == self.collection(0),
            forall|h: u64| #[trigger] r.members(h) == self.collection(h),
    {
        &self.collections
    }

    /// `All`: every live node.
    pub fn all(&self) -> (r: roaring::RoaringBitmap)
        requires
            self.wf(),
        ensures
            forall|i: u32| #[trigger] bitmap_contents(r).contains(i) <==> self.live(i as int),
    {
        let mut r = bitmap_new();
        let mut i: usize = 0;
        while i < self.nodes.len()
            invariant
                self.wf(),
                i <= self.nodes@.len(),
                self.nodes@.len() < 0xffff_ffff,
                forall|j: u32| #[trigger] bitmap_contents(r).contains(j) <==> (j < i && self.live(j as int)),
            decreases self.nodes.len() - i,
        {
            if self.nodes[i].active {
                bitmap_insert(&mut r, i as u32);
            }
            i = i + 1;
        }
        r
    }

    /// `One(slug)`: the live node with this slug hash, if any.
    pub fn one(&self, slug_hash: u64) -> (r: roaring::RoaringBitmap)
        requires
            self.wf(),
        ensures
            bitmap_contents(r) == (if self.slug_map().contains_key(slug_hash) {
                set![self.slug_map()[slug_hash]]
            } else {
                Set::<u32>::empty()
            }),
    {
        let mut r = bitmap_new();
        if let Some(i) = self.get(slug_hash) {
            bitmap_insert(&mut r, i);
            proof {
                assert(bitmap_contents(r) =~= set![i]);
            }
        }
        r
    }

    /// `Many(slugs)`: the live nodes with any of these slug hashes.
    pub fn many(&self, slug_hashes: &Vec<u64>) -> (r: roaring::RoaringBitmap)
        requires
            self.wf(),
        ensures
            forall|i: u32| #[trigger] bitmap_contents(r).contains(i) <==> exists|k: int|
                0 <= k < slug_hashes@.len() && self.slug_map().contains_key(slug_hashes@[k])
                    && self.slug_map()[slug_hashes@[k]] == i,
    {
        let mut r = bitmap_new();
        let mut n: usize = 0;
        while n < slug_hashes.len()
            invariant
                self.wf(),
                n <= slug_hashes@.len(),
                forall|i: u32| #[trigger] bitmap_contents(r).contains(i) <==> exists|k: int|
                    0 <= k < n && self.slug_map().contains_key(slug_hashes@[k]) && self.slug_map()[slug_hashes@[k]] == i,
            decreases slug_hashes.len() - n,
        {
            if let Some(i) = self.get(slug_hashes[n]) {
                bitmap_insert(&mut r, i);
            }
            proof {
                assert forall|j: u32| #[trigger] bitmap_contents(r).contains(j) <==> exists|k: int|
                    0 <= k < n + 1 && self.slug_map().contains_key(slug_hashes@[k]) && self.slug_map()[slug_hashes@[k]] == j by {
                    if exists|k: int| 0 <= k < n + 1 && self.slug_map().contains_key(slug_hashes@[k]) && self.slug_map()[slug_hashes@[k]] == j {
                        let k = choose|k: int| 0 <= k < n + 1 && self.slug_map().contains_key(slug_hashes@[k])
                            && self.slug_map()[slug_hashes@[k]] == j;
                        if k < n {
                            assert(exists|k2: int| 0 <= k2 < n && self.slug_map().contains_key(slug_hashes@[k2])
                                && self.slug_map()[slug_hashes@[k2]] == j);
                        }
                    }
                }
            }
            n = n + 1;
        }
        r
    }
}

} // verus!
