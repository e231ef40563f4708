//! The edge table with its forward and reverse adjacency lists, and the
//! breadth-first traversals over typed, live edges.
use vstd::prelude::*;

use crate::bitmap::{
    bitmap_clone, bitmap_contains, bitmap_contents, bitmap_insert, bitmap_new, bitmap_to_vec,
    lemma_to_set_push,
};

verus! {

/// A directed, typed edge between two node indices. The weight is kept as
/// the bit pattern of its `f32`.
#[derive(Clone, Copy, Debug, PartialEq, Eq, Structural)]
pub struct EdgeRecord {
    pub from_node: u32,
    pub to_node: u32,
    pub edge_type_hash: u64,
    pub weight_bits: u32,
    pub timestamp: u64,
    pub active: bool,
}

/// The endpoint an edge leaves from, walking forward or backward.
pub open spec fn source_of(e: EdgeRecord, forward: bool) -> u32 {
    if forward { e.from_node } else { e.to_node }
}

/// The endpoint an edge leads to, walking forward or backward.
pub open spec fn target_of(e: EdgeRecord, forward: bool) -> u32 {
    if forward { e.to_node } else { e.from_node }
}

/// The edge is live and of the given type.
pub open spec fn edge_matches(e: EdgeRecord, type_hash: u64) -> bool {
    e.active && e.edge_type_hash == type_hash
}

/// The nodes one hop from `a` over live edges of type `t`.
pub open spec fn successors(edges: Seq<EdgeRecord>, t: u64, forward: bool, a: Set<u32>) -> Set<u32> {
    Set::new(
        |v: u32|
            exists|j: int|
                0 <= j < edges.len() && edge_matches(#[trigger] edges[j], t) && a.contains(source_of(edges[j], forward))
                    && target_of(edges[j], forward) == v,
    )
}

/// The nodes within `h` hops of `a`, `a` included.
pub open spec fn reach(edges: Seq<EdgeRecord>, t: u64, forward: bool, a: Set<u32>, h: nat) -> Set<u32>
    decreases h,
{
    if h == 0 {
        a
    } else {
        let r = reach(edges, t, forward, a, (h - 1) as nat);
        r.union(successors(edges, t, forward, r))
    }
}

proof fn lemma_successors_union(edges: Seq<EdgeRecord>, t: u64, forward: bool, a: Set<u32>, b: Set<u32>)
    ensures
        successors(edges, t, forward, a.union(b)) == successors(edges, t, forward, a).union(
            successors(edges, t, forward, b),
        ),
{
    assert(successors(edges, t, forward, a.union(b)) =~= successors(edges, t, forward, a).union(
        successors(edges, t, forward, b),
    ));
}

/// The edge table and both adjacency lists, indexed by node.
pub struct Graph {
    edges: Vec<EdgeRecord>,
    adj_fwd: Vec<Vec<u32>>,
    adj_rev: Vec<Vec<u32>>,
}

impl Graph {
    pub closed spec fn spec_edges(&self) -> Seq<EdgeRecord> {
        self.edges@
    }

    /// The adjacency list of node `n`, forward or backward.
    pub closed spec fn adjacency(&self, n: int, forward: bool) -> Seq<u32> {
        let adj = if forward { self.adj_fwd@ } else { self.adj_rev@ };
        if 0 <= n < adj.len() { adj[n]@ } else { Seq::<u32>::empty() }
    }

    pub closed spec fn node_slots(&self) -> nat {
        self.adj_fwd@.len()
    }

    /// Every edge is listed under both of its endpoints, once, and every listed
    /// edge exists and has that endpoint.
    pub closed spec fn wf(&self) -> bool {
        &&& self.adj_fwd@.len() == self.adj_rev@.len()
        &&& self.edges@.len() < 0xffff_ffff
        &&& forall|j: int|
            0 <= j < self.edges@.len() ==> {
                &&& (#[trigger] self.edges@[j]).from_node < self.adj_fwd@.len()
                &&& self.edges@[j].to_node < self.adj_fwd@.len()
                &&& self.adj_fwd@[self.edges@[j].from_node as int]@.contains(j as u32)
                &&& self.adj_rev@[self.edges@[j].to_node as int]@.contains(j as u32)
            }
        &&& forall|n: int, k: int|
            0 <= n < self.adj_fwd@.len() && 0 <= k < self.adj_fwd@[n]@.len() ==> {
                &&& (#[trigger] self.adj_fwd@[n]@[k]) < self.edges@.len()
                &&& self.edges@[self.adj_fwd@[n]@[k] as int].from_node == n
            }
        &&& forall|n: int| 0 <= n < self.adj_fwd@.len() ==> (#[trigger] self.adj_fwd@[n])@.no_duplicates()
        &&& forall|n: int| 0 <= n < self.adj_rev@.len() ==> (#[trigger] self.adj_rev@[n])@.no_duplicates()
        &&& forall|n: int, k: int|
            0 <= n < self.adj_rev@.len() && 0 <= k < self.adj_rev@[n]@.len() ==> {
                &&& (#[trigger] self.adj_rev@[n]@[k]) < self.edges@.len()
                &&& self.edges@[self.adj_rev@[n]@[k] as int].to_node == n
            }
    }

    /// Every live edge at index `j` is listed forward under its source and
    /// backward under its target.
    pub proof fn lemma_adjacency_mirror(&self, j: int)
        requires
            self.wf(),
            0 <= j < self.spec_edges().len(),
            self.spec_edges()[j].active,
        ensures
            self.adjacency(self.spec_edges()[j].from_node as int, true).contains(j as u32),
            self.adjacency(self.spec_edges()[j].to_node as int, false).contains(j as u32),
    {
        assert(self.edges@[j].from_node < self.adj_fwd@.len());
    }

    pub fn new() -> (r: Self)
        ensures
            r.wf(),
            r.spec_edges().len() == 0,
    {
        Graph { edges: Vec::new(), adj_fwd: Vec::new(), adj_rev: Vec::new() }
    }

    /// Number of edges ever linked, live or not.
    pub fn edge_count(&self) -> (r: usize)
        ensures
            r == self.spec_edges().len(),
    {
        self.edges.len()
    }

    /// The edge at index `j`.
    pub fn edge(&self, j: usize) -> (r: EdgeRecord)
        requires
            j < self.spec_edges().len(),
        ensures
            r == self.spec_edges()[j as int],
    {
        self.edges[j]
    }

    /// Whether node `n` has any edge listed in the given direction, live or
    /// not.
    pub fn has_edges(&self, n: u32, forward: bool) -> (r: bool)
        requires
            self.wf(),
        ensures
            r == (self.adjacency(n as int, forward).len() > 0),
    {
        if forward {
            (n as usize) < self.adj_fwd.len() && self.adj_fwd[n as usize].len() > 0
        } else {
            (n as usize) < self.adj_rev.len() && self.adj_rev[n as usize].len() > 0
        }
    }

    /// Makes room in both adjacency tables for node `n`.
    fn grow_to(&mut self, n: u32)
        requires
            old(self).wf(),
        ensures
            final(self).wf(),
            final(self).spec_edges() == old(self).spec_edges(),
            final(self).node_slots() > n,
            final(self).node_slots() >= old(self).node_slots(),
            forall|m: int, f: bool| #[trigger] final(self).adjacency(m, f) == old(self).adjacency(m, f),
    {
        while self.adj_fwd.len() <= n as usize
            invariant
                self.wf(),
                self.edges@ == old(self).edges@,
                self.adj_fwd@.len() >= old(self).adj_fwd@.len(),
                forall|m: int, f: bool| #[trigger] self.adjacency(m, f) == old(self).adjacency(m, f),
            decreases n as int + 1 - self.adj_fwd@.len(),
        {
            let ghost before = *self;
            self.adj_fwd.push(Vec::new());
            self.adj_rev.push(Vec::new());
            proof {
                assert forall|m: int, f: bool| #[trigger] self.adjacency(m, f) == before.adjacency(m, f) by {
                    if f {
                        if 0 <= m < before.adj_fwd@.len() {
                            assert(self.adj_fwd@[m] == before.adj_fwd@[m]);
                        }
                    } else {
                        if 0 <= m < before.adj_rev@.len() {
                            assert(self.adj_rev@[m] == before.adj_rev@[m]);
                        }
                    }
                }
                assert forall|m: int| 0 <= m < self.adj_fwd@.len() implies (#[trigger] self.adj_fwd@[m])@.no_duplicates() by {
                    if m < before.adj_fwd@.len() {
                        assert(self.adj_fwd@[m] == before.adj_fwd@[m]);
                    }
                }
                assert forall|m: int| 0 <= m < self.adj_rev@.len() implies (#[trigger] self.adj_rev@[m])@.no_duplicates() by {
                    if m < before.adj_rev@.len() {
                        assert(self.adj_rev@[m] == before.adj_rev@[m]);
                    }
                }
                assert forall|j: int| 0 <= j < self.edges@.len() implies {
                    &&& (#[trigger] self.edges@[j]).from_node < self.adj_fwd@.len()
                    &&& self.edges@[j].to_node < self.adj_fwd@.len()
                    &&& self.adj_fwd@[self.edges@[j].from_node as int]@.contains(j as u32)
                    &&& self.adj_rev@[self.edges@[j].to_node as int]@.contains(j as u32)
                } by {
                    assert(self.adj_fwd@[self.edges@[j].from_node as int] == before.adj_fwd@[self.edges@[j].from_node as int]);
                    assert(self.adj_rev@[self.edges@[j].to_node as int] == before.adj_rev@[self.edges@[j].to_node as int]);
                }
                assert forall|m: int, k: int| 0 <= m < self.adj_fwd@.len() && 0 <= k < self.adj_fwd@[m]@.len() implies {
                    &&& (#[trigger] self.adj_fwd@[m]@[k]) < self.edges@.len()
                    &&& self.edges@[self.adj_fwd@[m]@[k] as int].from_node == m
                } by {
                    if m < before.adj_fwd@.len() {
                        assert(self.adj_fwd@[m] == before.adj_fwd@[m]);
                    }
                }
                assert forall|m: int, k: int| 0 <= m < self.adj_rev@.len() && 0 <= k < self.adj_rev@[m]@.len() implies {
                    &&& (#[trigger] self.adj_rev@[m]@[k]) < self.edges@.len()
                    &&& self.edges@[self.adj_rev@[m]@[k] as int].to_node == m
                } by {
                    if m < before.adj_rev@.len() {
                        assert(self.adj_rev@[m] == before.adj_rev@[m]);
                    }
                }
            }
        }
    }

    /// Adds a live edge and lists it under both endpoints; returns its index.
    pub fn link(&mut self, from_node: u32, to_node: u32, edge_type_hash: u64, weight_bits: u32, timestamp: u64) -> (r: u32)
        requires
            old(self).wf(),
            old(self).spec_edges().len() < 0xffff_fffe,
        ensures
            final(self).wf(),
            r == old(self).spec_edges().len(),
            final(self).spec_edges() == old(self).spec_edges().push(
                EdgeRecord { from_node, to_node, edge_type_hash, weight_bits, timestamp, active: true },
            ),
            final(self).adjacency(from_node as int, true) == old(self).adjacency(from_node as int, true).push(r),
            final(self).adjacency(to_node as int, false) == old(self).adjacency(to_node as int, false).push(r),
            forall|n: int, f: bool|
                !(f && n == from_node) && !(!f && n == to_node) ==> #[trigger] final(self).adjacency(n, f)
                    == old(self).adjacency(n, f),
    {
        self.push_edge(EdgeRecord { from_node, to_node, edge_type_hash, weight_bits, timestamp, active: true })
    }

    /// A graph holding these edges, listed as they come, as on reopen after a
    /// scan of the edge arena.
    pub fn from_edges(edges: &Vec<EdgeRecord>) -> (r: Self)
        requires
            edges@.len() < 0xffff_fffe,
        ensures
            r.wf(),
            r.spec_edges() == edges@,
    {
        let mut g = Graph::new();
        let mut i: usize = 0;
        while i < edges.len()
            invariant
                g.wf(),
                i <= edges@.len(),
                edges@.len() < 0xffff_fffe,
                g.spec_edges() == edges@.subrange(0, i as int),
            decreases edges.len() - i,
        {
            g.push_edge(edges[i]);
            i = i + 1;
            proof {
                assert(g.spec_edges() =~= edges@.subrange(0, i as int));
            }
        }
        proof {
            assert(edges@.subrange(0, edges@.len() as int) =~= edges@);
        }
        g
    }

    /// Appends an edge, live or not, and lists it under both endpoints.
    fn push_edge(&mut self, e: EdgeRecord) -> (r: u32)
        requires
            old(self).wf(),
            old(self).spec_edges().len() < 0xffff_fffe,
        ensures
            final(self).wf(),
            r == old(self).spec_edges().len(),
            final(self).spec_edges() == old(self).spec_edges().push(e),
            final(self).adjacency(e.from_node as int, true) == old(self).adjacency(e.from_node as int, true).push(r),
            final(self).adjacency(e.to_node as int, false) == old(self).adjacency(e.to_node as int, false).push(r),
            forall|n: int, f: bool|
                !(f && n == e.from_node) && !(!f && n == e.to_node) ==> #[trigger] final(self).adjacency(n, f)
                    == old(self).adjacency(n, f),
    {
        let from_node = e.from_node;
        let to_node = e.to_node;
        self.grow_to(if from_node > to_node { from_node } else { to_node });
        let j = self.edges.len() as u32;
        let ghost before = *self;
        self.edges.push(e);
        self.adj_fwd[from_node as usize].push(j);
        self.adj_rev[to_node as usize].push(j);
        proof {
            let f = from_node as int;
            let t = to_node as int;
            assert(self.adj_fwd@[f]@ == before.adj_fwd@[f]@.push(j));
            assert(self.adj_rev@[t]@ == before.adj_rev@[t]@.push(j));
            assert forall|n: int| 0 <= n < self.adj_fwd@.len() implies (#[trigger] self.adj_fwd@[n])@.no_duplicates() by {
                if n == f {
                    let l = before.adj_fwd@[f]@;
                    assert forall|a: int, b: int| 0 <= a < l.len() + 1 && 0 <= b < l.len() + 1 && a != b implies l.push(j)[a]
                        != l.push(j)[b] by {
                        if a < l.len() {
                            assert(l[a] < before.edges@.len());
                        }
                        if b < l.len() {
                            assert(l[b] < before.edges@.len());
                        }
                    }
                } else {
                    assert(self.adj_fwd@[n] == before.adj_fwd@[n]);
                }
            }
            assert forall|n: int| 0 <= n < self.adj_rev@.len() implies (#[trigger] self.adj_rev@[n])@.no_duplicates() by {
                if n == t {
                    let l = before.adj_rev@[t]@;
                    assert forall|a: int, b: int| 0 <= a < l.len() + 1 && 0 <= b < l.len() + 1 && a != b implies l.push(j)[a]
                        != l.push(j)[b] by {
                        if a < l.len() {
                            assert(l[a] < before.edges@.len());
                        }
                        if b < l.len() {
                            assert(l[b] < before.edges@.len());
                        }
                    }
                } else {
                    assert(self.adj_rev@[n] == before.adj_rev@[n]);
                }
            }
            assert(self.adjacency(f, true) == self.adj_fwd@[f]@);
            assert(before.adjacency(f, true) == before.adj_fwd@[f]@);
            assert(self.adjacency(t, false) == self.adj_rev@[t]@);
            assert(before.adjacency(t, false) == before.adj_rev@[t]@);
            assert forall|n: int, fw: bool|
                !(fw && n == f) && !(!fw && n == t) implies #[trigger] self.adjacency(n, fw) == before.adjacency(n, fw) by {
                if fw && 0 <= n < self.adj_fwd@.len() {
                    assert(self.adj_fwd@[n] == before.adj_fwd@[n]);
                } else if !fw && 0 <= n < self.adj_rev@.len() {
                    assert(self.adj_rev@[n] == before.adj_rev@[n]);
                }
            }
            assert forall|i: int| 0 <= i < self.edges@.len() implies {
                &&& (#[trigger] self.edges@[i]).from_node < self.adj_fwd@.len()
                &&& self.edges@[i].to_node < self.adj_fwd@.len()
                &&& self.adj_fwd@[self.edges@[i].from_node as int]@.contains(i as u32)
                &&& self.adj_rev@[self.edges@[i].to_node as int]@.contains(i as u32)
            } by {
                if i == j as int {
                    assert(self.adj_fwd@[f]@[before.adj_fwd@[f]@.len() as int] == j);
                    assert(self.adj_rev@[t]@[before.adj_rev@[t]@.len() as int] == j);
                } else {
                    let a = self.edges@[i].from_node as int;
                    let b = self.edges@[i].to_node as int;
                    assert(before.edges@[i] == self.edges@[i]);
                    let ka = before.adj_fwd@[a]@.index_of(i as u32);
                    assert(self.adj_fwd@[a]@[ka] == i as u32);
                    let kb = before.adj_rev@[b]@.index_of(i as u32);
                    assert(self.adj_rev@[b]@[kb] == i as u32);
                }
            }
            assert forall|m: int, k: int| 0 <= m < self.adj_fwd@.len() && 0 <= k < self.adj_fwd@[m]@.len() implies {
                &&& (#[trigger] self.adj_fwd@[m]@[k]) < self.edges@.len()
                &&& self.edges@[self.adj_fwd@[m]@[k] as int].from_node == m
            } by {
                if !(m == f && k == before.adj_fwd@[f]@.len()) {
                    assert(self.adj_fwd@[m]@[k] == before.adj_fwd@[m]@[k]);
                }
            }
            assert forall|m: int, k: int| 0 <= m < self.adj_rev@.len() && 0 <= k < self.adj_rev@[m]@.len() implies {
                &&& (#[trigger] self.adj_rev@[m]@[k]) < self.edges@.len()
                &&& self.edges@[self.adj_rev@[m]@[k] as int].to_node == m
            } by {
                if !(m == t && k == before.adj_rev@[t]@.len()) {
                    assert(self.adj_rev@[m]@[k] == before.adj_rev@[m]@[k]);
                }
            }
        }
        j
    }

    /// The position in `from_node`'s forward list of the first live edge to
    /// `to_node` of the given type.
    pub open spec fn first_match(&self, from_node: u32, to_node: u32, edge_type_hash: u64, k: int) -> bool {
        let l = self.adjacency(from_node as int, true);
        let m = |e: EdgeRecord| e.active && e.to_node == to_node && e.edge_type_hash == edge_type_hash;
        &&& 0 <= k < l.len()
        &&& m(self.spec_edges()[l[k] as int])
        &&& forall|i: int| 0 <= i < k ==> !m(#[trigger] self.spec_edges()[l[i] as int])
    }

    /// Deactivates the first live edge from `from_node` to `to_node` of the
    /// given type, in the order they were linked, and returns its index; with
    /// no such edge nothing changes.
    pub fn unlink(&mut self, from_node: u32, to_node: u32, edge_type_hash: u64) -> (r: Option<u32>)
        requires
            old(self).wf(),
        ensures
            final(self).wf(),
            forall|n: int, f: bool| #[trigger] final(self).adjacency(n, f) == old(self).adjacency(n, f),
            r is None ==> final(self).spec_edges() == old(self).spec_edges()
                && !exists|k: int| old(self).first_match(from_node, to_node, edge_type_hash, k),
            r matches Some(j) ==> exists|k: int| #[trigger] old(self).first_match(from_node, to_node, edge_type_hash, k)
                && old(self).adjacency(from_node as int, true)[k] == j
                && final(self).spec_edges() == old(self).spec_edges().update(
                    j as int,
                    EdgeRecord { active: false, ..old(self).spec_edges()[j as int] },
                ),
    {
        if from_node as usize >= self.adj_fwd.len() {
            proof {
                assert forall|k: int| !old(self).first_match(from_node, to_node, edge_type_hash, k) by {}
            }
            return None;
        }
        let n = from_node as usize;
        let mut k: usize = 0;
        while k < self.adj_fwd[n].len()
            invariant
                *self == *old(self),
                self.wf(),
                n < self.adj_fwd@.len(),
                n == from_node,
                k <= self.adj_fwd@[n as int]@.len(),
                forall|i: int| 0 <= i < k ==> {
                    let e = #[trigger] self.edges@[self.adj_fwd@[n as int]@[i] as int];
                    !(e.active && e.to_node == to_node && e.edge_type_hash == edge_type_hash)
                },
            decreases self.adj_fwd@[n as int]@.len() - k,
        {
            let j = self.adj_fwd[n][k];
            let e = self.edges[j as usize];
            if e.active && e.to_node == to_node && e.edge_type_hash == edge_type_hash {
                let off = EdgeRecord { active: false, ..e };
                self.edges.set(j as usize, off);
                proof {
                    assert(old(self).first_match(from_node, to_node, edge_type_hash, k as int));
                    assert forall|i: int| 0 <= i < self.edges@.len() implies {
                        &&& (#[trigger] self.edges@[i]).from_node < self.adj_fwd@.len()
                        &&& self.edges@[i].to_node < self.adj_fwd@.len()
                        &&& self.adj_fwd@[self.edges@[i].from_node as int]@.contains(i as u32)
                        &&& self.adj_rev@[self.edges@[i].to_node as int]@.contains(i as u32)
                    } by {
                        assert(old(self).edges@[i].from_node == self.edges@[i].from_node);
                        assert(old(self).edges@[i].to_node == self.edges@[i].to_node);
                    }
                    assert forall|m: int, q: int| 0 <= m < self.adj_fwd@.len() && 0 <= q < self.adj_fwd@[m]@.len() implies {
                        &&& (#[trigger] self.adj_fwd@[m]@[q]) < self.edges@.len()
                        &&& self.edges@[self.adj_fwd@[m]@[q] as int].from_node == m
                    } by {
                        assert(old(self).adj_fwd@[m]@[q] < old(self).edges@.len());
                    }
                    assert forall|m: int, q: int| 0 <= m < self.adj_rev@.len() && 0 <= q < self.adj_rev@[m]@.len() implies {
                        &&& (#[trigger] self.adj_rev@[m]@[q]) < self.edges@.len()
                        &&& self.edges@[self.adj_rev@[m]@[q] as int].to_node == m
                    } by {
                        assert(old(self).adj_rev@[m]@[q] < old(self).edges@.len());
                    }
                }
                return Some(j);
            }
            k = k + 1;
        }
        proof {
            assert forall|q: int| !old(self).first_match(from_node, to_node, edge_type_hash, q) by {}
        }
        None
    }

    /// The adjacency list of `n` in the given direction lists exactly the
    /// edges that leave `n` in that direction.
    proof fn lemma_list_complete(&self, n: u32, forward: bool)
        requires
            self.wf(),
        ensures
            forall|k: int|
                0 <= k < self.adjacency(n as int, forward).len() ==> {
                    &&& (#[trigger] self.adjacency(n as int, forward)[k]) < self.spec_edges().len()
                    &&& source_of(self.spec_edges()[self.adjacency(n as int, forward)[k] as int], forward) == n
                },
            forall|j: int|
                0 <= j < self.spec_edges().len() && source_of(#[trigger] self.spec_edges()[j], forward) == n
                    ==> self.adjacency(n as int, forward).contains(j as u32),
    {
        assert forall|j: int|
            0 <= j < self.spec_edges().len() && source_of(#[trigger] self.spec_edges()[j], forward) == n
                implies self.adjacency(n as int, forward).contains(j as u32) by {
            assert(self.edges@[j].from_node < self.adj_fwd@.len());
        }
    }

    /// Breadth-first expansion of `start` over live edges of type `type_hash`,
    /// forward or backward, up to `max_hops` hops; the start set is included.
    pub fn traverse(&self, start: &roaring::RoaringBitmap, type_hash: u64, max_hops: usize, forward: bool) -> (r:
        roaring::RoaringBitmap)
        requires
            self.wf(),
        ensures
            bitmap_contents(r) == reach(self.spec_edges(), type_hash, forward, bitmap_contents(*start), max_hops as nat),
    {
        let ghost es = self.spec_edges();
        let ghost s0 = bitmap_contents(*start);
        let mut visited = bitmap_clone(start);
        let mut frontier = bitmap_clone(start);
        let mut level: usize = 0;
        while level < max_hops
            invariant
                self.wf(),
                es == self.spec_edges(),
                level <= max_hops,
                bitmap_contents(visited) == reach(es, type_hash, forward, s0, level as nat),
                bitmap_contents(frontier).subset_of(bitmap_contents(visited)),
                successors(es, type_hash, forward, bitmap_contents(visited).difference(bitmap_contents(frontier))).subset_of(
                    bitmap_contents(visited),
                ),
            decreases max_hops - level,
        {
            let ghost v0 = bitmap_contents(visited);
            let ghost f0 = bitmap_contents(frontier);
            let fv = bitmap_to_vec(&frontier);
            let mut next = bitmap_new();
            let mut i: usize = 0;
            while i < fv.len()
                invariant
                    self.wf(),
                    es == self.spec_edges(),
                    fv@.to_set() == f0,
                    i <= fv@.len(),
                    bitmap_contents(visited) == v0.union(successors(es, type_hash, forward, fv@.subrange(0, i as int).to_set())),
                    bitmap_contents(next) == successors(es, type_hash, forward, fv@.subrange(0, i as int).to_set()).difference(v0),
                decreases fv.len() - i,
            {
                let idx = fv[i];
                let ghost pre = fv@.subrange(0, i as int).to_set();
                let ghost vis_before = bitmap_contents(visited);
                let ghost next_before = bitmap_contents(next);
                proof {
                    self.lemma_list_complete(idx, forward);
                }
                let no_edges: Vec<u32> = Vec::new();
                let in_range = if forward { (idx as usize) < self.adj_fwd.len() } else { (idx as usize) < self.adj_rev.len() };
                let list: &Vec<u32> = if !in_range {
                    &no_edges
                } else if forward {
                    &self.adj_fwd[idx as usize]
                } else {
                    &self.adj_rev[idx as usize]
                };
                let len = if in_range { list.len() } else { 0 };
                proof {
                    if in_range {
                        assert(list@ == self.adjacency(idx as int, forward));
                    }
                }
                let mut k: usize = 0;
                while k < len
                    invariant
                        self.wf(),
                        es == self.spec_edges(),
                        k <= len,
                        in_range ==> list@ == self.adjacency(idx as int, forward) && len == list@.len(),
                        !in_range ==> len == 0,
                        forall|q: int|
                            0 <= q < self.adjacency(idx as int, forward).len() ==> {
                                &&& (#[trigger] self.adjacency(idx as int, forward)[q]) < es.len()
                                &&& source_of(es[self.adjacency(idx as int, forward)[q] as int], forward) == idx
                            },
                        bitmap_contents(visited) == vis_before.union(
                            Set::new(|v: u32| exists|q: int| 0 <= q < k && edge_matches(#[trigger] es[list@[q] as int], type_hash)
                                && target_of(es[list@[q] as int], forward) == v),
                        ),
                        bitmap_contents(next) == next_before.union(
                            Set::new(|v: u32| exists|q: int| 0 <= q < k && edge_matches(#[trigger] es[list@[q] as int], type_hash)
                                && target_of(es[list@[q] as int], forward) == v),
                        ).difference(v0),
                        vis_before == v0.union(successors(es, type_hash, forward, pre)),
                        next_before == successors(es, type_hash, forward, pre).difference(v0),
                    decreases len - k,
                {
                    let j = list[k];
                    let e = self.edges[j as usize];
                    let tgt = if forward { e.to_node } else { e.from_node };
                    let ghost found_before = Set::new(|v: u32| exists|q: int| 0 <= q < k && edge_matches(#[trigger] es[list@[q] as int], type_hash)
                        && target_of(es[list@[q] as int], forward) == v);
                    let ghost found_after = Set::new(|v: u32| exists|q: int| 0 <= q < k + 1 && edge_matches(#[trigger] es[list@[q] as int], type_hash)
                        && target_of(es[list@[q] as int], forward) == v);
                    if e.active && e.edge_type_hash == type_hash && !bitmap_contains(&visited, tgt) {
                        bitmap_insert(&mut visited, tgt);
                        bitmap_insert(&mut next, tgt);
                        proof {
                            assert(found_after =~= found_before.insert(tgt)) by {
                                assert(edge_matches(es[list@[k as int] as int], type_hash));
                            }
                            assert(!v0.contains(tgt));
                        }
                    } else {
                        proof {
                            if e.active && e.edge_type_hash == type_hash {
                                assert(found_after =~= found_before.insert(tgt)) by {
                                    assert(edge_matches(es[list@[k as int] as int], type_hash));
                                }
                            } else {
                                assert(found_after =~= found_before);
                            }
                        }
                    }
                    proof {
                        assert(bitmap_contents(visited) =~= vis_before.union(found_after));
                        assert(bitmap_contents(next) =~= next_before.union(found_after).difference(v0));
                    }
                    k = k + 1;
                }
                proof {
                    let found = Set::new(|v: u32| exists|q: int| 0 <= q < len && edge_matches(#[trigger] es[list@[q] as int], type_hash)
                        && target_of(es[list@[q] as int], forward) == v);
                    let one = successors(es, type_hash, forward, set![idx]);
                    assert(found =~= one) by {
                        assert forall|v: u32| one.contains(v) implies found.contains(v) by {
                            let j = choose|j: int| 0 <= j < es.len() && edge_matches(#[trigger] es[j], type_hash)
                                && set![idx].contains(source_of(es[j], forward)) && target_of(es[j], forward) == v;
                            assert(source_of(es[j], forward) == idx);
                            assert(self.adjacency(idx as int, forward).contains(j as u32));
                            let q = self.adjacency(idx as int, forward).index_of(j as u32);
                            if !in_range {
                                if forward {
                                    assert(es[j].from_node < self.adj_fwd@.len());
                                } else {
                                    assert(es[j].to_node < self.adj_fwd@.len());
                                }
                            }
                            assert(list@[q] == j as u32);
                        }
                        assert forall|v: u32| found.contains(v) implies one.contains(v) by {
                            let q = choose|q: int| 0 <= q < len && edge_matches(#[trigger] es[list@[q] as int], type_hash)
                                && target_of(es[list@[q] as int], forward) == v;
                            let j = list@[q] as int;
                            assert(self.adjacency(idx as int, forward)[q] < es.len());
                            assert(source_of(es[j], forward) == idx);
                            assert(set![idx].contains(source_of(es[j], forward)));
                        }
                    }
                    assert(fv@.subrange(0, i + 1) =~= fv@.subrange(0, i as int).push(idx));
                    lemma_to_set_push(fv@.subrange(0, i as int), idx);
                    assert(pre.insert(idx) =~= pre.union(set![idx]));
                    lemma_successors_union(es, type_hash, forward, pre, set![idx]);
                    assert(bitmap_contents(visited) =~= v0.union(successors(es, type_hash, forward, fv@.subrange(0, i + 1).to_set())));
                    assert(bitmap_contents(next) =~= successors(es, type_hash, forward, fv@.subrange(0, i + 1).to_set()).difference(v0));
                }
                i = i + 1;
            }
            proof {
                assert(fv@.subrange(0, fv@.len() as int) =~= fv@);
                let sf = successors(es, type_hash, forward, f0);
                let rest = v0.difference(f0);
                assert(v0 =~= rest.union(f0));
                lemma_successors_union(es, type_hash, forward, rest, f0);
                assert(reach(es, type_hash, forward, s0, (level + 1) as nat) =~= v0.union(sf));
                let v1 = v0.union(sf);
                let n1 = sf.difference(v0);
                assert(v1.difference(n1) =~= v0);
                assert(v0 =~= rest.union(f0));
            }
            frontier = next;
            level = level + 1;
        }
        visited
    }

    /// `Forward(type)` with `hops`: the start set and every node within
    /// `hops` hops over outgoing live edges of that type.
    pub fn bfs_forward(&self, start: &roaring::RoaringBitmap, type_hash: u64, max_hops: usize) -> (r: roaring::RoaringBitmap)
        requires
            self.wf(),
        ensures
            bitmap_contents(r) == reach(self.spec_edges(), type_hash, true, bitmap_contents(*start), max_hops as nat),
    {
        self.traverse(start, type_hash, max_hops, true)
    }

    /// `Backward(type)` with `hops`: the same over incoming edges.
    pub fn bfs_backward(&self, start: &roaring::RoaringBitmap, type_hash: u64, max_hops: usize) -> (r: roaring::RoaringBitmap)
        requires
            self.wf(),
        ensures
            bitmap_contents(r) == reach(self.spec_edges(), type_hash, false, bitmap_contents(*start), max_hops as nat),
    {
        self.traverse(start, type_hash, max_hops, false)
    }
}

} // verus!
