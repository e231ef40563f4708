//! Edge operations addressed by slug hash: both ends are resolved through the
//! slug index first, and the edges of a result are read back.
use vstd::prelude::*;

use crate::bitmap::{bitmap_contains, bitmap_contents};
use crate::graph::{EdgeRecord, Graph};
use crate::store::NodeTable;

verus! {

/// Why an edge operation by slug did nothing.
#[derive(Clone, Copy, Debug, PartialEq, Eq, Structural)]
pub enum LinkError {
    SourceNotFound,
    TargetNotFound,
    /// Edge indices are exhausted.
    EdgesFull,
}

/// Links the live nodes with these slug hashes by a live edge; returns the
/// edge's index.
pub fn link_slugs(
    t: &NodeTable,
    g: &mut Graph,
    src: u64,
    dst: u64,
    edge_type_hash: u64,
    weight_bits: u32,
    timestamp: u64,
) -> (r: Result<u32, LinkError>)
    requires
        t.wf(),
        old(g).wf(),
    ensures
        final(g).wf(),
        !t.slug_map().contains_key(src) ==> r == Err::<u32, LinkError>(LinkError::SourceNotFound) && *final(g) == *old(g),
        t.slug_map().contains_key(src) && !t.slug_map().contains_key(dst) ==> r == Err::<u32, LinkError>(
            LinkError::TargetNotFound,
        ) && *final(g) == *old(g),
        t.slug_map().contains_key(src) && t.slug_map().contains_key(dst) && old(g).spec_edges().len() + 2
            >= 0xffff_ffff ==> r == Err::<u32, LinkError>(LinkError::EdgesFull) && *final(g) == *old(g),
        t.slug_map().contains_key(src) && t.slug_map().contains_key(dst) && old(g).spec_edges().len() + 2
            < 0xffff_ffff ==> r == Ok::<u32, LinkError>(old(g).spec_edges().len() as u32) && final(g).spec_edges()
            == old(g).spec_edges().push(
            EdgeRecord {
                from_node: t.slug_map()[src],
                to_node: t.slug_map()[dst],
                edge_type_hash,
                weight_bits,
                timestamp,
                active: true,
            },
        ),
{
    let from = match t.get(src) {
        Some(i) => i,
        None => {
            return Err(LinkError::SourceNotFound);
        },
    };
    let to = match t.get(dst) {
        Some(i) => i,
        None => {
            return Err(LinkError::TargetNotFound);
        },
    };
    if g.edge_count() >= 0xffff_fffd {
        return Err(LinkError::EdgesFull);
    }
    Ok(g.link(from, to, edge_type_hash, weight_bits, timestamp))
}

/// Deactivates the first live edge of this type between the live nodes with
/// these slug hashes, if any; returns its index.
pub fn unlink_slugs(t: &NodeTable, g: &mut Graph, src: u64, dst: u64, edge_type_hash: u64) -> (r: Result<
    Option<u32>,
    LinkError,
>)
    requires
        t.wf(),
        old(g).wf(),
    ensures
        final(g).wf(),
        !t.slug_map().contains_key(src) ==> r == Err::<Option<u32>, LinkError>(LinkError::SourceNotFound)
            && *final(g) == *old(g),
        t.slug_map().contains_key(src) && !t.slug_map().contains_key(dst) ==> r == Err::<Option<u32>, LinkError>(
            LinkError::TargetNotFound,
        ) && *final(g) == *old(g),
        t.slug_map().contains_key(src) && t.slug_map().contains_key(dst) ==> (r matches Ok(o) && (o is None
            ==> final(g).spec_edges() == old(g).spec_edges() && !exists|k: int|
            old(g).first_match(t.slug_map()[src], t.slug_map()[dst], edge_type_hash, k)) && (o matches Some(j)
            ==> exists|k: int|
            #[trigger] old(g).first_match(t.slug_map()[src], t.slug_map()[dst], edge_type_hash, k) && old(
                g,
            ).adjacency(t.slug_map()[src] as int, true)[k] == j && final(g).spec_edges() == old(g).spec_edges().update(
                j as int,
                EdgeRecord { active: false, ..old(g).spec_edges()[j as int] },
            ))),
{
    let from = match t.get(src) {
        Some(i) => i,
        None => {
            return Err(LinkError::SourceNotFound);
        },
    };
    let to = match t.get(dst) {
        Some(i) => i,
        None => {
            return Err(LinkError::TargetNotFound);
        },
    };
    Ok(g.unlink(from, to, edge_type_hash))
}

/// Edge `j` is live and leaves a live node of `s`.
pub open spec fn live_out_edge(t: &NodeTable, g: &Graph, s: Set<u32>, j: int) -> bool {
    0 <= j < g.spec_edges().len() && g.spec_edges()[j].active && s.contains(g.spec_edges()[j].from_node) && t.live(
        g.spec_edges()[j].from_node as int,
    )
}

/// The live edges leaving live nodes of `b`, by increasing index.
pub fn live_out_edges(t: &NodeTable, g: &Graph, b: &roaring::RoaringBitmap) -> (r: Vec<usize>)
    ensures
        forall|x: int, y: int| 0 <= x < y < r@.len() ==> r@[x] < r@[y],
        forall|j: int| 0 <= j < g.spec_edges().len() ==> (r@.contains(j as usize) <==> live_out_edge(
            t,
            g,
            bitmap_contents(*b),
            j,
        )),
        forall|x: int| 0 <= x < r@.len() ==> r@[x] < g.spec_edges().len(),
{
    let mut out: Vec<usize> = Vec::new();
    let n = g.edge_count();
    let mut j: usize = 0;
    while j < n
        invariant
            n == g.spec_edges().len(),
            j <= n,
            forall|x: int, y: int| 0 <= x < y < out@.len() ==> out@[x] < out@[y],
            forall|x: int| 0 <= x < out@.len() ==> out@[x] < j,
            forall|k: int| 0 <= k < j ==> (out@.contains(k as usize) <==> live_out_edge(t, g, bitmap_contents(*b), k)),
        decreases n - j,
    {
        let e = g.edge(j);
        let ghost before = out@;
        if e.active && bitmap_contains(b, e.from_node) && (e.from_node as usize) < t.len() && t.node(e.from_node).active {
            out.push(j);
        }
        proof {
            assert forall|k: int| 0 <= k < j + 1 implies (out@.contains(k as usize) <==> live_out_edge(
                t,
                g,
                bitmap_contents(*b),
                k,
            )) by {
                if out@.contains(k as usize) {
                    let x = out@.index_of(k as usize);
                    if x < before.len() {
                        assert(before.contains(k as usize));
                    }
                }
                if k < j && before.contains(k as usize) {
                    let x = before.index_of(k as usize);
                    assert(out@[x] == k as usize);
                }
                if k == j && live_out_edge(t, g, bitmap_contents(*b), k) {
                    assert(out@[before.len() as int] == j);
                }
            }
        }
        j = j + 1;
    }
    out
}

} // verus!
