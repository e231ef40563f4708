//! The pipeline executor: steps evaluated left to right over a candidate
//! bitmap of node indices. Starters replace the candidates; graph, search and
//! filter steps narrow them; set algebra runs a sub-pipeline in a fresh
//! context; `Take` keeps the first candidates in index order. Ordering,
//! skipping and projection act on resolved hits afterwards, outside the
//! bitmap.
use vstd::prelude::*;

use crate::bitmap::{
    bitmap_contents, bitmap_insert, bitmap_len, bitmap_new, bitmap_to_vec, intersect_with, lemma_to_set_push, narrow,
    narrow_spec, subtract_from, take_first, take_spec, union_with, candidates_of,
};
use crate::graph::{reach, Graph};
use crate::store::NodeTable;

verus! {

/// One step of a lowered pipeline. Search and payload-filter steps (`Near`,
/// `Similar`, `Matching`, `Where*`) arrive as `Matched`: the set of nodes the
/// step accepts and the index that computed it.
pub enum PlanStep {
    One(u64),
    Many(Vec<u64>),
    Collection(u64),
    All,
    Forward(u64),
    Backward(u64),
    ForwardParallel(u64),
    BackwardParallel(u64),
    Hops(u32),
    Leaves,
    Roots,
    Matched(roaring::RoaringBitmap, IndexUsed),
    Intersect(Vec<PlanStep>),
    Union(Vec<PlanStep>),
    Subtract(Vec<PlanStep>),
    Take(usize),
}

/// Which index a step consulted.
#[derive(Clone, Copy, Debug, PartialEq, Eq, Structural)]
pub enum IndexUsed {
    SlugIndex,
    CollectionBitmap,
    Scan,
    AdjFwd,
    AdjRev,
    /// Equality lookup in a field's hash index.
    HashIndex,
    /// Range lookup in a field's range index.
    RangeIndex,
    /// A scan of payloads.
    Payload,
    /// Brute-force distance filter over the candidates.
    Filter,
    /// The spatial R-tree.
    Rtree,
    /// The proximity graph.
    Hnsw,
    /// The full-text adapter.
    Fulltext,
    Intersect,
    Union,
    Subtract,
    Limit,
}

/// What one step did to the candidate set.
#[derive(Clone, Copy, Debug, PartialEq, Eq, Structural)]
pub struct StepReport {
    pub input_size: u64,
    pub output_size: u64,
    pub index_used: IndexUsed,
}

/// The reports of a pipeline's steps, in order, and the total time in
/// microseconds (measured by the caller).
#[derive(Clone, Debug)]
pub struct Trace {
    pub steps: Vec<StepReport>,
    pub total_us: u64,
}

/// A result together with the trace of the pipeline that produced it.
#[derive(Clone, Debug)]
pub struct Outcome<T> {
    pub data: T,
    pub trace: Trace,
}

/// Errors of pipeline execution.
#[derive(Clone, Copy, Debug, PartialEq, Eq, Structural)]
pub enum PipelineError {
    /// Sub-pipelines are nested deeper than allowed.
    TooDeep,
}

/// The candidates and the pending hop count between steps.
pub struct PipeState {
    pub candidates: Option<Set<u32>>,
    pub hops: Option<u32>,
}

/// The candidate set a finished pipeline yields (empty when nothing started it).
pub open spec fn final_set(st: PipeState) -> Set<u32> {
    match st.candidates {
        Some(c) => c,
        None => Set::<u32>::empty(),
    }
}

/// The nodes of `c` with no edge listed in the given direction.
pub open spec fn without_edges(g: &Graph, c: Set<u32>, forward: bool) -> Set<u32> {
    c.filter(|i: u32| g.adjacency(i as int, forward).len() == 0)
}

/// The live nodes with one of the given slug hashes.
pub open spec fn many_spec(t: &NodeTable, hs: Seq<u64>) -> Set<u32> {
    Set::new(|i: u32| exists|k: int| 0 <= k < hs.len() && t.slug_map().contains_key(hs[k]) && t.slug_map()[hs[k]] == i)
}

/// The live node with this slug hash, if any.
pub open spec fn one_spec(t: &NodeTable, h: u64) -> Set<u32> {
    if t.slug_map().contains_key(h) {
        set![t.slug_map()[h]]
    } else {
        Set::<u32>::empty()
    }
}

/// The live nodes.
pub open spec fn all_spec(t: &NodeTable) -> Set<u32> {
    Set::new(|i: u32| t.live(i as int))
}

/// The pending hop count, 1 when none was given.
pub open spec fn hops_of(h: Option<u32>) -> nat {
    match h {
        Some(n) => n as nat,
        None => 1,
    }
}

/// The live nodes of `s`.
pub open spec fn live_only(tb: &NodeTable, s: Set<u32>) -> Set<u32> {
    s.filter(|i: u32| tb.live(i as int))
}

/// A traversal from the current candidates (none: from nothing); nodes
/// reached that were deleted are left out.
pub open spec fn traverse_spec(tb: &NodeTable, g: &Graph, st: PipeState, t: u64, forward: bool) -> PipeState {
    PipeState {
        candidates: Some(live_only(tb, reach(g.spec_edges(), t, forward, final_set(st), hops_of(st.hops)))),
        hops: None,
    }
}

/// The state after the first `n` steps of `steps`, with `depth` levels of
/// sub-pipelines allowed; `None` when they nest deeper.
pub open spec fn run_spec(t: &NodeTable, g: &Graph, steps: Seq<PlanStep>, n: nat, depth: nat) -> Option<PipeState>
    decreases depth, n,
{
    if n == 0 {
        Some(PipeState { candidates: None, hops: None })
    } else if n > steps.len() {
        None
    } else {
        match run_spec(t, g, steps, (n - 1) as nat, depth) {
            None => None,
            Some(st) => {
                let keep = st.hops;
                match steps[n - 1] {
                    PlanStep::One(h) => Some(PipeState { candidates: Some(one_spec(t, h)), hops: keep }),
                    PlanStep::Many(hs) => Some(PipeState { candidates: Some(many_spec(t, hs@)), hops: keep }),
                    PlanStep::Collection(h) => Some(
                        PipeState { candidates: Some(narrow_spec(st.candidates, t.collection(h))), hops: keep },
                    ),
                    PlanStep::All => Some(PipeState { candidates: Some(all_spec(t)), hops: keep }),
                    PlanStep::Forward(ty) => Some(traverse_spec(t, g, st, ty, true)),
                    PlanStep::ForwardParallel(ty) => Some(traverse_spec(t, g, st, ty, true)),
                    PlanStep::Backward(ty) => Some(traverse_spec(t, g, st, ty, false)),
                    PlanStep::BackwardParallel(ty) => Some(traverse_spec(t, g, st, ty, false)),
                    PlanStep::Hops(k) => Some(PipeState { candidates: st.candidates, hops: Some(k) }),
                    PlanStep::Leaves => Some(
                        PipeState {
                            candidates: match st.candidates {
                                Some(c) => Some(without_edges(g, c, true)),
                                None => None,
                            },
                            hops: keep,
                        },
                    ),
                    PlanStep::Roots => Some(
                        PipeState {
                            candidates: match st.candidates {
                                Some(c) => Some(without_edges(g, c, false)),
                                None => None,
                            },
                            hops: keep,
                        },
                    ),
                    PlanStep::Matched(b, _) => Some(
                        PipeState { candidates: Some(narrow_spec(st.candidates, bitmap_contents(b))), hops: keep },
                    ),
                    PlanStep::Intersect(sub) => if depth == 0 {
                        None
                    } else {
                        match run_spec(t, g, sub@, sub@.len(), (depth - 1) as nat) {
                            None => None,
                            Some(o) => Some(
                                PipeState { candidates: Some(narrow_spec(st.candidates, final_set(o))), hops: keep },
                            ),
                        }
                    },
                    PlanStep::Union(sub) => if depth == 0 {
                        None
                    } else {
                        match run_spec(t, g, sub@, sub@.len(), (depth - 1) as nat) {
                            None => None,
                            Some(o) => Some(
                                PipeState {
                                    candidates: Some(
                                        match st.candidates {
                                            Some(c) => c.union(final_set(o)),
                                            None => final_set(o),
                                        },
                                    ),
                                    hops: keep,
                                },
                            ),
                        }
                    },
                    PlanStep::Subtract(sub) => if depth == 0 {
                        None
                    } else {
                        match run_spec(t, g, sub@, sub@.len(), (depth - 1) as nat) {
                            None => None,
                            Some(o) => Some(
                                PipeState {
                                    candidates: match st.candidates {
                                        Some(c) => Some(c.difference(final_set(o))),
                                        None => None,
                                    },
                                    hops: keep,
                                },
                            ),
                        }
                    },
                    PlanStep::Take(k) => Some(
                        PipeState {
                            candidates: match st.candidates {
                                Some(c) => Some(take_spec(c, k as nat)),
                                None => None,
                            },
                            hops: keep,
                        },
                    ),
                }
            },
        }
    }
}

/// Once a prefix of the steps nests too deep, every longer prefix does.
proof fn lemma_too_deep_stays(t: &NodeTable, g: &Graph, steps: Seq<PlanStep>, n: nat, m: nat, depth: nat)
    requires
        n <= m <= steps.len(),
        run_spec(t, g, steps, n, depth) is None,
    ensures
        run_spec(t, g, steps, m, depth) is None,
    decreases m - n,
{
    if n < m {
        lemma_too_deep_stays(t, g, steps, n, (m - 1) as nat, depth);
    }
}

/// Extending a pipeline does not change what its first steps compute.
proof fn lemma_prefix_stable(t: &NodeTable, g: &Graph, p: Seq<PlanStep>, f: PlanStep, n: nat, depth: nat)
    requires
        n <= p.len(),
    ensures
        run_spec(t, g, p.push(f), n, depth) == run_spec(t, g, p, n, depth),
    decreases n,
{
    if n > 0 {
        lemma_prefix_stable(t, g, p, f, (n - 1) as nat, depth);
        assert(p.push(f)[n - 1] == p[n - 1]);
    }
}

/// A step that only narrows the candidates: a search or payload filter, a
/// collection, or the leaves or roots of the candidates.
pub open spec fn is_filter(s: PlanStep) -> bool {
    s is Matched || s is Collection || s is Leaves || s is Roots
}

/// Appending a filter to a pipeline that has produced candidates yields a
/// subset of what the pipeline yields.
pub proof fn lemma_filter_narrows(t: &NodeTable, g: &Graph, p: Seq<PlanStep>, f: PlanStep, depth: nat)
    requires
        is_filter(f),
        run_spec(t, g, p, p.len(), depth) matches Some(st) && st.candidates is Some,
    ensures
        run_spec(t, g, p.push(f), p.len() + 1, depth) matches Some(st2) && final_set(st2).subset_of(
            final_set(run_spec(t, g, p, p.len(), depth)->Some_0),
        ),
{
    lemma_prefix_stable(t, g, p, f, p.len(), depth);
    assert(p.push(f)[p.len() as int] == f);
}

/// How many of the first `n` steps report in the trace: all but `Hops`.
pub open spec fn reported(steps: Seq<PlanStep>, n: nat) -> nat
    decreases n,
{
    if n == 0 || n > steps.len() {
        0
    } else {
        reported(steps, (n - 1) as nat) + if steps[n - 1] is Hops { 0nat } else { 1nat }
    }
}

/// The live nodes of `b`.
pub fn keep_live(tb: &NodeTable, b: &roaring::RoaringBitmap) -> (r: roaring::RoaringBitmap)
    ensures
        bitmap_contents(r) == live_only(tb, bitmap_contents(*b)),
{
    let v = bitmap_to_vec(b);
    let mut r = bitmap_new();
    let mut i: usize = 0;
    while i < v.len()
        invariant
            i <= v@.len(),
            bitmap_contents(r) == live_only(tb, v@.subrange(0, i as int).to_set()),
        decreases v.len() - i,
    {
        let x = v[i];
        let ghost pre = v@.subrange(0, i as int).to_set();
        if (x as usize) < tb.len() && tb.node(x).active {
            bitmap_insert(&mut r, x);
        }
        proof {
            assert(v@.subrange(0, i + 1) =~= v@.subrange(0, i as int).push(x));
            lemma_to_set_push(v@.subrange(0, i as int), x);
            assert(bitmap_contents(r) =~= live_only(tb, pre.insert(x)));
        }
        i = i + 1;
    }
    proof {
        assert(v@.subrange(0, v@.len() as int) =~= v@);
    }
    r
}

/// The nodes of `b` with no edge listed in the given direction.
pub fn drop_with_edges(g: &Graph, b: &roaring::RoaringBitmap, forward: bool) -> (r: roaring::RoaringBitmap)
    requires
        g.wf(),
    ensures
        bitmap_contents(r) == without_edges(g, bitmap_contents(*b), forward),
{
    let v = bitmap_to_vec(b);
    let mut r = bitmap_new();
    let mut i: usize = 0;
    while i < v.len()
        invariant
            g.wf(),
            i <= v@.len(),
            bitmap_contents(r) == without_edges(g, v@.subrange(0, i as int).to_set(), forward),
        decreases v.len() - i,
    {
        let x = v[i];
        let ghost pre = v@.subrange(0, i as int).to_set();
        if !g.has_edges(x, forward) {
            bitmap_insert(&mut r, x);
        }
        proof {
            assert(v@.subrange(0, i + 1) =~= v@.subrange(0, i as int).push(x));
            lemma_to_set_push(v@.subrange(0, i as int), x);
            assert(bitmap_contents(r) =~= without_edges(g, pre.insert(x), forward));
        }
        i = i + 1;
    }
    proof {
        assert(v@.subrange(0, v@.len() as int) =~= v@);
    }
    r
}

/// The candidates as a bitmap, or an empty one.
fn current_or_empty(c: &Option<roaring::RoaringBitmap>) -> (r: roaring::RoaringBitmap)
    ensures
        bitmap_contents(r) == match candidates_of(*c) {
            Some(s) => s,
            None => Set::<u32>::empty(),
        },
{
    match c {
        Some(b) => crate::bitmap::bitmap_clone(b),
        None => bitmap_new(),
    }
}

fn size_of(c: &Option<roaring::RoaringBitmap>) -> (r: u64) {
    match c {
        Some(b) => bitmap_len(b),
        None => 0,
    }
}

/// Runs `steps` over the node table and the graph, allowing `depth` levels of
/// nested sub-pipelines. Returns the final candidates (empty when no step
/// produced any) and one report per step other than `Hops`.
pub fn execute_pipeline(t: &NodeTable, g: &Graph, steps: &Vec<PlanStep>, depth: usize) -> (r: Result<
    Outcome<roaring::RoaringBitmap>,
    PipelineError,
>)
    requires
        t.wf(),
        g.wf(),
    ensures
        match run_spec(t, g, steps@, steps@.len(), depth as nat) {
            None => r == Err::<Outcome<roaring::RoaringBitmap>, PipelineError>(PipelineError::TooDeep),
            Some(st) => r matches Ok(out) && bitmap_contents(out.data) == final_set(st) && out.trace.steps@.len()
                == reported(steps@, steps@.len()),
        },
    decreases depth,
{
    let mut cand: Option<roaring::RoaringBitmap> = None;
    let mut pending: Option<u32> = None;
    let mut trace: Vec<StepReport> = Vec::new();
    let mut i: usize = 0;
    while i < steps.len()
        invariant
            t.wf(),
            g.wf(),
            i <= steps@.len(),
            run_spec(t, g, steps@, i as nat, depth as nat) matches Some(st) && candidates_of(cand) == st.candidates
                && pending == st.hops,
            trace@.len() == reported(steps@, i as nat),
        decreases steps.len() - i,
    {
        let ghost st = run_spec(t, g, steps@, i as nat, depth as nat)->Some_0;
        let input_size = size_of(&cand);
        let used: IndexUsed;
        match &steps[i] {
            PlanStep::One(h) => {
                cand = Some(t.one(*h));
                used = IndexUsed::SlugIndex;
            },
            PlanStep::Many(hs) => {
                let b = t.many(hs);
                proof {
                    assert(bitmap_contents(b) =~= many_spec(t, hs@));
                }
                cand = Some(b);
                used = IndexUsed::SlugIndex;
            },
            PlanStep::Collection(h) => {
                let c = cand.take();
                cand = Some(narrow(c, t.collection_snapshot(*h)));
                used = IndexUsed::CollectionBitmap;
            },
            PlanStep::All => {
                let b = t.all();
                proof {
                    assert(bitmap_contents(b) =~= all_spec(t));
                }
                cand = Some(b);
                used = IndexUsed::Scan;
            },
            PlanStep::Forward(ty) | PlanStep::ForwardParallel(ty) => {
                let hops: usize = match pending {
                    Some(n) => n as usize,
                    None => 1,
                };
                let start = current_or_empty(&cand);
                let reached = g.bfs_forward(&start, *ty, hops);
                cand = Some(keep_live(t, &reached));
                pending = None;
                used = IndexUsed::AdjFwd;
            },
            PlanStep::Backward(ty) | PlanStep::BackwardParallel(ty) => {
                let hops: usize = match pending {
                    Some(n) => n as usize,
                    None => 1,
                };
                let start = current_or_empty(&cand);
                let reached = g.bfs_backward(&start, *ty, hops);
                cand = Some(keep_live(t, &reached));
                pending = None;
                used = IndexUsed::AdjRev;
            },
            PlanStep::Hops(n) => {
                pending = Some(*n);
                i = i + 1;
                continue;
            },
            PlanStep::Leaves => {
                let c = cand.take();
                cand = match c {
                    Some(b) => Some(drop_with_edges(g, &b, true)),
                    None => None,
                };
                used = IndexUsed::AdjFwd;
            },
            PlanStep::Roots => {
                let c = cand.take();
                cand = match c {
                    Some(b) => Some(drop_with_edges(g, &b, false)),
                    None => None,
                };
                used = IndexUsed::AdjRev;
            },
            PlanStep::Matched(b, ix) => {
                let c = cand.take();
                cand = Some(narrow(c, crate::bitmap::bitmap_clone(b)));
                used = *ix;
            },
            PlanStep::Intersect(sub) => {
                if depth == 0 {
                    proof {
                        lemma_too_deep_stays(t, g, steps@, (i + 1) as nat, steps@.len(), depth as nat);
                    }
                    return Err(PipelineError::TooDeep);
                }
                let other = match execute_pipeline(t, g, sub, depth - 1) {
                    Ok(o) => o.data,
                    Err(e) => {
                        proof {
                            lemma_too_deep_stays(t, g, steps@, (i + 1) as nat, steps@.len(), depth as nat);
                        }
                        return Err(e);
                    },
                };
                let c = cand.take();
                cand = Some(intersect_with(c, other));
                used = IndexUsed::Intersect;
            },
            PlanStep::Union(sub) => {
                if depth == 0 {
                    proof {
                        lemma_too_deep_stays(t, g, steps@, (i + 1) as nat, steps@.len(), depth as nat);
                    }
                    return Err(PipelineError::TooDeep);
                }
                let other = match execute_pipeline(t, g, sub, depth - 1) {
                    Ok(o) => o.data,
                    Err(e) => {
                        proof {
                            lemma_too_deep_stays(t, g, steps@, (i + 1) as nat, steps@.len(), depth as nat);
                        }
                        return Err(e);
                    },
                };
                let c = cand.take();
                cand = Some(union_with(c, other));
                used = IndexUsed::Union;
            },
            PlanStep::Subtract(sub) => {
                if depth == 0 {
                    proof {
                        lemma_too_deep_stays(t, g, steps@, (i + 1) as nat, steps@.len(), depth as nat);
                    }
                    return Err(PipelineError::TooDeep);
                }
                let other = match execute_pipeline(t, g, sub, depth - 1) {
                    Ok(o) => o.data,
                    Err(e) => {
                        proof {
                            lemma_too_deep_stays(t, g, steps@, (i + 1) as nat, steps@.len(), depth as nat);
                        }
                        return Err(e);
                    },
                };
                let c = cand.take();
                cand = subtract_from(c, other);
                used = IndexUsed::Subtract;
            },
            PlanStep::Take(n) => {
                let c = cand.take();
                cand = match c {
                    Some(b) => Some(take_first(&b, *n)),
                    None => None,
                };
                used = IndexUsed::Limit;
            },
        }
        let output_size = size_of(&cand);
        trace.push(StepReport { input_size, output_size, index_used: used });
        i = i + 1;
    }
    Ok(Outcome { data: current_or_empty(&cand), trace: Trace { steps: trace, total_us: 0 } })
}

} // verus!
