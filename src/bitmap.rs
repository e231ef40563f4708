//! Candidate sets of node indices, held in roaring bitmaps, and the set
//! algebra that the pipeline applies to them.
use vstd::prelude::*;

verus! {

#[verifier::external_type_specification]
#[verifier::external_body]
pub struct ExRoaringBitmap(roaring::RoaringBitmap);

/// The node indices that a bitmap holds.
pub uninterp spec fn bitmap_contents(b: roaring::RoaringBitmap) -> Set<u32>;

/// The elements of a finite set of indices in ascending order.
pub open spec fn ascending_of(s: Set<u32>) -> Seq<u32> {
    choose|q: Seq<u32>| is_ascending(q) && q.to_set() == s
}

/// Strictly increasing.
pub open spec fn is_ascending(q: Seq<u32>) -> bool {
    forall|i: int, j: int| 0 <= i < j < q.len() ==> q[i] < q[j]
}

/// Relies on `RoaringBitmap::new`: an empty bitmap.
#[verifier::external_body]
pub(crate) fn bitmap_new() -> (r: roaring::RoaringBitmap)
    ensures
        bitmap_contents(r) == Set::<u32>::empty(),
{
    roaring::RoaringBitmap::new()
}

/// Relies on `RoaringBitmap::insert`: adds the value and reports whether it
/// was absent.
#[verifier::external_body]
pub(crate) fn bitmap_insert(b: &mut roaring::RoaringBitmap, v: u32) -> (r: bool)
    ensures
        bitmap_contents(*final(b)) == bitmap_contents(*old(b)).insert(v),
        r == !bitmap_contents(*old(b)).contains(v),
{
    b.insert(v)
}

/// Relies on `RoaringBitmap::remove`: takes the value out and reports whether
/// it was present.
#[verifier::external_body]
pub(crate) fn bitmap_remove(b: &mut roaring::RoaringBitmap, v: u32) -> (r: bool)
    ensures
        bitmap_contents(*final(b)) == bitmap_contents(*old(b)).remove(v),
        r == bitmap_contents(*old(b)).contains(v),
{
    b.remove(v)
}

/// Relies on `RoaringBitmap::contains`.
#[verifier::external_body]
pub(crate) fn bitmap_contains(b: &roaring::RoaringBitmap, v: u32) -> (r: bool)
    ensures
        r == bitmap_contents(*b).contains(v),
{
    b.contains(v)
}

/// Relies on `RoaringBitmap::len`: the number of values.
#[verifier::external_body]
pub(crate) fn bitmap_len(b: &roaring::RoaringBitmap) -> (r: u64)
    ensures
        r == bitmap_contents(*b).len(),
{
    b.len()
}

/// Relies on `RoaringBitmap::clone`: the same values.
#[verifier::external_body]
pub(crate) fn bitmap_clone(b: &roaring::RoaringBitmap) -> (r: roaring::RoaringBitmap)
    ensures
        bitmap_contents(r) == bitmap_contents(*b),
{
    b.clone()
}

/// Relies on `&RoaringBitmap & &RoaringBitmap`: the intersection.
#[verifier::external_body]
pub(crate) fn bitmap_and(a: &roaring::RoaringBitmap, b: &roaring::RoaringBitmap) -> (r: roaring::RoaringBitmap)
    ensures
        bitmap_contents(r) == bitmap_contents(*a).intersect(bitmap_contents(*b)),
{
    a & b
}

/// Relies on `&RoaringBitmap | &RoaringBitmap`: the union.
#[verifier::external_body]
pub(crate) fn bitmap_or(a: &roaring::RoaringBitmap, b: &roaring::RoaringBitmap) -> (r: roaring::RoaringBitmap)
    ensures
        bitmap_contents(r) == bitmap_contents(*a).union(bitmap_contents(*b)),
{
    a | b
}

/// Relies on `&RoaringBitmap - &RoaringBitmap`: the difference.
#[verifier::external_body]
pub(crate) fn bitmap_sub(a: &roaring::RoaringBitmap, b: &roaring::RoaringBitmap) -> (r: roaring::RoaringBitmap)
    ensures
        bitmap_contents(r) == bitmap_contents(*a).difference(bitmap_contents(*b)),
{
    a - b
}

/// Relies on `RoaringBitmap::iter`, which yields every value once, in
/// ascending order.
#[verifier::external_body]
pub(crate) fn bitmap_to_vec(b: &roaring::RoaringBitmap) -> (r: Vec<u32>)
    ensures
        is_ascending(r@),
        r@.to_set() == bitmap_contents(*b),
        r@ == ascending_of(bitmap_contents(*b)),
{
    b.iter().collect()
}

/// A bitmap of the given values.
pub fn bitmap_from_slice(v: &[u32]) -> (r: roaring::RoaringBitmap)
    ensures
        bitmap_contents(r) == v@.to_set(),
{
    let mut r = bitmap_new();
    let mut i: usize = 0;
    while i < v.len()
        invariant
            i <= v@.len(),
            bitmap_contents(r) == v@.subrange(0, i as int).to_set(),
        decreases v.len() - i,
    {
        bitmap_insert(&mut r, v[i]);
        proof {
            assert(v@.subrange(0, i + 1) =~= v@.subrange(0, i as int).push(v@[i as int]));
            lemma_to_set_push(v@.subrange(0, i as int), v@[i as int]);
        }
        i = i + 1;
    }
    proof {
        assert(v@.subrange(0, v@.len() as int) =~= v@);
    }
    r
}

pub proof fn lemma_to_set_push(q: Seq<u32>, x: u32)
    ensures
        q.push(x).to_set() == q.to_set().insert(x),
{
    assert forall|y: u32| q.push(x).to_set().contains(y) == q.to_set().insert(x).contains(y) by {
        if q.push(x).to_set().contains(y) {
            let k = q.push(x).index_of(y);
            if k < q.len() {
                assert(q[k] == y);
            }
        }
        if q.to_set().insert(x).contains(y) {
            if y == x {
                assert(q.push(x)[q.len() as int] == x);
            } else {
                let k = q.index_of(y);
                assert(q.push(x)[k] == y);
            }
        }
    }
    assert(q.push(x).to_set() =~= q.to_set().insert(x));
}

/// The first `n` values of a candidate set in ascending index order.
pub open spec fn take_spec(s: Set<u32>, n: nat) -> Set<u32> {
    ascending_of(s).take(if n <= ascending_of(s).len() { n as int } else { ascending_of(s).len() as int }).to_set()
}

/// Keeps the first `n` values in ascending order (what `Take(n)` does to the
/// candidate bitmap).
pub fn take_first(b: &roaring::RoaringBitmap, n: usize) -> (r: roaring::RoaringBitmap)
    ensures
        bitmap_contents(r) == take_spec(bitmap_contents(*b), n as nat),
{
    let all = bitmap_to_vec(b);
    let k: usize = if n <= all.len() { n } else { all.len() };
    let mut r = bitmap_new();
    let mut i: usize = 0;
    while i < k
        invariant
            k <= all@.len(),
            i <= k,
            bitmap_contents(r) == all@.subrange(0, i as int).to_set(),
        decreases k - i,
    {
        bitmap_insert(&mut r, all[i]);
        proof {
            assert(all@.subrange(0, i + 1) =~= all@.subrange(0, i as int).push(all@[i as int]));
            lemma_to_set_push(all@.subrange(0, i as int), all@[i as int]);
        }
        i = i + 1;
    }
    proof {
        assert(all@.subrange(0, k as int) =~= all@.take(k as int));
    }
    r
}

/// A graph, search or filter step: narrows the current candidates to those it
/// produced, or establishes them when there are none yet.
pub open spec fn narrow_spec(current: Option<Set<u32>>, produced: Set<u32>) -> Set<u32> {
    match current {
        Some(c) => c.intersect(produced),
        None => produced,
    }
}

/// The current candidates, if any, as a set.
pub open spec fn candidates_of(c: Option<roaring::RoaringBitmap>) -> Option<Set<u32>> {
    match c {
        Some(b) => Some(bitmap_contents(b)),
        None => None,
    }
}

/// Applies a narrowing step's result to the current candidates.
pub fn narrow(current: Option<roaring::RoaringBitmap>, produced: roaring::RoaringBitmap) -> (r: roaring::RoaringBitmap)
    ensures
        bitmap_contents(r) == narrow_spec(candidates_of(current), bitmap_contents(produced)),
{
    match current {
        Some(c) => bitmap_and(&c, &produced),
        None => produced,
    }
}

/// `Intersect(P)`: keeps the candidates that the sub-pipeline also yields, or
/// takes its result when there are no candidates yet.
pub fn intersect_with(current: Option<roaring::RoaringBitmap>, other: roaring::RoaringBitmap) -> (r: roaring::RoaringBitmap)
    ensures
        bitmap_contents(r) == match candidates_of(current) {
            Some(c) => c.intersect(bitmap_contents(other)),
            None => bitmap_contents(other),
        },
{
    narrow(current, other)
}

/// `Union(P)`: adds what the sub-pipeline yields.
pub fn union_with(current: Option<roaring::RoaringBitmap>, other: roaring::RoaringBitmap) -> (r: roaring::RoaringBitmap)
    ensures
        bitmap_contents(r) == match candidates_of(current) {
            Some(c) => c.union(bitmap_contents(other)),
            None => bitmap_contents(other),
        },
{
    match current {
        Some(c) => bitmap_or(&c, &other),
        None => other,
    }
}

/// `Subtract(P)`: drops what the sub-pipeline yields; with no candidates there
/// is nothing to drop from.
pub fn subtract_from(current: Option<roaring::RoaringBitmap>, other: roaring::RoaringBitmap) -> (r: Option<roaring::RoaringBitmap>)
    ensures
        candidates_of(r) == match candidates_of(current) {
            Some(c) => Some(c.difference(bitmap_contents(other))),
            None => None::<Set<u32>>,
        },
{
    match current {
        Some(c) => Some(bitmap_sub(&c, &other)),
        None => None,
    }
}

/// Union and intersection of candidate sets commute, and a difference shares
/// nothing with what was subtracted.
pub proof fn lemma_set_algebra_laws(a: Set<u32>, b: Set<u32>)
    ensures
        a.union(b) == b.union(a),
        a.intersect(b) == b.intersect(a),
        a.difference(b).intersect(b) == Set::<u32>::empty(),
{
    assert(a.union(b) =~= b.union(a));
    assert(a.intersect(b) =~= b.intersect(a));
    assert(a.difference(b).intersect(b) =~= Set::<u32>::empty());
}

/// A narrowing step applied to the output of a pipeline never yields a
/// candidate that the pipeline did not already yield.
pub proof fn lemma_narrow_monotone(current: Set<u32>, produced: Set<u32>)
    ensures
        narrow_spec(Some(current), produced).subset_of(current),
{
}

} // verus!
