//! What happens to resolved hits after the bitmap: an optional sort on one
//! payload field (numbers before strings; descending reverses that order;
//! missing values last either way), then skipping. The hits come from the final bitmap,
//! so a `Take` has already chosen them by index before any sort.
use vstd::prelude::*;

verus! {

/// The sort key of a hit: a number as its `ordered_key`, a string as its
/// bytes, or nothing.
#[derive(Clone, Debug, PartialEq, Eq)]
pub enum SortKey {
    Num(u64),
    Str(Vec<u8>),
    Null,
}

/// Lexicographic comparison of byte strings: -1, 0 or 1.
pub open spec fn cmp_bytes(a: Seq<u8>, b: Seq<u8>) -> int
    decreases a.len(),
{
    if a.len() == 0 && b.len() == 0 {
        0
    } else if a.len() == 0 {
        -1
    } else if b.len() == 0 {
        1
    } else if a[0] < b[0] {
        -1
    } else if a[0] > b[0] {
        1
    } else {
        cmp_bytes(a.subrange(1, a.len() as int), b.subrange(1, b.len() as int))
    }
}

proof fn lemma_cmp_bytes_antisym(a: Seq<u8>, b: Seq<u8>)
    ensures
        cmp_bytes(a, b) == -cmp_bytes(b, a),
    decreases a.len(),
{
    if a.len() > 0 && b.len() > 0 && a[0] == b[0] {
        lemma_cmp_bytes_antisym(a.subrange(1, a.len() as int), b.subrange(1, b.len() as int));
    }
}

/// The group of a key: numbers, then strings, then missing values.
pub open spec fn key_rank(k: SortKey) -> int {
    match k {
        SortKey::Num(_) => 0,
        SortKey::Str(_) => 1,
        SortKey::Null => 2,
    }
}

/// Ascending comparison of two keys: -1, 0 or 1.
pub open spec fn cmp_key(a: SortKey, b: SortKey) -> int {
    if key_rank(a) < key_rank(b) {
        -1
    } else if key_rank(a) > key_rank(b) {
        1
    } else {
        match (a, b) {
            (SortKey::Num(x), SortKey::Num(y)) => if x < y {
                -1
            } else if x > y {
                1
            } else {
                0
            },
            (SortKey::Str(x), SortKey::Str(y)) => cmp_bytes(x@, y@),
            _ => 0,
        }
    }
}

proof fn lemma_cmp_key_antisym(a: SortKey, b: SortKey)
    ensures
        cmp_key(a, b) == -cmp_key(b, a),
{
    match (a, b) {
        (SortKey::Str(x), SortKey::Str(y)) => lemma_cmp_bytes_antisym(x@, y@),
        _ => {},
    }
}

/// The comparison in the requested direction: descending reverses the order
/// of present keys, and missing keys come last either way.
pub open spec fn cmp_dir(a: SortKey, b: SortKey, ascending: bool) -> int {
    if a is Null && b is Null {
        0
    } else if a is Null {
        1
    } else if b is Null {
        -1
    } else if ascending {
        cmp_key(a, b)
    } else {
        cmp_key(b, a)
    }
}

proof fn lemma_cmp_dir_antisym(a: SortKey, b: SortKey, ascending: bool)
    ensures
        cmp_dir(a, b, ascending) == -cmp_dir(b, a, ascending),
{
    lemma_cmp_key_antisym(a, b);
}

/// Compares two byte strings.
pub fn compare_bytes(a: &Vec<u8>, b: &Vec<u8>) -> (r: i8)
    ensures
        r as int == cmp_bytes(a@, b@),
{
    let mut i: usize = 0;
    proof {
        assert(a@.subrange(0, a@.len() as int) =~= a@);
        assert(b@.subrange(0, b@.len() as int) =~= b@);
    }
    while i < a.len() && i < b.len() && a[i] == b[i]
        invariant
            i <= a@.len(),
            i <= b@.len(),
            cmp_bytes(a@, b@) == cmp_bytes(a@.subrange(i as int, a@.len() as int), b@.subrange(i as int, b@.len() as int)),
        decreases a.len() - i,
    {
        proof {
            let sa = a@.subrange(i as int, a@.len() as int);
            let sb = b@.subrange(i as int, b@.len() as int);
            assert(sa.subrange(1, sa.len() as int) =~= a@.subrange(i + 1, a@.len() as int));
            assert(sb.subrange(1, sb.len() as int) =~= b@.subrange(i + 1, b@.len() as int));
        }
        i = i + 1;
    }
    if i == a.len() && i == b.len() {
        0
    } else if i == a.len() {
        -1
    } else if i == b.len() {
        1
    } else if a[i] < b[i] {
        -1
    } else {
        1
    }
}

/// Compares two keys in ascending order.
pub fn compare_keys(a: &SortKey, b: &SortKey) -> (r: i8)
    ensures
        r as int == cmp_key(*a, *b),
{
    match (a, b) {
        (SortKey::Num(x), SortKey::Num(y)) => if *x < *y {
            -1
        } else if *x > *y {
            1
        } else {
            0
        },
        (SortKey::Str(x), SortKey::Str(y)) => compare_bytes(x, y),
        (SortKey::Null, SortKey::Null) => 0,
        (SortKey::Null, _) => 1,
        (_, SortKey::Null) => -1,
        (SortKey::Num(_), SortKey::Str(_)) => -1,
        (SortKey::Str(_), SortKey::Num(_)) => 1,
    }
}

/// Inserting a new position anywhere keeps the order free of repeats and
/// adds just that position.
proof fn lemma_insert_fresh(s: Seq<usize>, q: int, x: usize)
    requires
        s.no_duplicates(),
        !s.contains(x),
        0 <= q <= s.len(),
    ensures
        s.insert(q, x).no_duplicates(),
        forall|y: usize| s.insert(q, x).contains(y) <==> (s.contains(y) || y == x),
{
    let t = s.insert(q, x);
    assert forall|a: int, b: int| 0 <= a < t.len() && 0 <= b < t.len() && a != b implies t[a] != t[b] by {
        if a != q && b != q {
            let a2 = if a < q { a } else { a - 1 };
            let b2 = if b < q { b } else { b - 1 };
            assert(t[a] == s[a2]);
            assert(t[b] == s[b2]);
        } else if a == q {
            let b2 = if b < q { b } else { b - 1 };
            assert(t[b] == s[b2]);
        } else {
            let a2 = if a < q { a } else { a - 1 };
            assert(t[a] == s[a2]);
        }
    }
    assert forall|y: usize| t.contains(y) <==> (s.contains(y) || y == x) by {
        if t.contains(y) {
            let k = t.index_of(y);
            if k < q {
                assert(s[k] == y);
            } else if k > q {
                assert(s[k - 1] == y);
            }
        }
        if s.contains(y) {
            let k = s.index_of(y);
            if k < q {
                assert(t[k] == y);
            } else {
                assert(t[k + 1] == y);
            }
        }
        if y == x {
            assert(t[q] == x);
        }
    }
}

/// Whether hit `i` sorts strictly before hit `j`.
fn precedes(hits: &Vec<(u32, SortKey)>, i: usize, j: usize, ascending: bool) -> (r: bool)
    requires
        i < hits@.len(),
        j < hits@.len(),
    ensures
        r == (cmp_dir(hits@[i as int].1, hits@[j as int].1, ascending) < 0),
{
    match (&hits[i].1, &hits[j].1) {
        (SortKey::Null, _) => false,
        (_, SortKey::Null) => true,
        _ => if ascending {
            compare_keys(&hits[i].1, &hits[j].1) < 0
        } else {
            compare_keys(&hits[j].1, &hits[i].1) < 0
        },
    }
}

/// The order `p` lists each position below `n` once.
pub open spec fn is_order(p: Seq<usize>, n: nat) -> bool {
    &&& p.len() == n
    &&& p.no_duplicates()
    &&& forall|x: usize| p.contains(x) <==> x < n
}

/// Along `p`, each hit's key is no greater than the next one's.
pub open spec fn order_sorted(hits: Seq<(u32, SortKey)>, p: Seq<usize>, ascending: bool) -> bool {
    forall|q: int|
        0 <= q < p.len() - 1 ==> cmp_dir(hits[#[trigger] p[q] as int].1, hits[p[q + 1] as int].1, ascending) <= 0
}

/// The sort, then the skip: the identifiers of the hits in an order that
/// sorts them by key (ties keep bitmap order), without the first `skip`.
/// Without a sort the bitmap order stays.
pub fn sort_and_skip(hits: &Vec<(u32, SortKey)>, sort: Option<bool>, skip: usize) -> (r: Vec<u32>)
    ensures
        exists|p: Seq<usize>|
            #![trigger is_order(p, hits@.len())]
            is_order(p, hits@.len()) && (match sort {
                Some(asc) => order_sorted(hits@, p, asc),
                None => p == Seq::new(hits@.len(), |i: int| i as usize),
            }) && r@ == p.map_values(|j: usize| hits@[j as int].0).skip(
                if skip <= hits@.len() { skip as int } else { hits@.len() as int },
            ),
{
    let n = hits.len();
    let mut perm: Vec<usize> = Vec::new();
    let mut i: usize = 0;
    while i < n
        invariant
            n == hits@.len(),
            i <= n,
            is_order(perm@, i as nat),
            forall|x: int| 0 <= x < perm@.len() ==> perm@[x] < i,
            match sort {
                Some(asc) => order_sorted(hits@, perm@, asc),
                None => perm@ == Seq::new(i as nat, |k: int| k as usize),
            },
        decreases n - i,
    {
        let ghost before = perm@;
        let ghost mut at: int = 0;
        match sort {
            None => {
                perm.push(i);
                proof {
                    assert(perm@ =~= Seq::new((i + 1) as nat, |k: int| k as usize));
                    assert(perm@ =~= before.insert(before.len() as int, i));
                    at = before.len() as int;
                }
            },
            Some(asc) => {
                let mut q: usize = 0;
                while q < perm.len() && !precedes(hits, i, perm[q], asc)
                    invariant
                        n == hits@.len(),
                        i < n,
                        perm@ == before,
                        q <= perm@.len(),
                        forall|x: int| 0 <= x < perm@.len() ==> perm@[x] < i,
                        forall|r: int| 0 <= r < q ==> cmp_dir(hits@[i as int].1, hits@[#[trigger] perm@[r] as int].1, asc) >= 0,
                    decreases perm.len() - q,
                {
                    q = q + 1;
                }
                perm.insert(q, i);
                proof {
                    let s = perm@;
                    assert(s == before.insert(q as int, i));
                    at = q as int;
                    assert(q <= before.len());
                    assert forall|r: int| 0 <= r < s.len() - 1 implies cmp_dir(hits@[#[trigger] s[r] as int].1, hits@[s[r + 1] as int].1, asc)
                        <= 0 by {
                        if r < q as int - 1 {
                            assert(s[r] == before[r] && s[r + 1] == before[r + 1]);
                        } else if r == q as int - 1 {
                            assert(s[r] == before[r]);
                            assert(cmp_dir(hits@[i as int].1, hits@[before[r] as int].1, asc) >= 0);
                            lemma_cmp_dir_antisym(hits@[i as int].1, hits@[before[r] as int].1, asc);
                        } else if r == q as int {
                            assert(s[r + 1] == before[r]);
                        } else {
                            assert(s[r] == before[r - 1] && s[r + 1] == before[r]);
                        }
                    }
                }
            },
        }
        proof {
            assert(!before.contains(i)) by {
                if before.contains(i) {
                    let k = before.index_of(i);
                    assert(before[k] < i);
                }
            }
            assert(perm@ == before.insert(at, i));
            assert(0 <= at <= before.len());
            lemma_insert_fresh(before, at, i);
            assert forall|x: usize| perm@.contains(x) <==> x < i + 1 by {
                assert(before.contains(x) <==> x < i);
            }
            assert(is_order(perm@, (i + 1) as nat));
            let s = perm@;
            assert forall|x: int| 0 <= x < s.len() implies s[x] < i + 1 by {
                assert(s.contains(s[x]));
            }
        }
        i = i + 1;
    }
    let k: usize = if skip <= n { skip } else { n };
    let mut out: Vec<u32> = Vec::new();
    let mut j: usize = k;
    let ghost ids = perm@.map_values(|x: usize| hits@[x as int].0);
    while j < n
        invariant
            n == hits@.len(),
            perm@.len() == n,
            k <= j <= n,
            forall|x: int| 0 <= x < n ==> perm@[x] < n,
            ids == perm@.map_values(|x: usize| hits@[x as int].0),
            out@ == ids.subrange(k as int, j as int),
        decreases n - j,
    {
        out.push(hits[perm[j]].0);
        j = j + 1;
        proof {
            assert(out@ =~= ids.subrange(k as int, j as int));
        }
    }
    proof {
        assert(out@ =~= ids.skip(k as int));
    }
    out
}

/// The hits that a sort and skip return are hits they were given: ordering
/// after the bitmap never brings back a candidate that a `Take` dropped.
pub proof fn lemma_sort_stays_within_take(hits: Seq<(u32, SortKey)>, p: Seq<usize>, k: int, taken: Set<u32>)
    requires
        is_order(p, hits.len()),
        0 <= k <= hits.len(),
        forall|i: int| 0 <= i < hits.len() ==> taken.contains(#[trigger] hits[i].0),
    ensures
        forall|x: u32| p.map_values(|j: usize| hits[j as int].0).skip(k).contains(x) ==> taken.contains(x),
{
    assert forall|x: u32| p.map_values(|j: usize| hits[j as int].0).skip(k).contains(x) implies taken.contains(x) by {
        let s = p.map_values(|j: usize| hits[j as int].0).skip(k);
        let t = s.index_of(x);
        let j = p[t + k];
        assert(p.contains(j));
        assert(s[t] == hits[j as int].0);
    }
}

} // verus!
