//! The equality index of a payload field: from the hash of a field value to
//! the nodes holding it, with the reverse map from node to value hash for
//! removal.
use vstd::prelude::*;

use std::collections::HashMap;

verus! {

broadcast use vstd::std_specs::hash::group_hash_axioms;

/// Removing position `i` of a list without repeats drops exactly `s[i]`.
proof fn lemma_remove_at(s: Seq<u32>, i: int)
    requires
        s.no_duplicates(),
        0 <= i < s.len(),
    ensures
        s.remove(i).no_duplicates(),
        forall|x: u32| s.remove(i).contains(x) <==> (s.contains(x) && x != s[i]),
{
    let t = s.remove(i);
    assert forall|a: int, b: int| 0 <= a < t.len() && 0 <= b < t.len() && a != b implies t[a] != t[b] by {
        let a2 = if a < i { a } else { a + 1 };
        let b2 = if b < i { b } else { b + 1 };
        assert(t[a] == s[a2]);
        assert(t[b] == s[b2]);
    }
    assert forall|x: u32| t.contains(x) <==> (s.contains(x) && x != s[i]) by {
        if t.contains(x) {
            let k = t.index_of(x);
            let k2 = if k < i { k } else { k + 1 };
            assert(t[k] == s[k2]);
        }
        if s.contains(x) && x != s[i] {
            let k = s.index_of(x);
            if k < i {
                assert(t[k] == x);
            } else {
                assert(t[k - 1] == x);
            }
        }
    }
}

/// Value hash to nodes, and node to value hash.
pub struct HashIndex {
    index: HashMap<u64, Vec<u32>>,
    reverse: HashMap<u32, u64>,
}

impl View for HashIndex {
    type V = Map<u32, u64>;

    /// Which value hash each indexed node holds.
    closed spec fn view(&self) -> Map<u32, u64> {
        self.reverse@
    }
}

impl HashIndex {
    /// Each list holds its nodes once, is not empty, and holds exactly the
    /// nodes that the reverse map sends to its hash.
    pub closed spec fn wf(&self) -> bool {
        &&& forall|h: u64| #[trigger] self.index@.contains_key(h) ==> self.index@[h]@.no_duplicates() && self.index@[h]@.len() > 0
        &&& forall|h: u64, n: u32|
            (self.index@.contains_key(h) && (#[trigger] self.index@[h]@.contains(n))) <==> (self.reverse@.contains_key(n)
                && self.reverse@[n] == h)
        &&& forall|n: u32| #[trigger] self.reverse@.contains_key(n) ==> self.index@.contains_key(self.reverse@[n])
    }

    pub fn new() -> (r: Self)
        ensures
            r.wf(),
            r@ == Map::<u32, u64>::empty(),
    {
        HashIndex { index: HashMap::new(), reverse: HashMap::new() }
    }

    /// The nodes whose value hashes to `h`, each once.
    pub fn lookup_eq(&self, h: u64) -> (r: Vec<u32>)
        requires
            self.wf(),
        ensures
            r@.no_duplicates(),
            forall|n: u32| r@.contains(n) <==> (self@.contains_key(n) && self@[n] == h),
    {
        match self.index.get(&h) {
            Some(list) => {
                let mut out: Vec<u32> = Vec::new();
                let mut k: usize = 0;
                while k < list.len()
                    invariant
                        k <= list@.len(),
                        out@ == list@.subrange(0, k as int),
                    decreases list.len() - k,
                {
                    out.push(list[k]);
                    k = k + 1;
                    proof {
                        assert(out@ =~= list@.subrange(0, k as int));
                    }
                }
                proof {
                    assert(out@ =~= list@);
                    assert(self.index@.contains_key(h));
                    assert forall|n: u32| out@.contains(n) <==> (self@.contains_key(n) && self@[n] == h) by {
                        assert(self.index@.contains_key(h) && self.index@[h]@.contains(n) <==> (
                        self.reverse@.contains_key(n) && self.reverse@[n] == h));
                    }
                }
                out
            },
            None => {
                proof {
                    assert forall|n: u32| !(self@.contains_key(n) && self@[n] == h) by {
                        if self.reverse@.contains_key(n) && self.reverse@[n] == h {
                            assert(self.index@.contains_key(self.reverse@[n]));
                        }
                    }
                }
                Vec::new()
            },
        }
    }

    /// Forgets node `n`.
    pub fn remove(&mut self, n: u32)
        requires
            old(self).wf(),
        ensures
            final(self).wf(),
            final(self)@ == old(self)@.remove(n),
    {
        match self.reverse.remove(&n) {
            None => {
                proof {
                    assert(self.reverse@ =~= old(self).reverse@.remove(n));
                }
            },
            Some(h) => {
                let ghost mid_index = self.index@;
                let list_opt = self.index.remove(&h);
                match list_opt {
                    None => {
                        proof {
                            assert(old(self).index@.contains_key(h));
                        }
                    },
                    Some(list) => {
                        let mut list = list;
                        let mut k: usize = 0;
                        while k < list.len() && list[k] != n
                            invariant
                                k <= list@.len(),
                                forall|j: int| 0 <= j < k ==> list@[j] != n,
                            decreases list.len() - k,
                        {
                            k = k + 1;
                        }
                        let ghost before = list@;
                        proof {
                            assert(old(self).index@[h]@.contains(n));
                            assert(before == old(self).index@[h]@);
                        }
                        if k < list.len() {
                            list.remove(k);
                            proof {
                                lemma_remove_at(before, k as int);
                            }
                        }
                        if list.len() > 0 {
                            self.index.insert(h, list);
                        }
                        proof {
                            let oi = old(self).index@;
                            let orv = old(self).reverse@;
                            assert forall|g: u64| #[trigger] self.index@.contains_key(g) implies self.index@[g]@.no_duplicates()
                                && self.index@[g]@.len() > 0 by {
                                if g != h {
                                    assert(oi.contains_key(g));
                                }
                            }
                            assert forall|g: u64, m: u32|
                                (self.index@.contains_key(g) && (#[trigger] self.index@[g]@.contains(m))) <==> (
                                self.reverse@.contains_key(m) && self.reverse@[m] == g) by {
                                assert((oi.contains_key(g) && oi[g]@.contains(m)) <==> (orv.contains_key(m) && orv[m] == g));
                                if g == h && m != n && orv.contains_key(m) && orv[m] == g {
                                    assert(before.contains(m));
                                    assert(list@.contains(m));
                                }
                            }
                            assert forall|m: u32| #[trigger] self.reverse@.contains_key(m) implies self.index@.contains_key(
                                self.reverse@[m],
                            ) by {
                                assert(orv.contains_key(m));
                                if orv[m] == h {
                                    assert(oi[h]@.contains(m));
                                    assert(list@.contains(m));
                                } else {
                                    assert(oi.contains_key(orv[m]));
                                }
                            }
                        }
                    },
                }
            },
        }
    }

    /// Indexes node `n` under value hash `h`, replacing what it had.
    pub fn insert(&mut self, n: u32, h: u64)
        requires
            old(self).wf(),
        ensures
            final(self).wf(),
            final(self)@ == old(self)@.insert(n, h),
    {
        self.remove(n);
        let ghost mid = *self;
        let mut list = match self.index.remove(&h) {
            Some(l) => l,
            None => Vec::new(),
        };
        proof {
            assert(mid.index@.contains_key(h) ==> list@ == mid.index@[h]@);
            assert(!mid.index@.contains_key(h) ==> list@.len() == 0);
            assert(!list@.contains(n)) by {
                if list@.contains(n) {
                    assert(mid.index@[h]@.contains(n));
                }
            }
        }
        let ghost before = list@;
        list.push(n);
        self.index.insert(h, list);
        self.reverse.insert(n, h);
        proof {
            let mi = mid.index@;
            let mr = mid.reverse@;
            assert forall|x: u32| list@.contains(x) <==> (before.contains(x) || x == n) by {
                if list@.contains(x) {
                    let k = list@.index_of(x);
                    if k < before.len() {
                        assert(before[k] == x);
                    }
                }
                if before.contains(x) {
                    let k = before.index_of(x);
                    assert(list@[k] == x);
                }
                if x == n {
                    assert(list@[before.len() as int] == n);
                }
            }
            assert(list@.no_duplicates()) by {
                assert forall|a: int, b: int| 0 <= a < list@.len() && 0 <= b < list@.len() && a != b implies list@[a]
                    != list@[b] by {
                    if a == before.len() {
                        assert(before.contains(list@[b]));
                    } else if b == before.len() {
                        assert(before.contains(list@[a]));
                    } else {
                        if mi.contains_key(h) {
                            assert(before.no_duplicates());
                        }
                    }
                }
            }
            assert forall|g: u64| #[trigger] self.index@.contains_key(g) implies self.index@[g]@.no_duplicates()
                && self.index@[g]@.len() > 0 by {
                if g != h {
                    assert(mi.contains_key(g));
                }
            }
            assert forall|g: u64, m: u32|
                (self.index@.contains_key(g) && (#[trigger] self.index@[g]@.contains(m))) <==> (self.reverse@.contains_key(m)
                    && self.reverse@[m] == g) by {
                assert((mi.contains_key(g) && mi[g]@.contains(m)) <==> (mr.contains_key(m) && mr[m] == g));
                if g == h && m != n && mr.contains_key(m) && mr[m] == h {
                    assert(before.contains(m));
                }
            }
            assert forall|m: u32| #[trigger] self.reverse@.contains_key(m) implies self.index@.contains_key(self.reverse@[m]) by {
                if m != n {
                    assert(mr.contains_key(m));
                    assert(mi.contains_key(mr[m]));
                }
            }
            assert(self.reverse@ =~= old(self).reverse@.insert(n, h));
        }
    }

    /// Number of indexed nodes.
    pub fn count(&self) -> (r: usize)
        ensures
            r == self@.len(),
    {
        self.reverse.len()
    }
}

} // verus!
