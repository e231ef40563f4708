//! Text helpers shared by the configuration parsers and the slug hashing.
use vstd::prelude::*;
use vstd::string::StringSliceAdditionalSpecFns;

verus! {

/// What `str::to_lowercase` returns for a given text.
pub uninterp spec fn lower_of(s: Seq<char>) -> Seq<char>;

/// Relies on `str::to_lowercase`: the result depends on the characters alone,
/// and the empty text stays empty.
#[verifier::external_body]
pub(crate) fn lowercase(s: &str) -> (r: String)
    ensures
        r@ == lower_of(s@),
        s@.len() == 0 ==> r@.len() == 0,
{
    s.to_lowercase()
}

/// Character-wise equality of two texts.
pub fn same_text(a: &str, b: &str) -> (r: bool)
    ensures
        r == (a@ == b@),
{
    let n = a.unicode_len();
    if n != b.unicode_len() {
        return false;
    }
    let mut i: usize = 0;
    while i < n
        invariant
            n == a@.len(),
            n == b@.len(),
            i <= n,
            forall|j: int| 0 <= j < i ==> a@[j] == b@[j],
        decreases n - i,
    {
        if a.get_char(i) != b.get_char(i) {
            return false;
        }
        i = i + 1;
    }
    proof {
        assert(a@ =~= b@);
    }
    true
}

/// What `seahash::hash` returns for a given byte string.
pub uninterp spec fn seahash_of(b: Seq<u8>) -> u64;

/// Relies on `seahash::hash`: a 64-bit hash that depends on the bytes alone.
#[verifier::external_body]
pub(crate) fn hash_bytes(b: &[u8]) -> (r: u64)
    ensures
        r == seahash_of(b@),
{
    seahash::hash(b)
}

/// The byte `/` that ends the collection part of a slug.
pub const SLASH: u8 = 0x2f;

/// The collection of a slug without a `/`, as bytes: "nodes".
pub open spec fn default_collection() -> Seq<u8> {
    seq![0x6eu8, 0x6fu8, 0x64u8, 0x65u8, 0x73u8]
}

/// `i` is the position of the first `/` in `b`.
pub open spec fn first_slash_at(b: Seq<u8>, i: int) -> bool {
    0 <= i < b.len() && b[i] == SLASH && forall|j: int| 0 <= j < i ==> b[j] != SLASH
}

/// The collection part of a slug: the bytes before its first `/`, or
/// "nodes" when it has none.
pub open spec fn collection_key(b: Seq<u8>) -> Seq<u8> {
    if exists|i: int| first_slash_at(b, i) {
        b.subrange(0, choose|i: int| first_slash_at(b, i))
    } else {
        default_collection()
    }
}

/// The collection part of a slug, as bytes.
pub fn collection_key_of(b: &[u8]) -> (r: Vec<u8>)
    ensures
        r@ == collection_key(b@),
{
    let mut i: usize = 0;
    while i < b.len() && b[i] != SLASH
        invariant
            i <= b@.len(),
            forall|j: int| 0 <= j < i ==> b@[j] != SLASH,
        decreases b.len() - i,
    {
        i = i + 1;
    }
    if i == b.len() {
        proof {
            assert(!exists|k: int| first_slash_at(b@, k));
        }
        return vec![0x6eu8, 0x6fu8, 0x64u8, 0x65u8, 0x73u8];
    }
    proof {
        assert(first_slash_at(b@, i as int));
        let c = choose|k: int| first_slash_at(b@, k);
        assert(c == i) by {
            if c < i {
                assert(b@[c] != SLASH);
            } else if c > i {
                assert(b@[i as int] != SLASH);
            }
        }
    }
    let mut out: Vec<u8> = Vec::new();
    let mut k: usize = 0;
    while k < i
        invariant
            k <= i,
            i <= b@.len(),
            out@ == b@.subrange(0, k as int),
        decreases i - k,
    {
        out.push(b[k]);
        k = k + 1;
        proof {
            assert(out@ =~= b@.subrange(0, k as int));
        }
    }
    out
}

/// The hash of a text, as stored for slugs, collections and edge types.
pub fn hash_text(s: &str) -> (r: u64)
    ensures
        r == seahash_of(s.spec_bytes()),
{
    hash_bytes(s.as_bytes())
}

/// The collection hash and the slug hash of a slug.
pub fn parse_entity_id(slug: &str) -> (r: (u64, u64))
    ensures
        r.0 == seahash_of(collection_key(slug.spec_bytes())),
        r.1 == seahash_of(slug.spec_bytes()),
{
    let b = slug.as_bytes();
    let full_hash = hash_bytes(b);
    let col = collection_key_of(b);
    let collection_hash = hash_bytes(col.as_slice());
    (collection_hash, full_hash)
}

} // verus!
