//! The metadata slot of an edge: nothing, up to 32 bytes inline, or a
//! reference `offset:u64 ∥ len:u32` into the blob arena.
use vstd::prelude::*;

use crate::wal::{le_bytes, le_value, lemma_le_bytes_len, lemma_le_round_trip, pow256, push_le, read_le};

verus! {

/// Most bytes kept inline.
pub const META_INLINE_MAX: usize = 32;

/// The slot as stored: kind (0 none, 1 inline, 2 blob), inline length and
/// the 32 slot bytes.
#[derive(Clone, Debug)]
pub struct EdgeMeta {
    pub kind: u8,
    pub len: u8,
    pub bytes: Vec<u8>,
}

/// What a slot refers to.
#[derive(Clone, Debug, PartialEq, Eq)]
pub enum MetaRef {
    Empty,
    Inline(Vec<u8>),
    Blob { offset: u64, len: u32 },
}

/// What a slot refers to, as a value of the specification.
pub enum MetaView {
    Empty,
    Inline(Seq<u8>),
    Blob(u64, u32),
}

/// The specification value of a decoded slot.
pub open spec fn meta_view(r: MetaRef) -> MetaView {
    match r {
        MetaRef::Empty => MetaView::Empty,
        MetaRef::Inline(v) => MetaView::Inline(v@),
        MetaRef::Blob { offset, len } => MetaView::Blob(offset, len),
    }
}

/// `n` zero bytes.
pub open spec fn zeros(n: nat) -> Seq<u8> {
    Seq::new(n, |i: int| 0u8)
}

fn push_zeros(out: &mut Vec<u8>, n: usize)
    ensures
        final(out)@ == old(out)@ + zeros(n as nat),
{
    let mut k: usize = 0;
    while k < n
        invariant
            k <= n,
            out@ == old(out)@ + zeros(k as nat),
        decreases n - k,
    {
        out.push(0);
        k = k + 1;
        proof {
            assert(out@ =~= old(out)@ + zeros(k as nat));
        }
    }
}

/// The slot for metadata kept inline: none for empty metadata, inline up to
/// 32 bytes, and no slot (`None`: it belongs in the blob arena) beyond.
pub fn encode_inline(m: &[u8]) -> (r: Option<EdgeMeta>)
    ensures
        m@.len() == 0 ==> (r matches Some(e) && e.kind == 0 && e.len == 0 && e.bytes@ == zeros(32)),
        0 < m@.len() <= 32 ==> (r matches Some(e) && e.kind == 1 && e.len == m@.len() && e.bytes@ == m@ + zeros(
            (32 - m@.len()) as nat,
        )),
        m@.len() > 32 ==> r is None,
{
    if m.len() > META_INLINE_MAX {
        return None;
    }
    let mut bytes: Vec<u8> = Vec::new();
    let mut k: usize = 0;
    while k < m.len()
        invariant
            k <= m@.len(),
            bytes@ == m@.subrange(0, k as int),
        decreases m.len() - k,
    {
        bytes.push(m[k]);
        k = k + 1;
        proof {
            assert(bytes@ =~= m@.subrange(0, k as int));
        }
    }
    proof {
        assert(m@.subrange(0, m@.len() as int) =~= m@);
    }
    push_zeros(&mut bytes, META_INLINE_MAX - m.len());
    if m.len() == 0 {
        proof {
            assert(bytes@ =~= zeros(32));
        }
        Some(EdgeMeta { kind: 0, len: 0, bytes })
    } else {
        Some(EdgeMeta { kind: 1, len: m.len() as u8, bytes })
    }
}

/// The bytes of a blob reference slot.
pub open spec fn blob_slot(offset: u64, len: u32) -> Seq<u8> {
    le_bytes(offset as nat, 8) + le_bytes(len as nat, 4) + zeros(20)
}

/// The slot for metadata stored in the blob arena at `offset`, `len` bytes.
pub fn encode_blob(offset: u64, len: u32) -> (r: EdgeMeta)
    ensures
        r.kind == 2,
        r.len == 0,
        r.bytes@ == blob_slot(offset, len),
{
    let mut bytes: Vec<u8> = Vec::new();
    push_le(&mut bytes, offset, 8);
    push_le(&mut bytes, len as u64, 4);
    push_zeros(&mut bytes, 20);
    proof {
        assert(bytes@ =~= blob_slot(offset, len));
    }
    EdgeMeta { kind: 2, len: 0, bytes }
}

/// What a slot refers to: inline bytes when the kind is 1 with a length in
/// 1..=32, a blob reference when the kind is 2 with a non-zero length,
/// nothing otherwise.
pub open spec fn decode_spec(kind: u8, len: u8, b: Seq<u8>) -> MetaView {
    if kind == 1 && 0 < len && len <= 32 && len <= b.len() {
        MetaView::Inline(b.subrange(0, len as int))
    } else if kind == 2 && b.len() >= 12 && le_value(b.subrange(8, 12)) > 0 {
        MetaView::Blob(le_value(b.subrange(0, 8)) as u64, le_value(b.subrange(8, 12)) as u32)
    } else {
        MetaView::Empty
    }
}

/// Reads a slot back.
pub fn decode(meta: &EdgeMeta) -> (r: MetaRef)
    ensures
        meta_view(r) == decode_spec(meta.kind, meta.len, meta.bytes@),
{
    let b = meta.bytes.as_slice();
    if meta.kind == 1 && meta.len > 0 && meta.len <= 32 && (meta.len as usize) <= b.len() {
        let n = meta.len as usize;
        let mut v: Vec<u8> = Vec::new();
        let mut k: usize = 0;
        while k < n
            invariant
                n <= b@.len(),
                k <= n,
                v@ == b@.subrange(0, k as int),
            decreases n - k,
        {
            v.push(b[k]);
            k = k + 1;
            proof {
                assert(v@ =~= b@.subrange(0, k as int));
            }
        }
        return MetaRef::Inline(v);
    }
    if meta.kind == 2 && b.len() >= 12 {
        let len = read_le(b, 8, 4);
        if len > 0 {
            let offset = read_le(b, 0, 8);
            proof {
                reveal_with_fuel(pow256, 9);
                lemma_le_value_bound(b@.subrange(8, 12));
            }
            return MetaRef::Blob { offset, len: len as u32 };
        }
    }
    MetaRef::Empty
}

proof fn lemma_le_value_bound(s: Seq<u8>)
    ensures
        le_value(s) < pow256(s.len()),
    decreases s.len(),
{
    if s.len() > 0 {
        let t = s.subrange(1, s.len() as int);
        lemma_le_value_bound(t);
        assert(s[0] as nat + 256 * le_value(t) < 256 * pow256(t.len())) by (nonlinear_arith)
            requires
                s[0] < 256,
                le_value(t) < pow256(t.len()),
        ;
    }
}

/// Metadata written inline reads back as the same bytes, and a blob reference
/// with a non-zero length reads back as the same offset and length.
pub proof fn lemma_meta_round_trip(m: Seq<u8>, offset: u64, len: u32)
    ensures
        0 < m.len() <= 32 ==> (m + zeros((32 - m.len()) as nat)).subrange(0, m.len() as int) == m,
        0 < m.len() <= 32 ==> decode_spec(1, m.len() as u8, m + zeros((32 - m.len()) as nat)) == MetaView::Inline(m),
        len > 0 ==> decode_spec(2, 0, blob_slot(offset, len)) == MetaView::Blob(offset, len),
        decode_spec(0, 0, zeros(32)) == MetaView::Empty,
{
    if 0 < m.len() <= 32 {
        assert((m + zeros((32 - m.len()) as nat)).subrange(0, m.len() as int) =~= m);
    }
    let b = blob_slot(offset, len);
    lemma_le_bytes_len(offset as nat, 8);
    lemma_le_bytes_len(len as nat, 4);
    assert(b.subrange(0, 8) =~= le_bytes(offset as nat, 8));
    assert(b.subrange(8, 12) =~= le_bytes(len as nat, 4));
    lemma_le_round_trip(offset as nat, 8);
    lemma_le_round_trip(len as nat, 4);
    reveal_with_fuel(pow256, 9);
    vstd::arithmetic::div_mod::lemma_small_mod(offset as nat, pow256(8));
    vstd::arithmetic::div_mod::lemma_small_mod(len as nat, pow256(4));
}

} // verus!
