//! Little-endian integer fields at fixed offsets of a byte buffer.
//!
//! Every on-disk structure of the storage engine is a byte string in which
//! integers sit at known offsets. This module gives those fields a meaning
//! (`u16_at`, `u32_at`, `u64_at`, `i64_at`), describes an in-place overwrite
//! (`splice`), and proves how the two interact.

use vstd::bytes::*;
use vstd::prelude::*;
use vstd::slice::slice_subrange;

verus! {

/// `b` with the bytes of `src` written over it from offset `off` on.
pub open spec fn splice(b: Seq<u8>, off: int, src: Seq<u8>) -> Seq<u8> {
    Seq::new(
        b.len(),
        |i: int|
            if off <= i < off + src.len() {
                src[i - off]
            } else {
                b[i]
            },
    )
}

pub open spec fn u16_le(v: u16) -> Seq<u8> {
    spec_u16_to_le_bytes(v)
}

pub open spec fn u32_le(v: u32) -> Seq<u8> {
    spec_u32_to_le_bytes(v)
}

pub open spec fn u64_le(v: u64) -> Seq<u8> {
    spec_u64_to_le_bytes(v)
}

/// Two's-complement little-endian bytes of a signed 64-bit integer.
pub open spec fn i64_le(v: i64) -> Seq<u8> {
    spec_u64_to_le_bytes(v as u64)
}

pub open spec fn u16_at(b: Seq<u8>, off: int) -> u16 {
    spec_u16_from_le_bytes(b.subrange(off, off + 2))
}

pub open spec fn u32_at(b: Seq<u8>, off: int) -> u32 {
    spec_u32_from_le_bytes(b.subrange(off, off + 4))
}

pub open spec fn u64_at(b: Seq<u8>, off: int) -> u64 {
    spec_u64_from_le_bytes(b.subrange(off, off + 8))
}

pub open spec fn i64_at(b: Seq<u8>, off: int) -> i64 {
    u64_at(b, off) as i64
}

/// An overwrite keeps the length, shows its source where it wrote, and
/// leaves every range beside it as it was.
pub proof fn lemma_splice(b: Seq<u8>, off: int, src: Seq<u8>)
    requires
        0 <= off,
        off + src.len() <= b.len(),
    ensures
        splice(b, off, src).len() == b.len(),
        splice(b, off, src).subrange(off, off + src.len()) == src,
        forall|p: int, q: int|
            0 <= p <= q <= b.len() && (q <= off || off + src.len() <= p) ==> #[trigger] splice(
                b,
                off,
                src,
            ).subrange(p, q) == b.subrange(p, q),
{
    let s = splice(b, off, src);
    assert(s.subrange(off, off + src.len()) =~= src);
    assert forall|p: int, q: int|
        0 <= p <= q <= b.len() && (q <= off || off + src.len() <= p) implies #[trigger] s.subrange(
        p,
        q,
    ) == b.subrange(p, q) by {
        assert(s.subrange(p, q) =~= b.subrange(p, q));
    }
}

/// Fields that lie beside an overwritten range keep their values.
pub proof fn lemma_splice_keeps(b: Seq<u8>, off: int, src: Seq<u8>)
    requires
        0 <= off,
        off + src.len() <= b.len(),
    ensures
        splice(b, off, src).len() == b.len(),
        forall|p: int|
            0 <= p && p + 2 <= b.len() && (p + 2 <= off || off + src.len() <= p) ==> #[trigger] u16_at(
                splice(b, off, src),
                p,
            ) == u16_at(b, p),
        forall|p: int|
            0 <= p && p + 4 <= b.len() && (p + 4 <= off || off + src.len() <= p) ==> #[trigger] u32_at(
                splice(b, off, src),
                p,
            ) == u32_at(b, p),
        forall|p: int|
            0 <= p && p + 8 <= b.len() && (p + 8 <= off || off + src.len() <= p) ==> #[trigger] u64_at(
                splice(b, off, src),
                p,
            ) == u64_at(b, p),
        forall|p: int|
            0 <= p && p + 8 <= b.len() && (p + 8 <= off || off + src.len() <= p) ==> #[trigger] i64_at(
                splice(b, off, src),
                p,
            ) == i64_at(b, p),
        forall|p: int|
            0 <= p < b.len() && (p < off || off + src.len() <= p) ==> #[trigger] splice(
                b,
                off,
                src,
            )[p] == b[p],
{
    lemma_splice(b, off, src);
}

/// A field reads back the value that was written over it.
pub proof fn lemma_splice_reads(b: Seq<u8>, off: int)
    requires
        0 <= off,
    ensures
        forall|v: u16| off + 2 <= b.len() ==> #[trigger] u16_at(splice(b, off, u16_le(v)), off) == v,
        forall|v: u32| off + 4 <= b.len() ==> #[trigger] u32_at(splice(b, off, u32_le(v)), off) == v,
        forall|v: u64| off + 8 <= b.len() ==> #[trigger] u64_at(splice(b, off, u64_le(v)), off) == v,
        forall|v: i64| off + 8 <= b.len() ==> #[trigger] i64_at(splice(b, off, i64_le(v)), off) == v,
{
    lemma_auto_spec_u16_to_from_le_bytes();
    lemma_auto_spec_u32_to_from_le_bytes();
    lemma_auto_spec_u64_to_from_le_bytes();
    assert forall|v: u16| off + 2 <= b.len() implies #[trigger] u16_at(
        splice(b, off, u16_le(v)),
        off,
    ) == v by {
        lemma_splice(b, off, u16_le(v));
    }
    assert forall|v: u32| off + 4 <= b.len() implies #[trigger] u32_at(
        splice(b, off, u32_le(v)),
        off,
    ) == v by {
        lemma_splice(b, off, u32_le(v));
    }
    assert forall|v: u64| off + 8 <= b.len() implies #[trigger] u64_at(
        splice(b, off, u64_le(v)),
        off,
    ) == v by {
        lemma_splice(b, off, u64_le(v));
    }
    assert forall|v: i64| off + 8 <= b.len() implies #[trigger] i64_at(
        splice(b, off, i64_le(v)),
        off,
    ) == v by {
        lemma_splice(b, off, i64_le(v));
        lemma_i64_u64_round_trip(v);
    }
}

/// Casting a signed value to unsigned and back gives the value again.
pub proof fn lemma_i64_u64_round_trip(v: i64)
    ensures
        (v as u64) as i64 == v,
{
    let u = v as u64;
    assert(u as i64 == v) by (bit_vector)
        requires
            u == v as u64,
    ;
}

/// The encodings of the fixed-width integers have their width as length.
pub proof fn lemma_le_len()
    ensures
        forall|v: u16| #[trigger] u16_le(v).len() == 2,
        forall|v: u32| #[trigger] u32_le(v).len() == 4,
        forall|v: u64| #[trigger] u64_le(v).len() == 8,
        forall|v: i64| #[trigger] i64_le(v).len() == 8,
{
    lemma_auto_spec_u16_to_from_le_bytes();
    lemma_auto_spec_u32_to_from_le_bytes();
    lemma_auto_spec_u64_to_from_le_bytes();
}

pub fn get_u16(data: &[u8], off: usize) -> (v: u16)
    requires
        off + 2 <= data@.len(),
    ensures
        v == u16_at(data@, off as int),
{
    let len: usize = data.len();
    assert(off + 2 <= len);
    u16_from_le_bytes(slice_subrange(data, off, off + 2))
}

pub fn get_u32(data: &[u8], off: usize) -> (v: u32)
    requires
        off + 4 <= data@.len(),
    ensures
        v == u32_at(data@, off as int),
{
    let len: usize = data.len();
    assert(off + 4 <= len);
    u32_from_le_bytes(slice_subrange(data, off, off + 4))
}

pub fn get_u64(data: &[u8], off: usize) -> (v: u64)
    requires
        off + 8 <= data@.len(),
    ensures
        v == u64_at(data@, off as int),
{
    let len: usize = data.len();
    assert(off + 8 <= len);
    u64_from_le_bytes(slice_subrange(data, off, off + 8))
}

pub fn get_i64(data: &[u8], off: usize) -> (v: i64)
    requires
        off + 8 <= data@.len(),
    ensures
        v == i64_at(data@, off as int),
{
    get_u64(data, off) as i64
}

/// Copies `src` over `data` from offset `off` on.
pub fn copy_into<const N: usize>(data: &mut [u8; N], off: usize, src: &[u8])
    requires
        off + src@.len() <= N,
    ensures
        final(data)@ == splice(old(data)@, off as int, src@),
{
    let n: usize = src.len();
    let mut i: usize = 0;
    while i < n
        invariant
            n == src@.len(),
            off + n <= N,
            i <= n,
            data@.len() == N,
            forall|j: int| 0 <= j < N && !(off <= j < off + i) ==> data@[j] == old(data)@[j],
            forall|j: int| off <= j < off + i ==> data@[j] == src@[j - off],
        decreases n - i,
    {
        data[off + i] = src[i];
        i = i + 1;
    }
    assert(data@ =~= splice(old(data)@, off as int, src@));
}

pub fn put_u16<const N: usize>(data: &mut [u8; N], off: usize, v: u16)
    requires
        off + 2 <= N,
    ensures
        final(data)@ == splice(old(data)@, off as int, u16_le(v)),
{
    let b = u16_to_le_bytes(v);
    copy_into(data, off, b.as_slice());
}

pub fn put_u32<const N: usize>(data: &mut [u8; N], off: usize, v: u32)
    requires
        off + 4 <= N,
    ensures
        final(data)@ == splice(old(data)@, off as int, u32_le(v)),
{
    let b = u32_to_le_bytes(v);
    copy_into(data, off, b.as_slice());
}

pub fn put_i64<const N: usize>(data: &mut [u8; N], off: usize, v: i64)
    requires
        off + 8 <= N,
    ensures
        final(data)@ == splice(old(data)@, off as int, i64_le(v)),
{
    let b = u64_to_le_bytes(v as u64);
    copy_into(data, off, b.as_slice());
}

} // verus!
