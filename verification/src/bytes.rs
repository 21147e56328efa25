//! Little-endian integer encodings, decimal digits and string comparison on
//! the UTF-8 bytes of strings.

use vstd::prelude::*;
use vstd::utf8::{encode_utf8, decode_utf8, encode_utf8_decode_utf8};

verus! {

/// Little-endian bytes of a `u16`.
pub open spec fn le2(x: u16) -> Seq<u8> {
    seq![(x & 0xff) as u8, (x >> 8u16) as u8]
}

/// Little-endian bytes of a `u32`.
pub open spec fn le4(x: u32) -> Seq<u8> {
    seq![(x & 0xff) as u8, ((x >> 8u32) & 0xff) as u8, ((x >> 16u32) & 0xff) as u8, (x >> 24u32) as u8]
}

/// Little-endian bytes of a `u64`.
pub open spec fn le8(x: u64) -> Seq<u8> {
    seq![
        (x & 0xff) as u8,
        ((x >> 8u64) & 0xff) as u8,
        ((x >> 16u64) & 0xff) as u8,
        ((x >> 24u64) & 0xff) as u8,
        ((x >> 32u64) & 0xff) as u8,
        ((x >> 40u64) & 0xff) as u8,
        ((x >> 48u64) & 0xff) as u8,
        (x >> 56u64) as u8,
    ]
}

/// The `u16` whose little-endian bytes start `b` at `i`.
pub open spec fn read_le2(b: Seq<u8>, i: int) -> u16 {
    (b[i] as u16) | ((b[i + 1] as u16) << 8u16)
}

/// The `u32` whose little-endian bytes start `b` at `i`.
pub open spec fn read_le4(b: Seq<u8>, i: int) -> u32 {
    (b[i] as u32) | ((b[i + 1] as u32) << 8u32) | ((b[i + 2] as u32) << 16u32) | ((b[i + 3] as u32)
        << 24u32)
}

/// The `u64` whose little-endian bytes start `b` at `i`.
pub open spec fn read_le8(b: Seq<u8>, i: int) -> u64 {
    (read_le4(b, i) as u64) | ((read_le4(b, i + 4) as u64) << 32u64)
}

/// Decimal digits of `n` in ASCII, most significant first.
pub open spec fn decimal(n: nat) -> Seq<u8>
    decreases n,
{
    if n < 10 {
        seq![(48 + n) as u8]
    } else {
        decimal(n / 10).push((48 + n % 10) as u8)
    }
}

pub proof fn lemma_le2_roundtrip(x: u16)
    ensures
        read_le2(le2(x), 0) == x,
{
    let b0 = (x & 0xff) as u8;
    let b1 = (x >> 8u16) as u8;
    assert((b0 as u16) | ((b1 as u16) << 8u16) == x) by (bit_vector)
        requires
            b0 == (x & 0xff) as u8,
            b1 == (x >> 8u16) as u8,
    ;
}

pub proof fn lemma_le4_roundtrip(x: u32)
    ensures
        read_le4(le4(x), 0) == x,
{
    let b0 = (x & 0xff) as u8;
    let b1 = ((x >> 8u32) & 0xff) as u8;
    let b2 = ((x >> 16u32) & 0xff) as u8;
    let b3 = (x >> 24u32) as u8;
    assert((b0 as u32) | ((b1 as u32) << 8u32) | ((b2 as u32) << 16u32) | ((b3 as u32) << 24u32)
        == x) by (bit_vector)
        requires
            b0 == (x & 0xff) as u8,
            b1 == ((x >> 8u32) & 0xff) as u8,
            b2 == ((x >> 16u32) & 0xff) as u8,
            b3 == (x >> 24u32) as u8,
    ;
}

pub proof fn lemma_le8_roundtrip(x: u64)
    ensures
        read_le8(le8(x), 0) == x,
{
    let lo = (x & 0xffff_ffff) as u32;
    let hi = (x >> 32u64) as u32;
    lemma_le4_roundtrip(lo);
    lemma_le4_roundtrip(hi);
    let b = le8(x);
    assert(le4(lo) =~= b.subrange(0, 4)) by {
        assert(((x & 0xffff_ffff) as u32 & 0xff) as u8 == (x & 0xff) as u8) by (bit_vector);
        assert(((((x & 0xffff_ffff) as u32) >> 8u32) & 0xff) as u8 == ((x >> 8u64) & 0xff) as u8)
            by (bit_vector);
        assert(((((x & 0xffff_ffff) as u32) >> 16u32) & 0xff) as u8 == ((x >> 16u64) & 0xff) as u8)
            by (bit_vector);
        assert((((x & 0xffff_ffff) as u32) >> 24u32) as u8 == ((x >> 24u64) & 0xff) as u8)
            by (bit_vector);
    }
    assert(le4(hi) =~= b.subrange(4, 8)) by {
        assert(((x >> 32u64) as u32 & 0xff) as u8 == ((x >> 32u64) & 0xff) as u8) by (bit_vector);
        assert(((((x >> 32u64) as u32) >> 8u32) & 0xff) as u8 == ((x >> 40u64) & 0xff) as u8)
            by (bit_vector);
        assert(((((x >> 32u64) as u32) >> 16u32) & 0xff) as u8 == ((x >> 48u64) & 0xff) as u8)
            by (bit_vector);
        assert((((x >> 32u64) as u32) >> 24u32) as u8 == (x >> 56u64) as u8) by (bit_vector);
    }
    assert(read_le4(b, 0) == read_le4(b.subrange(0, 4), 0));
    assert(read_le4(b, 4) == read_le4(b.subrange(4, 8), 0));
    assert(((lo as u64) | ((hi as u64) << 32u64)) == x) by (bit_vector)
        requires
            lo == (x & 0xffff_ffff) as u32,
            hi == (x >> 32u64) as u32,
    ;
}

/// Appends the little-endian bytes of `x`.
pub fn push_le2(buf: &mut Vec<u8>, x: u16)
    ensures
        final(buf)@ == old(buf)@ + le2(x),
{
    buf.push((x & 0xff) as u8);
    buf.push((x >> 8) as u8);
    assert(final(buf)@ =~= old(buf)@ + le2(x));
}

/// Appends the little-endian bytes of `x`.
pub fn push_le4(buf: &mut Vec<u8>, x: u32)
    ensures
        final(buf)@ == old(buf)@ + le4(x),
{
    buf.push((x & 0xff) as u8);
    buf.push(((x >> 8) & 0xff) as u8);
    buf.push(((x >> 16) & 0xff) as u8);
    buf.push((x >> 24) as u8);
    assert(final(buf)@ =~= old(buf)@ + le4(x));
}

/// Appends the little-endian bytes of `x`.
pub fn push_le8(buf: &mut Vec<u8>, x: u64)
    ensures
        final(buf)@ == old(buf)@ + le8(x),
{
    buf.push((x & 0xff) as u8);
    buf.push(((x >> 8) & 0xff) as u8);
    buf.push(((x >> 16) & 0xff) as u8);
    buf.push(((x >> 24) & 0xff) as u8);
    buf.push(((x >> 32) & 0xff) as u8);
    buf.push(((x >> 40) & 0xff) as u8);
    buf.push(((x >> 48) & 0xff) as u8);
    buf.push((x >> 56) as u8);
    assert(final(buf)@ =~= old(buf)@ + le8(x));
}

/// Appends every byte of `src`.
pub fn push_all(buf: &mut Vec<u8>, src: &[u8])
    ensures
        final(buf)@ == old(buf)@ + src@,
{
    let mut i: usize = 0;
    while i < src.len()
        invariant
            i <= src@.len(),
            buf@ == old(buf)@ + src@.subrange(0, i as int),
        decreases src@.len() - i,
    {
        buf.push(src[i]);
        i = i + 1;
        assert(buf@ =~= old(buf)@ + src@.subrange(0, i as int));
    }
    assert(src@.subrange(0, src@.len() as int) =~= src@);
}

/// Appends the decimal digits of `n`.
pub fn push_decimal(buf: &mut Vec<u8>, n: u64)
    ensures
        final(buf)@ == old(buf)@ + decimal(n as nat),
    decreases n,
{
    if n >= 10 {
        push_decimal(buf, n / 10);
    }
    buf.push((48 + n % 10) as u8);
    assert(final(buf)@ =~= old(buf)@ + decimal(n as nat));
}

/// String equality decided on the UTF-8 bytes.
pub fn str_eq(a: &str, b: &str) -> (r: bool)
    ensures
        r == (a@ == b@),
{
    let x = a.as_bytes();
    let y = b.as_bytes();
    proof {
        encode_utf8_decode_utf8(a@);
        encode_utf8_decode_utf8(b@);
    }
    if x.len() != y.len() {
        return false;
    }
    let mut i: usize = 0;
    while i < x.len()
        invariant
            x@.len() == y@.len(),
            x@ == encode_utf8(a@),
            y@ == encode_utf8(b@),
            i <= x@.len(),
            forall|k: int| 0 <= k < i ==> x@[k] == y@[k],
        decreases x@.len() - i,
    {
        if x[i] != y[i] {
            return false;
        }
        i = i + 1;
    }
    assert(x@ =~= y@);
    true
}

} // verus!
