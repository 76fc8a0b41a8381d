//! Little-endian integer conversions, done by the `byteorder` crate.
use byteorder::{ByteOrder, LittleEndian};
use vstd::prelude::*;

verus! {

/// The `u16` whose little-endian bytes are `b[0]`, `b[1]`.
pub open spec fn spec_le_u16(b: Seq<u8>) -> u16 {
    (b[0] as u16) | ((b[1] as u16) << 8u16)
}

/// The `u32` whose little-endian bytes are `b[0]` to `b[3]`.
pub open spec fn spec_le_u32(b: Seq<u8>) -> u32 {
    (b[0] as u32) | ((b[1] as u32) << 8u32) | ((b[2] as u32) << 16u32) | ((b[3] as u32)
        << 24u32)
}

/// The `u64` whose little-endian bytes are `b[0]` to `b[7]`.
pub open spec fn spec_le_u64(b: Seq<u8>) -> u64 {
    (b[0] as u64) | ((b[1] as u64) << 8u64) | ((b[2] as u64) << 16u64) | ((b[3] as u64)
        << 24u64) | ((b[4] as u64) << 32u64) | ((b[5] as u64) << 40u64) | ((b[6] as u64)
        << 48u64) | ((b[7] as u64) << 56u64)
}

/// The little-endian bytes of `n`.
pub open spec fn spec_le_bytes_u16(n: u16) -> Seq<u8> {
    seq![n as u8, (n >> 8u16) as u8]
}

/// The little-endian bytes of `n`.
pub open spec fn spec_le_bytes_u32(n: u32) -> Seq<u8> {
    seq![n as u8, (n >> 8u32) as u8, (n >> 16u32) as u8, (n >> 24u32) as u8]
}

/// The little-endian bytes of `n`.
pub open spec fn spec_le_bytes_u64(n: u64) -> Seq<u8> {
    seq![
        n as u8,
        (n >> 8u64) as u8,
        (n >> 16u64) as u8,
        (n >> 24u64) as u8,
        (n >> 32u64) as u8,
        (n >> 40u64) as u8,
        (n >> 48u64) as u8,
        (n >> 56u64) as u8,
    ]
}

/// Calls `byteorder::LittleEndian::read_u16` on the bytes of `buf` from `start` on.
/// Claimed: the result is the little-endian value of `buf[start]`, `buf[start + 1]`
/// (the crate's `u16::from_le_bytes` of the first two bytes); it panics only when
/// fewer than two bytes are given, which `requires` rules out.
#[verifier::external_body]
pub(crate) fn read_le_u16(buf: &[u8], start: usize) -> (r: u16)
    requires
        start + 2 <= buf@.len(),
    ensures
        r == spec_le_u16(buf@.subrange(start as int, start + 2)),
{
    LittleEndian::read_u16(&buf[start..])
}

/// Calls `byteorder::LittleEndian::read_u32` on the bytes of `buf` from `start` on.
/// Claimed: the result is the little-endian value of the four bytes at `start`;
/// it panics only when fewer than four bytes are given, which `requires` rules out.
#[verifier::external_body]
pub(crate) fn read_le_u32(buf: &[u8], start: usize) -> (r: u32)
    requires
        start + 4 <= buf@.len(),
    ensures
        r == spec_le_u32(buf@.subrange(start as int, start + 4)),
{
    LittleEndian::read_u32(&buf[start..])
}

/// Calls `byteorder::LittleEndian::read_u64` on the bytes of `buf` from `start` on.
/// Claimed: the result is the little-endian value of the eight bytes at `start`;
/// it panics only when fewer than eight bytes are given, which `requires` rules out.
#[verifier::external_body]
pub(crate) fn read_le_u64(buf: &[u8], start: usize) -> (r: u64)
    requires
        start + 8 <= buf@.len(),
    ensures
        r == spec_le_u64(buf@.subrange(start as int, start + 8)),
{
    LittleEndian::read_u64(&buf[start..])
}

/// Calls `byteorder::LittleEndian::write_u16` on a two-byte buffer.
/// Claimed: the buffer then holds the little-endian bytes of `n`.
#[verifier::external_body]
pub(crate) fn le_bytes_u16(n: u16) -> (r: [u8; 2])
    ensures
        r@ == spec_le_bytes_u16(n),
{
    let mut buf = [0u8; 2];
    LittleEndian::write_u16(&mut buf, n);
    buf
}

/// Calls `byteorder::LittleEndian::write_u32` on a four-byte buffer.
/// Claimed: the buffer then holds the little-endian bytes of `n`.
#[verifier::external_body]
pub(crate) fn le_bytes_u32(n: u32) -> (r: [u8; 4])
    ensures
        r@ == spec_le_bytes_u32(n),
{
    let mut buf = [0u8; 4];
    LittleEndian::write_u32(&mut buf, n);
    buf
}

/// Calls `byteorder::LittleEndian::write_u64` on an eight-byte buffer.
/// Claimed: the buffer then holds the little-endian bytes of `n`.
#[verifier::external_body]
pub(crate) fn le_bytes_u64(n: u64) -> (r: [u8; 8])
    ensures
        r@ == spec_le_bytes_u64(n),
{
    let mut buf = [0u8; 8];
    LittleEndian::write_u64(&mut buf, n);
    buf
}

/// Reading back the little-endian bytes of a `u16` gives the `u16`.
pub proof fn lemma_le_u16_roundtrip(n: u16)
    ensures
        spec_le_u16(spec_le_bytes_u16(n)) == n,
{
    let b0 = n as u8;
    let b1 = (n >> 8u16) as u8;
    assert(((b0 as u16) | ((b1 as u16) << 8u16)) == n) by (bit_vector)
        requires
            b0 == n as u8,
            b1 == (n >> 8u16) as u8,
    ;
}

/// Reading back the little-endian bytes of a `u32` gives the `u32`.
pub proof fn lemma_le_u32_roundtrip(n: u32)
    ensures
        spec_le_u32(spec_le_bytes_u32(n)) == n,
{
    let b0 = n as u8;
    let b1 = (n >> 8u32) as u8;
    let b2 = (n >> 16u32) as u8;
    let b3 = (n >> 24u32) as u8;
    assert(((b0 as u32) | ((b1 as u32) << 8u32) | ((b2 as u32) << 16u32) | ((b3 as u32)
        << 24u32)) == n) by (bit_vector)
        requires
            b0 == n as u8,
            b1 == (n >> 8u32) as u8,
            b2 == (n >> 16u32) as u8,
            b3 == (n >> 24u32) as u8,
    ;
}

/// Reading back the little-endian bytes of a `u64` gives the `u64`.
pub proof fn lemma_le_u64_roundtrip(n: u64)
    ensures
        spec_le_u64(spec_le_bytes_u64(n)) == n,
{
    let b0 = n as u8;
    let b1 = (n >> 8u64) as u8;
    let b2 = (n >> 16u64) as u8;
    let b3 = (n >> 24u64) as u8;
    let b4 = (n >> 32u64) as u8;
    let b5 = (n >> 40u64) as u8;
    let b6 = (n >> 48u64) as u8;
    let b7 = (n >> 56u64) as u8;
    assert(((b0 as u64) | ((b1 as u64) << 8u64) | ((b2 as u64) << 16u64) | ((b3 as u64)
        << 24u64) | ((b4 as u64) << 32u64) | ((b5 as u64) << 40u64) | ((b6 as u64) << 48u64)
        | ((b7 as u64) << 56u64)) == n) by (bit_vector)
        requires
            b0 == n as u8,
            b1 == (n >> 8u64) as u8,
            b2 == (n >> 16u64) as u8,
            b3 == (n >> 24u64) as u8,
            b4 == (n >> 32u64) as u8,
            b5 == (n >> 40u64) as u8,
            b6 == (n >> 48u64) as u8,
            b7 == (n >> 56u64) as u8,
    ;
}

} // verus!
