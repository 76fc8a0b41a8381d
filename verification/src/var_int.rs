//! Bitcoin's variable-length integers ("CompactSize"): one byte up to 0xfc,
//! else a tag byte (0xfd, 0xfe, 0xff) and a little-endian `u16`, `u32` or `u64`.
use crate::le::{
    le_bytes_u16, le_bytes_u32, le_bytes_u64, lemma_le_u16_roundtrip, lemma_le_u32_roundtrip,
    lemma_le_u64_roundtrip, read_le_u16, read_le_u32, read_le_u64, spec_le_bytes_u16,
    spec_le_bytes_u32, spec_le_bytes_u64, spec_le_u16, spec_le_u32, spec_le_u64,
};
use vstd::prelude::*;
use vstd::slice::slice_subrange;

verus! {

/// Why reading or writing bytes stopped: the input ended early, or the
/// output buffer had no room left.
#[derive(Debug, Clone, Copy, PartialEq, Eq, Structural)]
pub enum CodecError {
    UnexpectedEof,
    WriteZero,
}

/// The number of bytes that the encoding of `number` takes.
pub open spec fn spec_var_int_size(number: u64) -> nat {
    if number <= 0xfc {
        1
    } else if number <= 0xffff {
        3
    } else if number <= 0xffff_ffff {
        5
    } else {
        9
    }
}

/// The encoding of `number`: the shortest form, as Bitcoin writes it.
pub open spec fn spec_var_int_encode(number: u64) -> Seq<u8> {
    if number <= 0xfc {
        seq![number as u8]
    } else if number <= 0xffff {
        seq![0xfdu8] + spec_le_bytes_u16(number as u16)
    } else if number <= 0xffff_ffff {
        seq![0xfeu8] + spec_le_bytes_u32(number as u32)
    } else {
        seq![0xffu8] + spec_le_bytes_u64(number)
    }
}

/// The total length of an encoding, as its first byte tells it.
pub open spec fn spec_var_int_len_from_prefix(first: u8) -> nat {
    if first <= 0xfc {
        1
    } else if first == 0xfd {
        3
    } else if first == 0xfe {
        5
    } else {
        9
    }
}

/// What reading a variable-length integer at the start of `s` gives: its value
/// and the number of bytes read, or `None` where `s` ends before the encoding does.
/// Longer forms than needed are accepted.
pub open spec fn spec_read_var_int(s: Seq<u8>) -> Option<(u64, nat)> {
    if s.len() == 0 {
        None
    } else if s.len() < spec_var_int_len_from_prefix(s[0]) {
        None
    } else if s[0] <= 0xfc {
        Some((s[0] as u64, 1))
    } else if s[0] == 0xfd {
        Some((spec_le_u16(s.subrange(1, 3)) as u64, 3))
    } else if s[0] == 0xfe {
        Some((spec_le_u32(s.subrange(1, 5)) as u64, 5))
    } else {
        Some((spec_le_u64(s.subrange(1, 9)), 9))
    }
}

/// Number of bytes `number` takes as a variable-length integer.
pub fn var_int_size(number: u64) -> (size: usize)
    ensures
        size == spec_var_int_size(number),
        size == spec_var_int_encode(number).len(),
{
    if number <= 0xfc {
        1
    } else if number <= 0xffff {
        3
    } else if number <= 0xffff_ffff {
        5
    } else {
        9
    }
}

/// Total length of the encoding that starts with the byte `first`.
pub fn var_int_len_from_prefix(first: u8) -> (len: usize)
    ensures
        len == spec_var_int_len_from_prefix(first),
{
    if first <= 0xfc {
        1
    } else if first == 0xfd {
        3
    } else if first == 0xfe {
        5
    } else {
        9
    }
}

/// Reads a variable-length integer from the start of `slice`; returns its value
/// and the number of bytes it took.
pub fn read_var_int(slice: &[u8]) -> (r: Result<(u64, usize), CodecError>)
    ensures
        match r {
            Ok((value, size)) => spec_read_var_int(slice@) == Some((value, size as nat)),
            Err(e) => spec_read_var_int(slice@) is None && e == CodecError::UnexpectedEof,
        },
{
    if slice.len() == 0 {
        return Err(CodecError::UnexpectedEof);
    }
    let first = slice[0];
    if slice.len() < var_int_len_from_prefix(first) {
        return Err(CodecError::UnexpectedEof);
    }
    if first <= 0xfc {
        Ok((first as u64, 1))
    } else if first == 0xfd {
        Ok((read_le_u16(slice, 1) as u64, 3))
    } else if first == 0xfe {
        Ok((read_le_u32(slice, 1) as u64, 5))
    } else {
        Ok((read_le_u64(slice, 1), 9))
    }
}

/// The encoding of `number`, as a new vector.
pub fn encode_var_int(number: u64) -> (bytes: Vec<u8>)
    ensures
        bytes@ == spec_var_int_encode(number),
{
    let mut out: Vec<u8> = Vec::new();
    if number <= 0xfc {
        out.push(number as u8);
    } else if number <= 0xffff {
        out.push(0xfd);
        let b = le_bytes_u16(number as u16);
        out.push(b[0]);
        out.push(b[1]);
    } else if number <= 0xffff_ffff {
        out.push(0xfe);
        let b = le_bytes_u32(number as u32);
        let mut i: usize = 0;
        while i < 4
            invariant
                0 <= i <= 4,
                b@ == spec_le_bytes_u32(number as u32),
                out@ == seq![0xfeu8] + b@.take(i as int),
            decreases 4 - i,
        {
            out.push(b[i]);
            i = i + 1;
        }
        assert(b@.take(4) =~= b@);
    } else {
        out.push(0xff);
        let b = le_bytes_u64(number);
        let mut i: usize = 0;
        while i < 8
            invariant
                0 <= i <= 8,
                b@ == spec_le_bytes_u64(number),
                out@ == seq![0xffu8] + b@.take(i as int),
            decreases 8 - i,
        {
            out.push(b[i]);
            i = i + 1;
        }
        assert(b@.take(8) =~= b@);
    }
    assert(out@ =~= spec_var_int_encode(number));
    out
}

/// Writes `number` as a variable-length integer at the start of `slice`, and
/// returns the number of bytes written. Where the slice is too short, as many
/// bytes of the encoding as fit are written and the result is `WriteZero`.
pub fn write_var_int(slice: &mut [u8], number: u64) -> (r: Result<usize, CodecError>)
    ensures
        final(slice)@.len() == old(slice)@.len(),
        ({
            let enc = spec_var_int_encode(number);
            let k = if enc.len() <= old(slice)@.len() {
                enc.len() as int
            } else {
                old(slice)@.len() as int
            };
            final(slice)@ == enc.take(k) + old(slice)@.skip(k)
        }),
        match r {
            Ok(size) => size == spec_var_int_size(number) && size <= old(slice)@.len(),
            Err(e) => e == CodecError::WriteZero && spec_var_int_size(number) > old(slice)@.len(),
        },
{
    let enc = encode_var_int(number);
    let n = enc.len();
    let len = slice.len();
    let k = if n <= len {
        n
    } else {
        len
    };
    let mut i: usize = 0;
    while i < k
        invariant
            0 <= i <= k,
            k <= n,
            k <= len,
            n == enc@.len(),
            len == old(slice)@.len(),
            slice@.len() == len,
            slice@ =~= enc@.take(i as int) + old(slice)@.skip(i as int),
        decreases k - i,
    {
        slice[i] = enc[i];
        i = i + 1;
        assert(slice@ =~= enc@.take(i as int) + old(slice)@.skip(i as int));
    }
    if n <= len {
        Ok(n)
    } else {
        Err(CodecError::WriteZero)
    }
}

/// The encoding of `number` has `spec_var_int_size(number)` bytes, and its
/// first byte announces that length.
pub proof fn lemma_var_int_encode_len(number: u64)
    ensures
        spec_var_int_encode(number).len() == spec_var_int_size(number),
        spec_var_int_len_from_prefix(spec_var_int_encode(number)[0]) == spec_var_int_size(
            number,
        ),
{
}

/// Reading a variable-length integer from its encoding, whatever follows it,
/// gives back the number and the length of the encoding.
pub proof fn lemma_var_int_roundtrip(number: u64, rest: Seq<u8>)
    ensures
        spec_read_var_int(spec_var_int_encode(number) + rest) == Some(
            (number, spec_var_int_size(number)),
        ),
{
    let s = spec_var_int_encode(number) + rest;
    if number <= 0xfc {
    } else if number <= 0xffff {
        lemma_le_u16_roundtrip(number as u16);
        assert(s.subrange(1, 3) =~= spec_le_bytes_u16(number as u16));
    } else if number <= 0xffff_ffff {
        lemma_le_u32_roundtrip(number as u32);
        assert(s.subrange(1, 5) =~= spec_le_bytes_u32(number as u32));
    } else {
        lemma_le_u64_roundtrip(number);
        assert(s.subrange(1, 9) =~= spec_le_bytes_u64(number));
    }
}

/// The variable-length integer at offset `o` of `s`, as `spec_read_var_int`
/// reads it from there.
pub open spec fn spec_read_var_int_at(s: Seq<u8>, o: int) -> Option<(u64, nat)> {
    if 0 <= o <= s.len() {
        spec_read_var_int(s.subrange(o, s.len() as int))
    } else {
        None
    }
}

/// Reads a variable-length integer at offset `pos` of `s`.
pub(crate) fn read_var_int_at(s: &[u8], pos: usize) -> (r: Result<(u64, usize), CodecError>)
    requires
        pos <= s@.len(),
    ensures
        match r {
            Ok((value, size)) => spec_read_var_int_at(s@, pos as int) == Some((value, size as nat)),
            Err(e) => spec_read_var_int_at(s@, pos as int) is None && e == CodecError::UnexpectedEof,
        },
{
    read_var_int(slice_subrange(s, pos, s.len()))
}

/// Reading at offset `o` of `s`, where the encoding of `x` stands there.
pub proof fn lemma_read_var_int_at(s: Seq<u8>, o: int, x: u64, rest: Seq<u8>)
    requires
        0 <= o <= s.len(),
        s.subrange(o, s.len() as int) == spec_var_int_encode(x) + rest,
    ensures
        spec_read_var_int_at(s, o) == Some((x, spec_var_int_size(x))),
{
    lemma_var_int_roundtrip(x, rest);
}

/// A variable-length integer that reads from `x` reads the same whatever
/// follows `x`.
pub proof fn lemma_read_var_int_prefix(x: Seq<u8>, rest: Seq<u8>)
    requires
        spec_read_var_int(x) is Some,
    ensures
        spec_read_var_int(x + rest) == spec_read_var_int(x),
{
    let y = x + rest;
    assert(y[0] == x[0]);
    if x.len() >= 3 {
        assert(y.subrange(1, 3) =~= x.subrange(1, 3));
    }
    if x.len() >= 5 {
        assert(y.subrange(1, 5) =~= x.subrange(1, 5));
    }
    if x.len() >= 9 {
        assert(y.subrange(1, 9) =~= x.subrange(1, 9));
    }
}

/// `lemma_read_var_int_prefix` at an offset.
pub proof fn lemma_read_var_int_at_prefix(s: Seq<u8>, o: int, rest: Seq<u8>)
    requires
        spec_read_var_int_at(s, o) is Some,
    ensures
        spec_read_var_int_at(s + rest, o) == spec_read_var_int_at(s, o),
{
    let x = s.subrange(o, s.len() as int);
    assert((s + rest).subrange(o, (s + rest).len() as int) =~= x + rest);
    lemma_read_var_int_prefix(x, rest);
}

/// The encoding of a number, byte by byte: numbers up to 0xfc are one byte
/// holding the number; larger ones up to 0xffff are 0xfd and two bytes, up to
/// 0xffff_ffff 0xfe and four bytes, the rest 0xff and eight bytes, the bytes
/// holding the number least significant first.
pub proof fn lemma_var_int_encoding_by_value(n: u64)
    ensures
        n <= 0xfc ==> spec_var_int_encode(n) == seq![n as u8],
        0xfd <= n <= 0xffff ==> {
            let e = spec_var_int_encode(n);
            &&& e.len() == 3
            &&& e[0] == 0xfdu8
            &&& e[1] + 0x100 * e[2] == n
        },
        0x1_0000 <= n <= 0xffff_ffff ==> {
            let e = spec_var_int_encode(n);
            &&& e.len() == 5
            &&& e[0] == 0xfeu8
            &&& e[1] + 0x100 * e[2] + 0x1_0000 * e[3] + 0x100_0000 * e[4] == n
        },
        0x1_0000_0000 <= n ==> {
            let e = spec_var_int_encode(n);
            &&& e.len() == 9
            &&& e[0] == 0xffu8
            &&& e[1] + 0x100 * e[2] + 0x1_0000 * e[3] + 0x100_0000 * e[4] + 0x1_0000_0000 * e[5]
                + 0x100_0000_0000 * e[6] + 0x1_0000_0000_0000 * e[7] + 0x100_0000_0000_0000 * e[8]
                == n
        },
{
    if 0xfd <= n <= 0xffff {
        let m = n as u16;
        let b0 = m as u8;
        let b1 = (m >> 8u16) as u8;
        assert(b0 + 0x100 * b1 == m) by (bit_vector)
            requires
                b0 == m as u8,
                b1 == (m >> 8u16) as u8,
        ;
    } else if 0x1_0000 <= n <= 0xffff_ffff {
        let m = n as u32;
        let b0 = m as u8;
        let b1 = (m >> 8u32) as u8;
        let b2 = (m >> 16u32) as u8;
        let b3 = (m >> 24u32) as u8;
        assert(b0 + 0x100 * b1 + 0x1_0000 * b2 + 0x100_0000 * b3 == m) by (bit_vector)
            requires
                b0 == m as u8,
                b1 == (m >> 8u32) as u8,
                b2 == (m >> 16u32) as u8,
                b3 == (m >> 24u32) as u8,
        ;
    } else if 0x1_0000_0000 <= n {
        let b0 = n as u8;
        let b1 = (n >> 8u64) as u8;
        let b2 = (n >> 16u64) as u8;
        let b3 = (n >> 24u64) as u8;
        let b4 = (n >> 32u64) as u8;
        let b5 = (n >> 40u64) as u8;
        let b6 = (n >> 48u64) as u8;
        let b7 = (n >> 56u64) as u8;
        assert(b0 + 0x100 * b1 + 0x1_0000 * b2 + 0x100_0000 * b3 + 0x1_0000_0000 * b4
            + 0x100_0000_0000 * b5 + 0x1_0000_0000_0000 * b6 + 0x100_0000_0000_0000 * b7 == n)
            by (bit_vector)
            requires
                b0 == n as u8,
                b1 == (n >> 8u64) as u8,
                b2 == (n >> 16u64) as u8,
                b3 == (n >> 24u64) as u8,
                b4 == (n >> 32u64) as u8,
                b5 == (n >> 40u64) as u8,
                b6 == (n >> 48u64) as u8,
                b7 == (n >> 56u64) as u8,
        ;
    }
}

} // verus!
