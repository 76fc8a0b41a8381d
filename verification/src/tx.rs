//! Copying a serialized transaction out of a block file. The copy has the
//! same fields as the original, with every count and length written in the
//! shortest variable-length form.
use crate::var_int::{
    encode_var_int, lemma_read_var_int_at, lemma_read_var_int_at_prefix,
    lemma_var_int_encode_len, read_var_int_at,
    spec_read_var_int_at, spec_var_int_encode, CodecError,
};
use vstd::prelude::*;

verus! {

/// The `n` bytes of `s` at `pos`, and the position after them.
pub open spec fn spec_take_at(s: Seq<u8>, pos: int, n: int) -> Option<(Seq<u8>, int)> {
    if 0 <= pos && 0 <= n && pos + n <= s.len() {
        Some((s.subrange(pos, pos + n), pos + n))
    } else {
        None
    }
}

/// The variable-length integer of `s` at `pos`, and the position after it.
pub open spec fn spec_var_at(s: Seq<u8>, pos: int) -> Option<(u64, int)> {
    match spec_read_var_int_at(s, pos) {
        Some((v, k)) => Some((v, pos + k)),
        None => None,
    }
}

/// An input at `pos`: the 36-byte outpoint, the script length, the script and
/// the 4-byte sequence; its copy and the position after it.
pub open spec fn spec_parse_input(s: Seq<u8>, pos: int) -> Option<(Seq<u8>, int)> {
    match spec_take_at(s, pos, 36) {
        None => None,
        Some((outpoint, p1)) => match spec_var_at(s, p1) {
            None => None,
            Some((size, p2)) => match spec_take_at(s, p2, size as int) {
                None => None,
                Some((script, p3)) => match spec_take_at(s, p3, 4) {
                    None => None,
                    Some((sequence, p4)) => Some(
                        (outpoint + spec_var_int_encode(size) + script + sequence, p4),
                    ),
                },
            },
        },
    }
}

/// `count` inputs one after the other from `pos`.
pub open spec fn spec_parse_inputs(s: Seq<u8>, pos: int, count: nat) -> Option<(Seq<u8>, int)>
    decreases count,
{
    if count == 0 {
        Some((Seq::empty(), pos))
    } else {
        match spec_parse_inputs(s, pos, (count - 1) as nat) {
            None => None,
            Some((out, p)) => match spec_parse_input(s, p) {
                None => None,
                Some((o, q)) => Some((out + o, q)),
            },
        }
    }
}

/// An output at `pos`: the 8-byte value, the script length and the script;
/// its copy and the position after it.
pub open spec fn spec_parse_output(s: Seq<u8>, pos: int) -> Option<(Seq<u8>, int)> {
    match spec_take_at(s, pos, 8) {
        None => None,
        Some((value, p1)) => match spec_var_at(s, p1) {
            None => None,
            Some((size, p2)) => match spec_take_at(s, p2, size as int) {
                None => None,
                Some((script, p3)) => Some((value + spec_var_int_encode(size) + script, p3)),
            },
        },
    }
}

/// `count` outputs one after the other from `pos`.
pub open spec fn spec_parse_outputs(s: Seq<u8>, pos: int, count: nat) -> Option<(Seq<u8>, int)>
    decreases count,
{
    if count == 0 {
        Some((Seq::empty(), pos))
    } else {
        match spec_parse_outputs(s, pos, (count - 1) as nat) {
            None => None,
            Some((out, p)) => match spec_parse_output(s, p) {
                None => None,
                Some((o, q)) => Some((out + o, q)),
            },
        }
    }
}

/// A transaction at the start of `s`: the 4-byte version, the input count,
/// the inputs, the output count, the outputs and the 4-byte lock time; its
/// copy and the number of bytes read. `None` where `s` ends too early.
pub open spec fn spec_parse_tx(s: Seq<u8>) -> Option<(Seq<u8>, int)> {
    match spec_take_at(s, 0, 4) {
        None => None,
        Some((version, p1)) => match spec_var_at(s, p1) {
            None => None,
            Some((num_inputs, p2)) => match spec_parse_inputs(s, p2, num_inputs as nat) {
                None => None,
                Some((inputs, p3)) => match spec_var_at(s, p3) {
                    None => None,
                    Some((num_outputs, p4)) => match spec_parse_outputs(
                        s,
                        p4,
                        num_outputs as nat,
                    ) {
                        None => None,
                        Some((outputs, p5)) => match spec_take_at(s, p5, 4) {
                            None => None,
                            Some((lock_time, p6)) => Some(
                                (
                                    version + spec_var_int_encode(num_inputs) + inputs
                                        + spec_var_int_encode(num_outputs) + outputs + lock_time,
                                    p6,
                                ),
                            ),
                        },
                    },
                },
            },
        },
    }
}

/// Once inputs fail to parse, more of them fail too.
proof fn lemma_parse_inputs_none(s: Seq<u8>, pos: int, c: nat, d: nat)
    requires
        c <= d,
        spec_parse_inputs(s, pos, c) is None,
    ensures
        spec_parse_inputs(s, pos, d) is None,
    decreases d - c,
{
    if c < d {
        lemma_parse_inputs_none(s, pos, c, (d - 1) as nat);
    }
}

/// Once outputs fail to parse, more of them fail too.
proof fn lemma_parse_outputs_none(s: Seq<u8>, pos: int, c: nat, d: nat)
    requires
        c <= d,
        spec_parse_outputs(s, pos, c) is None,
    ensures
        spec_parse_outputs(s, pos, d) is None,
    decreases d - c,
{
    if c < d {
        lemma_parse_outputs_none(s, pos, c, (d - 1) as nat);
    }
}

/// Appends the `n` bytes of `s` at `pos` to `out`.
fn copy_bytes(out: &mut Vec<u8>, s: &[u8], pos: usize, n: usize)
    requires
        pos + n <= s@.len(),
    ensures
        final(out)@ == old(out)@ + s@.subrange(pos as int, pos + n),
{
    let len = s.len();
    let mut i: usize = 0;
    while i < n
        invariant
            0 <= i <= n,
            len == s@.len(),
            pos + n <= len,
            out@ =~= old(out)@ + s@.subrange(pos as int, pos + i),
        decreases n - i,
    {
        out.push(s[pos + i]);
        i = i + 1;
    }
}

/// Appends the encoding of `number` to `out`.
fn append_var_int(out: &mut Vec<u8>, number: u64)
    ensures
        final(out)@ == old(out)@ + spec_var_int_encode(number),
{
    let enc = encode_var_int(number);
    let n = enc.len();
    let mut i: usize = 0;
    while i < n
        invariant
            0 <= i <= n,
            n == enc@.len(),
            out@ =~= old(out)@ + enc@.take(i as int),
        decreases n - i,
    {
        out.push(enc[i]);
        i = i + 1;
    }
    assert(enc@.take(n as int) =~= enc@);
}

/// Reads one input at `pos`, appends its copy to `out`, and returns the
/// position after it.
fn read_input(s: &[u8], pos: usize, out: &mut Vec<u8>) -> (r: Result<usize, CodecError>)
    requires
        pos <= s@.len(),
    ensures
        match r {
            Ok(next) => spec_parse_input(s@, pos as int) matches Some((o, q)) && q == next
                && final(out)@ == old(out)@ + o && next <= s@.len(),
            Err(e) => spec_parse_input(s@, pos as int) is None && e == CodecError::UnexpectedEof,
        },
{
    let len = s.len();
    let ghost start = out@;
    if len - pos < 36 {
        return Err(CodecError::UnexpectedEof);
    }
    copy_bytes(out, s, pos, 36);
    let p1 = pos + 36;
    let (size, k) = match read_var_int_at(s, p1) {
        Ok(r) => r,
        Err(e) => return Err(e),
    };
    append_var_int(out, size);
    let p2 = p1 + k;
    if ((len - p2) as u64) < size {
        return Err(CodecError::UnexpectedEof);
    }
    let n = size as usize;
    copy_bytes(out, s, p2, n);
    let p3 = p2 + n;
    if len - p3 < 4 {
        return Err(CodecError::UnexpectedEof);
    }
    copy_bytes(out, s, p3, 4);
    let p4 = p3 + 4;
    proof {
        assert(out@ =~= start + (s@.subrange(pos as int, pos + 36) + spec_var_int_encode(size)
            + s@.subrange(p2 as int, p2 + n) + s@.subrange(p3 as int, p3 + 4)));
    }
    Ok(p4)
}

/// Reads one output at `pos`, appends its copy to `out`, and returns the
/// position after it.
fn read_output(s: &[u8], pos: usize, out: &mut Vec<u8>) -> (r: Result<usize, CodecError>)
    requires
        pos <= s@.len(),
    ensures
        match r {
            Ok(next) => spec_parse_output(s@, pos as int) matches Some((o, q)) && q == next
                && final(out)@ == old(out)@ + o && next <= s@.len(),
            Err(e) => spec_parse_output(s@, pos as int) is None && e == CodecError::UnexpectedEof,
        },
{
    let len = s.len();
    let ghost start = out@;
    if len - pos < 8 {
        return Err(CodecError::UnexpectedEof);
    }
    copy_bytes(out, s, pos, 8);
    let p1 = pos + 8;
    let (size, k) = match read_var_int_at(s, p1) {
        Ok(r) => r,
        Err(e) => return Err(e),
    };
    append_var_int(out, size);
    let p2 = p1 + k;
    if ((len - p2) as u64) < size {
        return Err(CodecError::UnexpectedEof);
    }
    let n = size as usize;
    copy_bytes(out, s, p2, n);
    let p3 = p2 + n;
    proof {
        assert(out@ =~= start + (s@.subrange(pos as int, pos + 8) + spec_var_int_encode(size)
            + s@.subrange(p2 as int, p2 + n)));
    }
    Ok(p3)
}

/// Reads `count` inputs from `pos`, appends their copies to `out`, and
/// returns the position after them.
fn read_inputs(s: &[u8], pos: usize, count: u64, out: &mut Vec<u8>) -> (r: Result<
    usize,
    CodecError,
>)
    requires
        pos <= s@.len(),
    ensures
        match r {
            Ok(next) => spec_parse_inputs(s@, pos as int, count as nat) matches Some((o, q)) && q
                == next && final(out)@ == old(out)@ + o && next <= s@.len(),
            Err(e) => spec_parse_inputs(s@, pos as int, count as nat) is None && e
                == CodecError::UnexpectedEof,
        },
{
    let len = s.len();
    let ghost head = out@;
    let mut p = pos;
    let mut i: u64 = 0;
    while i < count
        invariant
            i <= count,
            p <= len,
            len == s@.len(),
            pos <= len,
            spec_parse_inputs(s@, pos as int, i as nat) matches Some((acc, q)) && q == p && out@
                == head + acc,
        decreases count - i,
    {
        let ghost before = out@;
        let ghost prev = spec_parse_inputs(s@, pos as int, i as nat)->0;
        match read_input(s, p, out) {
            Ok(next) => {
                p = next;
            },
            Err(e) => {
                proof {
                    assert(spec_parse_inputs(s@, pos as int, (i + 1) as nat) is None);
                    lemma_parse_inputs_none(s@, pos as int, (i + 1) as nat, count as nat);
                }
                return Err(e);
            },
        }
        i = i + 1;
        proof {
            let (acc, q) = prev;
            let (o, _) = spec_parse_input(s@, q)->0;
            assert(out@ =~= head + (acc + o));
        }
    }
    Ok(p)
}

/// Reads `count` outputs from `pos`, appends their copies to `out`, and
/// returns the position after them.
fn read_outputs(s: &[u8], pos: usize, count: u64, out: &mut Vec<u8>) -> (r: Result<
    usize,
    CodecError,
>)
    requires
        pos <= s@.len(),
    ensures
        match r {
            Ok(next) => spec_parse_outputs(s@, pos as int, count as nat) matches Some((o, q)) && q
                == next && final(out)@ == old(out)@ + o && next <= s@.len(),
            Err(e) => spec_parse_outputs(s@, pos as int, count as nat) is None && e
                == CodecError::UnexpectedEof,
        },
{
    let len = s.len();
    let ghost head = out@;
    let mut p = pos;
    let mut i: u64 = 0;
    while i < count
        invariant
            i <= count,
            p <= len,
            len == s@.len(),
            pos <= len,
            spec_parse_outputs(s@, pos as int, i as nat) matches Some((acc, q)) && q == p && out@
                == head + acc,
        decreases count - i,
    {
        let ghost prev = spec_parse_outputs(s@, pos as int, i as nat)->0;
        match read_output(s, p, out) {
            Ok(next) => {
                p = next;
            },
            Err(e) => {
                proof {
                    assert(spec_parse_outputs(s@, pos as int, (i + 1) as nat) is None);
                    lemma_parse_outputs_none(s@, pos as int, (i + 1) as nat, count as nat);
                }
                return Err(e);
            },
        }
        i = i + 1;
        proof {
            let (acc, q) = prev;
            let (o, _) = spec_parse_output(s@, q)->0;
            assert(out@ =~= head + (acc + o));
        }
    }
    Ok(p)
}

/// Reads a serialized transaction from the start of `stream` and returns a
/// copy of it in which every count and script length is re-encoded in the
/// shortest form; `UnexpectedEof` where the data ends before the transaction.
pub fn read_raw_tx(stream: &[u8]) -> (r: Result<Vec<u8>, CodecError>)
    ensures
        match r {
            Ok(raw_tx) => spec_parse_tx(stream@) matches Some((t, _)) && raw_tx@ == t,
            Err(e) => spec_parse_tx(stream@) is None && e == CodecError::UnexpectedEof,
        },
{
    let s = stream;
    let len = s.len();
    let mut raw_tx: Vec<u8> = Vec::with_capacity(64);
    if len < 4 {
        return Err(CodecError::UnexpectedEof);
    }
    copy_bytes(&mut raw_tx, s, 0, 4);
    let (num_inputs, k1) = match read_var_int_at(s, 4) {
        Ok(r) => r,
        Err(e) => return Err(e),
    };
    append_var_int(&mut raw_tx, num_inputs);
    let p2 = 4 + k1;
    let p3 = match read_inputs(s, p2, num_inputs, &mut raw_tx) {
        Ok(p) => p,
        Err(e) => return Err(e),
    };
    let (num_outputs, k2) = match read_var_int_at(s, p3) {
        Ok(r) => r,
        Err(e) => return Err(e),
    };
    append_var_int(&mut raw_tx, num_outputs);
    let p4 = p3 + k2;
    let p5 = match read_outputs(s, p4, num_outputs, &mut raw_tx) {
        Ok(p) => p,
        Err(e) => return Err(e),
    };
    if len - p5 < 4 {
        return Err(CodecError::UnexpectedEof);
    }
    copy_bytes(&mut raw_tx, s, p5, 4);
    proof {
        let (inputs, _) = spec_parse_inputs(s@, p2 as int, num_inputs as nat)->0;
        let (outputs, _) = spec_parse_outputs(s@, p4 as int, num_outputs as nat)->0;
        assert(raw_tx@ =~= s@.subrange(0, 4) + spec_var_int_encode(num_inputs) + inputs
            + spec_var_int_encode(num_outputs) + outputs + s@.subrange(p5 as int, p5 + 4));
    }
    Ok(raw_tx)
}

/// The copy that a parse result holds (empty where there is none).
pub open spec fn spec_copy_of(r: Option<(Seq<u8>, int)>) -> Seq<u8> {
    match r {
        Some((copy, _)) => copy,
        None => Seq::empty(),
    }
}

/// The encoding of `x` read back at `p` of `t`.
proof fn lemma_var_at_encoding(t: Seq<u8>, p: int, x: u64)
    requires
        0 <= p,
        p + spec_var_int_encode(x).len() <= t.len(),
        t.subrange(p, p + spec_var_int_encode(x).len()) == spec_var_int_encode(x),
    ensures
        spec_var_at(t, p) == Some((x, p + spec_var_int_encode(x).len())),
{
    let e = spec_var_int_encode(x);
    lemma_var_int_encode_len(x);
    assert(t.subrange(p, t.len() as int) =~= e + t.subrange(p + e.len(), t.len() as int));
    lemma_read_var_int_at(t, p, x, t.subrange(p + e.len(), t.len() as int));
}

/// The copy of an input, standing anywhere, reads back as itself.
proof fn lemma_parse_input_copy(s: Seq<u8>, p: int, t: Seq<u8>, p2: int)
    requires
        spec_parse_input(s, p) is Some,
        0 <= p2,
        p2 + spec_copy_of(spec_parse_input(s, p)).len() <= t.len(),
        t.subrange(p2, p2 + spec_copy_of(spec_parse_input(s, p)).len()) == spec_copy_of(spec_parse_input(s, p)),
    ensures
        spec_parse_input(t, p2) == Some(
            (spec_copy_of(spec_parse_input(s, p)), p2 + spec_copy_of(spec_parse_input(s, p)).len()),
        ),
{
    let (o, _) = spec_parse_input(s, p)->0;
    let (size, p_2) = spec_var_at(s, p + 36)->0;
    let outpoint = s.subrange(p, p + 36);
    let e = spec_var_int_encode(size);
    let script = s.subrange(p_2, p_2 + size);
    let sequence = s.subrange(p_2 + size, p_2 + size + 4);
    assert(o == outpoint + e + script + sequence);
    let n = o.len() as int;
    let ne = e.len() as int;
    assert(t.subrange(p2, p2 + 36) =~= o.subrange(0, 36));
    assert(o.subrange(0, 36) =~= outpoint);
    assert(t.subrange(p2 + 36, p2 + 36 + ne) =~= o.subrange(36, 36 + ne));
    assert(o.subrange(36, 36 + ne) =~= e);
    lemma_var_at_encoding(t, p2 + 36, size);
    assert(t.subrange(p2 + 36 + ne, p2 + 36 + ne + size) =~= o.subrange(36 + ne, 36 + ne + size));
    assert(o.subrange(36 + ne, 36 + ne + size) =~= script);
    assert(t.subrange(p2 + 36 + ne + size, p2 + 36 + ne + size + 4) =~= o.subrange(
        36 + ne + size,
        n,
    ));
    assert(o.subrange(36 + ne + size, n) =~= sequence);
}

/// The copy of an output, standing anywhere, reads back as itself.
proof fn lemma_parse_output_copy(s: Seq<u8>, p: int, t: Seq<u8>, p2: int)
    requires
        spec_parse_output(s, p) is Some,
        0 <= p2,
        p2 + spec_copy_of(spec_parse_output(s, p)).len() <= t.len(),
        t.subrange(p2, p2 + spec_copy_of(spec_parse_output(s, p)).len()) == spec_copy_of(spec_parse_output(s, p)),
    ensures
        spec_parse_output(t, p2) == Some(
            (spec_copy_of(spec_parse_output(s, p)), p2 + spec_copy_of(spec_parse_output(s, p)).len()),
        ),
{
    let (o, _) = spec_parse_output(s, p)->0;
    let (size, p_2) = spec_var_at(s, p + 8)->0;
    let value = s.subrange(p, p + 8);
    let e = spec_var_int_encode(size);
    let script = s.subrange(p_2, p_2 + size);
    assert(o == value + e + script);
    let n = o.len() as int;
    let ne = e.len() as int;
    assert(t.subrange(p2, p2 + 8) =~= o.subrange(0, 8));
    assert(o.subrange(0, 8) =~= value);
    assert(t.subrange(p2 + 8, p2 + 8 + ne) =~= o.subrange(8, 8 + ne));
    assert(o.subrange(8, 8 + ne) =~= e);
    lemma_var_at_encoding(t, p2 + 8, size);
    assert(t.subrange(p2 + 8 + ne, p2 + 8 + ne + size) =~= o.subrange(8 + ne, n));
    assert(o.subrange(8 + ne, n) =~= script);
}

/// The copies of `c` inputs, standing anywhere, read back as themselves.
proof fn lemma_parse_inputs_copy(s: Seq<u8>, p: int, c: nat, t: Seq<u8>, p2: int)
    requires
        spec_parse_inputs(s, p, c) is Some,
        0 <= p2,
        p2 + spec_copy_of(spec_parse_inputs(s, p, c)).len() <= t.len(),
        t.subrange(p2, p2 + spec_copy_of(spec_parse_inputs(s, p, c)).len()) == spec_copy_of(spec_parse_inputs(
            s,
            p,
            c,
        )),
    ensures
        spec_parse_inputs(t, p2, c) == Some(
            (spec_copy_of(spec_parse_inputs(s, p, c)), p2 + spec_copy_of(spec_parse_inputs(s, p, c)).len()),
        ),
    decreases c,
{
    if c > 0 {
        let (o, _) = spec_parse_inputs(s, p, c)->0;
        let (o1, q1) = spec_parse_inputs(s, p, (c - 1) as nat)->0;
        let (o2, _) = spec_parse_input(s, q1)->0;
        assert(o == o1 + o2);
        let n1 = o1.len() as int;
        assert(t.subrange(p2, p2 + n1) =~= o.subrange(0, n1));
        assert(o.subrange(0, n1) =~= o1);
        lemma_parse_inputs_copy(s, p, (c - 1) as nat, t, p2);
        assert(t.subrange(p2 + n1, p2 + o.len()) =~= o.subrange(n1, o.len() as int));
        assert(o.subrange(n1, o.len() as int) =~= o2);
        lemma_parse_input_copy(s, q1, t, p2 + n1);
    }
}

/// The copies of `c` outputs, standing anywhere, read back as themselves.
proof fn lemma_parse_outputs_copy(s: Seq<u8>, p: int, c: nat, t: Seq<u8>, p2: int)
    requires
        spec_parse_outputs(s, p, c) is Some,
        0 <= p2,
        p2 + spec_copy_of(spec_parse_outputs(s, p, c)).len() <= t.len(),
        t.subrange(p2, p2 + spec_copy_of(spec_parse_outputs(s, p, c)).len()) == spec_copy_of(spec_parse_outputs(
            s,
            p,
            c,
        )),
    ensures
        spec_parse_outputs(t, p2, c) == Some(
            (spec_copy_of(spec_parse_outputs(s, p, c)), p2 + spec_copy_of(spec_parse_outputs(s, p, c)).len()),
        ),
    decreases c,
{
    if c > 0 {
        let (o, _) = spec_parse_outputs(s, p, c)->0;
        let (o1, q1) = spec_parse_outputs(s, p, (c - 1) as nat)->0;
        let (o2, _) = spec_parse_output(s, q1)->0;
        assert(o == o1 + o2);
        let n1 = o1.len() as int;
        assert(t.subrange(p2, p2 + n1) =~= o.subrange(0, n1));
        assert(o.subrange(0, n1) =~= o1);
        lemma_parse_outputs_copy(s, p, (c - 1) as nat, t, p2);
        assert(t.subrange(p2 + n1, p2 + o.len()) =~= o.subrange(n1, o.len() as int));
        assert(o.subrange(n1, o.len() as int) =~= o2);
        lemma_parse_output_copy(s, q1, t, p2 + n1);
    }
}

/// The copy that `read_raw_tx` makes of a transaction reads back as itself,
/// to its last byte: copying is stable.
pub proof fn lemma_raw_tx_copy_is_stable(s: Seq<u8>)
    requires
        spec_parse_tx(s) is Some,
    ensures
        spec_parse_tx(spec_copy_of(spec_parse_tx(s))) == Some(
            (spec_copy_of(spec_parse_tx(s)), spec_copy_of(spec_parse_tx(s)).len() as int),
        ),
{
    let (t, _) = spec_parse_tx(s)->0;
    let version = s.subrange(0, 4);
    let (ni, p2) = spec_var_at(s, 4)->0;
    let (inputs, p3) = spec_parse_inputs(s, p2, ni as nat)->0;
    let (no, p4) = spec_var_at(s, p3)->0;
    let (outputs, p5) = spec_parse_outputs(s, p4, no as nat)->0;
    let lock_time = s.subrange(p5, p5 + 4);
    let ei = spec_var_int_encode(ni);
    let eo = spec_var_int_encode(no);
    assert(t == version + ei + inputs + eo + outputs + lock_time);
    let a: int = 4 + ei.len() as int;
    let b: int = a + inputs.len();
    let c: int = b + eo.len();
    let d: int = c + outputs.len();
    assert(t.subrange(0, 4) =~= version);
    assert(t.subrange(4, a) =~= ei);
    lemma_var_at_encoding(t, 4, ni);
    assert(t.subrange(a, b) =~= inputs);
    lemma_parse_inputs_copy(s, p2, ni as nat, t, a);
    assert(t.subrange(b, c) =~= eo);
    lemma_var_at_encoding(t, b, no);
    assert(t.subrange(c, d) =~= outputs);
    lemma_parse_outputs_copy(s, p4, no as nat, t, c);
    assert(t.subrange(d, d + 4) =~= lock_time);
}

/// Taking bytes that lie in `s` gives the same whatever follows `s`.
proof fn lemma_take_at_prefix(s: Seq<u8>, pos: int, n: int, rest: Seq<u8>)
    requires
        spec_take_at(s, pos, n) is Some,
    ensures
        spec_take_at(s + rest, pos, n) == spec_take_at(s, pos, n),
{
    assert((s + rest).subrange(pos, pos + n) =~= s.subrange(pos, pos + n));
}

/// Reading a variable-length integer in `s` gives the same whatever follows `s`.
proof fn lemma_var_at_prefix(s: Seq<u8>, pos: int, rest: Seq<u8>)
    requires
        spec_var_at(s, pos) is Some,
    ensures
        spec_var_at(s + rest, pos) == spec_var_at(s, pos),
{
    lemma_read_var_int_at_prefix(s, pos, rest);
}

/// An input that parses in `s` parses the same whatever follows `s`.
proof fn lemma_parse_input_prefix(s: Seq<u8>, pos: int, rest: Seq<u8>)
    requires
        spec_parse_input(s, pos) is Some,
    ensures
        spec_parse_input(s + rest, pos) == spec_parse_input(s, pos),
{
    lemma_take_at_prefix(s, pos, 36, rest);
    let (size, p2) = spec_var_at(s, pos + 36)->0;
    lemma_var_at_prefix(s, pos + 36, rest);
    lemma_take_at_prefix(s, p2, size as int, rest);
    lemma_take_at_prefix(s, p2 + size, 4, rest);
}

/// An output that parses in `s` parses the same whatever follows `s`.
proof fn lemma_parse_output_prefix(s: Seq<u8>, pos: int, rest: Seq<u8>)
    requires
        spec_parse_output(s, pos) is Some,
    ensures
        spec_parse_output(s + rest, pos) == spec_parse_output(s, pos),
{
    lemma_take_at_prefix(s, pos, 8, rest);
    let (size, p2) = spec_var_at(s, pos + 8)->0;
    lemma_var_at_prefix(s, pos + 8, rest);
    lemma_take_at_prefix(s, p2, size as int, rest);
}

/// Inputs that parse in `s` parse the same whatever follows `s`.
proof fn lemma_parse_inputs_prefix(s: Seq<u8>, pos: int, c: nat, rest: Seq<u8>)
    requires
        spec_parse_inputs(s, pos, c) is Some,
    ensures
        spec_parse_inputs(s + rest, pos, c) == spec_parse_inputs(s, pos, c),
    decreases c,
{
    if c > 0 {
        lemma_parse_inputs_prefix(s, pos, (c - 1) as nat, rest);
        let (_, q) = spec_parse_inputs(s, pos, (c - 1) as nat)->0;
        lemma_parse_input_prefix(s, q, rest);
    }
}

/// Outputs that parse in `s` parse the same whatever follows `s`.
proof fn lemma_parse_outputs_prefix(s: Seq<u8>, pos: int, c: nat, rest: Seq<u8>)
    requires
        spec_parse_outputs(s, pos, c) is Some,
    ensures
        spec_parse_outputs(s + rest, pos, c) == spec_parse_outputs(s, pos, c),
    decreases c,
{
    if c > 0 {
        lemma_parse_outputs_prefix(s, pos, (c - 1) as nat, rest);
        let (_, q) = spec_parse_outputs(s, pos, (c - 1) as nat)->0;
        lemma_parse_output_prefix(s, q, rest);
    }
}

/// A transaction that reads from `s` reads the same, copy and length, whatever
/// bytes follow `s`.
pub proof fn lemma_parse_tx_prefix(s: Seq<u8>, rest: Seq<u8>)
    requires
        spec_parse_tx(s) is Some,
    ensures
        spec_parse_tx(s + rest) == spec_parse_tx(s),
{
    lemma_take_at_prefix(s, 0, 4, rest);
    let (ni, p2) = spec_var_at(s, 4)->0;
    lemma_var_at_prefix(s, 4, rest);
    lemma_parse_inputs_prefix(s, p2, ni as nat, rest);
    let (_, p3) = spec_parse_inputs(s, p2, ni as nat)->0;
    let (no, p4) = spec_var_at(s, p3)->0;
    lemma_var_at_prefix(s, p3, rest);
    lemma_parse_outputs_prefix(s, p4, no as nat, rest);
    let (_, p5) = spec_parse_outputs(s, p4, no as nat)->0;
    lemma_take_at_prefix(s, p5, 4, rest);
}

/// A transaction in the shortest form reads, from its first byte, as itself
/// whatever bytes follow it: `read_raw_tx` gives its bytes back unchanged.
pub proof fn lemma_minimal_tx_reads_back(t: Seq<u8>, rest: Seq<u8>)
    requires
        spec_parse_tx(t) == Some((t, t.len() as int)),
    ensures
        spec_parse_tx(t + rest) == Some((t, t.len() as int)),
{
    lemma_parse_tx_prefix(t, rest);
}

/// The copy that `read_raw_tx` makes, followed by any bytes, reads back as
/// itself.
pub proof fn lemma_raw_tx_copy_reads_back(s: Seq<u8>, rest: Seq<u8>)
    requires
        spec_parse_tx(s) is Some,
    ensures
        spec_parse_tx(spec_copy_of(spec_parse_tx(s)) + rest) == Some(
            (spec_copy_of(spec_parse_tx(s)), spec_copy_of(spec_parse_tx(s)).len() as int),
        ),
{
    lemma_raw_tx_copy_is_stable(s);
    lemma_minimal_tx_reads_back(spec_copy_of(spec_parse_tx(s)), rest);
}

/// The bytes of an input given by its parts: the 36-byte outpoint, the
/// script's length in the shortest form, the script, the 4-byte sequence.
pub open spec fn spec_input_bytes(input: (Seq<u8>, Seq<u8>, Seq<u8>)) -> Seq<u8> {
    let (outpoint, script, sequence) = input;
    outpoint + spec_var_int_encode(script.len() as u64) + script + sequence
}

/// Whether an input's parts have the sizes the format fixes.
pub open spec fn spec_input_wf(input: (Seq<u8>, Seq<u8>, Seq<u8>)) -> bool {
    let (outpoint, script, sequence) = input;
    outpoint.len() == 36 && sequence.len() == 4 && script.len() <= u64::MAX
}

/// The bytes of the first `n` inputs, one after the other.
pub open spec fn spec_inputs_bytes(ins: Seq<(Seq<u8>, Seq<u8>, Seq<u8>)>, n: nat) -> Seq<u8>
    decreases n,
{
    if n == 0 {
        Seq::empty()
    } else {
        spec_inputs_bytes(ins, (n - 1) as nat) + spec_input_bytes(ins[n - 1])
    }
}

/// The bytes of an output given by its parts: the 8-byte value, the script's
/// length in the shortest form, the script.
pub open spec fn spec_output_bytes(output: (Seq<u8>, Seq<u8>)) -> Seq<u8> {
    let (value, script) = output;
    value + spec_var_int_encode(script.len() as u64) + script
}

/// Whether an output's parts have the sizes the format fixes.
pub open spec fn spec_output_wf(output: (Seq<u8>, Seq<u8>)) -> bool {
    let (value, script) = output;
    value.len() == 8 && script.len() <= u64::MAX
}

/// The bytes of the first `n` outputs, one after the other.
pub open spec fn spec_outputs_bytes(outs: Seq<(Seq<u8>, Seq<u8>)>, n: nat) -> Seq<u8>
    decreases n,
{
    if n == 0 {
        Seq::empty()
    } else {
        spec_outputs_bytes(outs, (n - 1) as nat) + spec_output_bytes(outs[n - 1])
    }
}

/// The serialization of a transaction given by its parts, with every count
/// and length in the shortest form.
pub open spec fn spec_tx_bytes(
    version: Seq<u8>,
    ins: Seq<(Seq<u8>, Seq<u8>, Seq<u8>)>,
    outs: Seq<(Seq<u8>, Seq<u8>)>,
    lock_time: Seq<u8>,
) -> Seq<u8> {
    version + spec_var_int_encode(ins.len() as u64) + spec_inputs_bytes(ins, ins.len())
        + spec_var_int_encode(outs.len() as u64) + spec_outputs_bytes(outs, outs.len()) + lock_time
}

/// Whether a transaction's parts have the sizes the format fixes.
pub open spec fn spec_tx_parts_wf(
    version: Seq<u8>,
    ins: Seq<(Seq<u8>, Seq<u8>, Seq<u8>)>,
    outs: Seq<(Seq<u8>, Seq<u8>)>,
    lock_time: Seq<u8>,
) -> bool {
    &&& version.len() == 4
    &&& lock_time.len() == 4
    &&& ins.len() <= u64::MAX
    &&& outs.len() <= u64::MAX
    &&& forall|k: int| 0 <= k < ins.len() ==> #[trigger] spec_input_wf(ins[k])
    &&& forall|k: int| 0 <= k < outs.len() ==> #[trigger] spec_output_wf(outs[k])
}

/// An input's bytes, standing anywhere, read as that input.
proof fn lemma_parse_input_of_parts(x: Seq<u8>, p: int, input: (Seq<u8>, Seq<u8>, Seq<u8>))
    requires
        spec_input_wf(input),
        0 <= p,
        p + spec_input_bytes(input).len() <= x.len(),
        x.subrange(p, p + spec_input_bytes(input).len()) == spec_input_bytes(input),
    ensures
        spec_parse_input(x, p) == Some(
            (spec_input_bytes(input), p + spec_input_bytes(input).len()),
        ),
{
    let (outpoint, script, sequence) = input;
    let o = spec_input_bytes(input);
    let size = script.len() as u64;
    let e = spec_var_int_encode(size);
    let ne = e.len() as int;
    let n = o.len() as int;
    let sl = script.len() as int;
    assert(x.subrange(p, p + 36) =~= o.subrange(0, 36));
    assert(o.subrange(0, 36) =~= outpoint);
    assert(x.subrange(p + 36, p + 36 + ne) =~= o.subrange(36, 36 + ne));
    assert(o.subrange(36, 36 + ne) =~= e);
    lemma_var_at_encoding(x, p + 36, size);
    assert(x.subrange(p + 36 + ne, p + 36 + ne + sl) =~= o.subrange(36 + ne, 36 + ne + sl));
    assert(o.subrange(36 + ne, 36 + ne + sl) =~= script);
    assert(x.subrange(p + 36 + ne + sl, p + 36 + ne + sl + 4) =~= o.subrange(36 + ne + sl, n));
    assert(o.subrange(36 + ne + sl, n) =~= sequence);
}

/// An output's bytes, standing anywhere, read as that output.
proof fn lemma_parse_output_of_parts(x: Seq<u8>, p: int, output: (Seq<u8>, Seq<u8>))
    requires
        spec_output_wf(output),
        0 <= p,
        p + spec_output_bytes(output).len() <= x.len(),
        x.subrange(p, p + spec_output_bytes(output).len()) == spec_output_bytes(output),
    ensures
        spec_parse_output(x, p) == Some(
            (spec_output_bytes(output), p + spec_output_bytes(output).len()),
        ),
{
    let (value, script) = output;
    let o = spec_output_bytes(output);
    let size = script.len() as u64;
    let e = spec_var_int_encode(size);
    let ne = e.len() as int;
    let n = o.len() as int;
    assert(x.subrange(p, p + 8) =~= o.subrange(0, 8));
    assert(o.subrange(0, 8) =~= value);
    assert(x.subrange(p + 8, p + 8 + ne) =~= o.subrange(8, 8 + ne));
    assert(o.subrange(8, 8 + ne) =~= e);
    lemma_var_at_encoding(x, p + 8, size);
    assert(x.subrange(p + 8 + ne, n + p) =~= o.subrange(8 + ne, n));
    assert(o.subrange(8 + ne, n) =~= script);
}

/// The bytes of `c` inputs, standing anywhere, read as those inputs.
proof fn lemma_parse_inputs_of_parts(
    x: Seq<u8>,
    p: int,
    ins: Seq<(Seq<u8>, Seq<u8>, Seq<u8>)>,
    c: nat,
)
    requires
        c <= ins.len(),
        forall|k: int| 0 <= k < ins.len() ==> #[trigger] spec_input_wf(ins[k]),
        0 <= p,
        p + spec_inputs_bytes(ins, c).len() <= x.len(),
        x.subrange(p, p + spec_inputs_bytes(ins, c).len()) == spec_inputs_bytes(ins, c),
    ensures
        spec_parse_inputs(x, p, c) == Some(
            (spec_inputs_bytes(ins, c), p + spec_inputs_bytes(ins, c).len()),
        ),
    decreases c,
{
    if c > 0 {
        let o = spec_inputs_bytes(ins, c);
        let o1 = spec_inputs_bytes(ins, (c - 1) as nat);
        let o2 = spec_input_bytes(ins[c - 1]);
        let n1 = o1.len() as int;
        assert(x.subrange(p, p + n1) =~= o.subrange(0, n1));
        assert(o.subrange(0, n1) =~= o1);
        lemma_parse_inputs_of_parts(x, p, ins, (c - 1) as nat);
        assert(x.subrange(p + n1, p + o.len()) =~= o.subrange(n1, o.len() as int));
        assert(o.subrange(n1, o.len() as int) =~= o2);
        assert(spec_input_wf(ins[c - 1]));
        lemma_parse_input_of_parts(x, p + n1, ins[c - 1]);
    }
}

/// The bytes of `c` outputs, standing anywhere, read as those outputs.
proof fn lemma_parse_outputs_of_parts(x: Seq<u8>, p: int, outs: Seq<(Seq<u8>, Seq<u8>)>, c: nat)
    requires
        c <= outs.len(),
        forall|k: int| 0 <= k < outs.len() ==> #[trigger] spec_output_wf(outs[k]),
        0 <= p,
        p + spec_outputs_bytes(outs, c).len() <= x.len(),
        x.subrange(p, p + spec_outputs_bytes(outs, c).len()) == spec_outputs_bytes(outs, c),
    ensures
        spec_parse_outputs(x, p, c) == Some(
            (spec_outputs_bytes(outs, c), p + spec_outputs_bytes(outs, c).len()),
        ),
    decreases c,
{
    if c > 0 {
        let o = spec_outputs_bytes(outs, c);
        let o1 = spec_outputs_bytes(outs, (c - 1) as nat);
        let o2 = spec_output_bytes(outs[c - 1]);
        let n1 = o1.len() as int;
        assert(x.subrange(p, p + n1) =~= o.subrange(0, n1));
        assert(o.subrange(0, n1) =~= o1);
        lemma_parse_outputs_of_parts(x, p, outs, (c - 1) as nat);
        assert(x.subrange(p + n1, p + o.len()) =~= o.subrange(n1, o.len() as int));
        assert(o.subrange(n1, o.len() as int) =~= o2);
        assert(spec_output_wf(outs[c - 1]));
        lemma_parse_output_of_parts(x, p + n1, outs[c - 1]);
    }
}

/// `read_raw_tx` is the identity on a transaction in the shortest form: the
/// serialization of any version, inputs (outpoint, script, sequence),
/// outputs (value, script) and lock time, followed by any bytes, reads as
/// exactly that serialization, every outpoint, script, sequence, value and
/// lock time copied byte for byte.
pub proof fn lemma_read_raw_tx_copies_serialized_tx(
    version: Seq<u8>,
    ins: Seq<(Seq<u8>, Seq<u8>, Seq<u8>)>,
    outs: Seq<(Seq<u8>, Seq<u8>)>,
    lock_time: Seq<u8>,
    rest: Seq<u8>,
)
    requires
        spec_tx_parts_wf(version, ins, outs, lock_time),
    ensures
        spec_parse_tx(spec_tx_bytes(version, ins, outs, lock_time) + rest) == Some(
            (
                spec_tx_bytes(version, ins, outs, lock_time),
                spec_tx_bytes(version, ins, outs, lock_time).len() as int,
            ),
        ),
{
    let t = spec_tx_bytes(version, ins, outs, lock_time);
    let ei = spec_var_int_encode(ins.len() as u64);
    let eo = spec_var_int_encode(outs.len() as u64);
    let ib = spec_inputs_bytes(ins, ins.len());
    let ob = spec_outputs_bytes(outs, outs.len());
    let a: int = 4 + ei.len() as int;
    let b: int = a + ib.len();
    let c: int = b + eo.len();
    let d: int = c + ob.len();
    assert(t == version + ei + ib + eo + ob + lock_time);
    assert(t.subrange(0, 4) =~= version);
    assert(t.subrange(4, a) =~= ei);
    lemma_var_at_encoding(t, 4, ins.len() as u64);
    assert(t.subrange(a, b) =~= ib);
    lemma_parse_inputs_of_parts(t, a, ins, ins.len());
    assert(t.subrange(b, c) =~= eo);
    lemma_var_at_encoding(t, b, outs.len() as u64);
    assert(t.subrange(c, d) =~= ob);
    lemma_parse_outputs_of_parts(t, c, outs, outs.len());
    assert(t.subrange(d, d + 4) =~= lock_time);
    assert(spec_parse_tx(t) == Some((t, t.len() as int)));
    lemma_parse_tx_prefix(t, rest);
}

} // verus!
