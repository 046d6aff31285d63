//! Variable-length integer (LEB128) and zig-zag codecs.
//!
//! Bond encodes `uint16`/`uint32`/`uint64` as LEB128 varints and
//! `int16`/`int32`/`int64` as zig-zag-then-LEB128.

use vstd::prelude::*;
use crate::error::{agrees, eof_v, Error, ErrorV};

verus! {

/// Maximum number of bytes in a LEB128-encoded `u64`.
pub const MAX_VARINT_LEN_U64: usize = 10;

/// `128` raised to the power `n`.
pub open spec fn pow128(n: nat) -> nat
    decreases n,
{
    if n == 0 { 1 } else { 128 * pow128((n - 1) as nat) }
}

/// The canonical LEB128 encoding of `v`: seven payload bits per byte, least
/// significant group first, the high bit set on every byte but the last.
pub open spec fn leb128_encode(v: nat) -> Seq<u8>
    decreases v,
{
    if v < 128 {
        seq![v as u8]
    } else {
        seq![(v % 128 + 128) as u8] + leb128_encode(v / 128)
    }
}

/// The number that the payload bits of `s` stand for (first byte least significant).
pub open spec fn leb128_value(s: Seq<u8>) -> nat
    decreases s.len(),
{
    if s.len() == 0 {
        0
    } else {
        (s[0] % 128) as nat + 128 * leb128_value(s.drop_first())
    }
}

/// The first index `j >= i` below `MAX_VARINT_LEN_U64` at which `s` holds a byte
/// with its high bit clear.
pub open spec fn terminator_from(s: Seq<u8>, i: int) -> Option<int>
    decreases 10 - i,
{
    if i < 0 || i >= 10 || i >= s.len() {
        None
    } else if s[i] < 128 {
        Some(i)
    } else {
        terminator_from(s, i + 1)
    }
}

/// The index of the byte that ends the varint at the front of `s`, searching at
/// most `MAX_VARINT_LEN_U64` bytes.
pub open spec fn leb128_terminator(s: Seq<u8>) -> Option<int> {
    terminator_from(s, 0)
}

/// What decoding a LEB128 `u64` from the front of `buf` yields: the value and the
/// number of bytes consumed, or the error.
pub open spec fn spec_decode_u64(buf: Seq<u8>) -> Result<(u64, usize), ErrorV> {
    if buf.len() == 0 {
        Err(eof_v(1, 0))
    } else {
        match leb128_terminator(buf) {
            None => if buf.len() >= 10 {
                Err(ErrorV::VarintOverflow)
            } else {
                Err(eof_v(buf.len() + 1 as int, buf.len() as int))
            },
            Some(t) => if t == 9 && buf[9] % 128 > 1 {
                Err(ErrorV::VarintOverflow)
            } else {
                Ok((leb128_value(buf.take(t + 1)) as u64, (t + 1) as usize))
            },
        }
    }
}

/// What decoding a LEB128 `u32` from the front of `buf` yields.
pub open spec fn spec_decode_u32(buf: Seq<u8>) -> Result<(u32, usize), ErrorV> {
    match spec_decode_u64(buf) {
        Ok((v, n)) => if v > u32::MAX { Err(ErrorV::VarintOverflow) } else { Ok((v as u32, n)) },
        Err(e) => Err(e),
    }
}

/// What decoding a LEB128 `u16` from the front of `buf` yields.
pub open spec fn spec_decode_u16(buf: Seq<u8>) -> Result<(u16, usize), ErrorV> {
    match spec_decode_u64(buf) {
        Ok((v, n)) => if v > u16::MAX { Err(ErrorV::VarintOverflow) } else { Ok((v as u16, n)) },
        Err(e) => Err(e),
    }
}

/// Zig-zag mapping of a signed number to an unsigned one: `0, -1, 1, -2, 2, ...`
/// go to `0, 1, 2, 3, 4, ...`.
pub open spec fn zigzag(v: int) -> int {
    if v >= 0 { 2 * v } else { -2 * v - 1 }
}

/// The inverse of [`zigzag`].
pub open spec fn unzigzag(u: int) -> int {
    if u % 2 == 0 { u / 2 } else { -((u + 1) / 2) }
}

// ---------------------------------------------------------------------------
// Lemmas about the model
// ---------------------------------------------------------------------------

proof fn lemma_pow128_values()
    ensures
        pow128(0) == 1,
        pow128(9) == 0x8000_0000_0000_0000,
        pow128(10) == 0x40_0000_0000_0000_0000,
{
    reveal_with_fuel(pow128, 11);
}

proof fn lemma_pow128_monotone(a: nat, b: nat)
    requires
        a <= b,
    ensures
        pow128(a) <= pow128(b),
        pow128(a) >= 1,
    decreases b,
{
    lemma_pow128_positive(a);
    if b > a {
        lemma_pow128_monotone(a, (b - 1) as nat);
    }
}

proof fn lemma_pow128_positive(n: nat)
    ensures
        pow128(n) >= 1,
    decreases n,
{
    if n > 0 {
        lemma_pow128_positive((n - 1) as nat);
    }
}

/// Shape of an encoding: every byte but the last carries the continuation bit.
proof fn lemma_encode_shape(v: nat)
    ensures
        leb128_encode(v).len() >= 1,
        forall|i: int| 0 <= i < leb128_encode(v).len() - 1 ==> leb128_encode(v)[i] >= 128,
        leb128_encode(v)[leb128_encode(v).len() - 1] < 128,
        leb128_value(leb128_encode(v)) == v,
    decreases v,
{
    let e = leb128_encode(v);
    if v < 128 {
        assert(e.drop_first() =~= Seq::<u8>::empty());
        assert(e[0] == v);
        assert(leb128_value(e.drop_first()) == 0);
        assert(leb128_value(e) == (e[0] % 128) as nat + 128 * leb128_value(e.drop_first()));
    } else {
        lemma_encode_shape(v / 128);
        let t = leb128_encode(v / 128);
        assert(e.drop_first() =~= t);
        assert(e[0] == v % 128 + 128);
        assert(e[0] % 128 == v % 128);
        assert(v == v % 128 + 128 * (v / 128));
        assert(leb128_value(e) == (e[0] % 128) as nat + 128 * leb128_value(e.drop_first()));
        assert forall|i: int| 0 <= i < e.len() - 1 implies e[i] >= 128 by {
            if i > 0 {
                assert(e[i] == t[i - 1]);
            }
        }
    }
}

/// An encoding is at most as long as the number of 7-bit groups `v` needs.
proof fn lemma_encode_len_bound(v: nat, n: nat)
    requires
        n >= 1,
        v < pow128(n),
    ensures
        leb128_encode(v).len() <= n,
    decreases v,
{
    if v >= 128 {
        if n == 1 {
            assert(pow128(1) == 128) by { reveal_with_fuel(pow128, 2); }
        }
        assert(n >= 2);
        assert(v / 128 < pow128((n - 1) as nat));
        lemma_encode_len_bound(v / 128, (n - 1) as nat);
    }
}

/// The last byte of an encoding, weighted by its position, does not exceed `v`.
proof fn lemma_encode_last_byte(v: nat)
    ensures
        (leb128_encode(v).last() as nat) * pow128((leb128_encode(v).len() - 1) as nat) <= v,
    decreases v,
{
    let e = leb128_encode(v);
    if v < 128 {
        assert(e.len() == 1);
        assert(pow128(0) == 1);
        assert(e.last() == v);
        assert((e.len() - 1) as nat == 0nat);
        assert(pow128((e.len() - 1) as nat) == 1);
    } else {
        lemma_encode_last_byte(v / 128);
        let t = leb128_encode(v / 128);
        lemma_encode_shape(v / 128);
        assert(e =~= seq![(v % 128 + 128) as u8] + t);
        assert(e.len() == t.len() + 1);
        assert(e.last() == t.last());
        let l = t.last() as nat;
        let p = pow128((t.len() - 1) as nat);
        assert(pow128((e.len() - 1) as nat) == 128 * p);
        assert(l * p <= v / 128);
        assert(l * (128 * p) <= v) by (nonlinear_arith)
            requires l * p <= v / 128, v >= 128;
        assert((e.last() as nat) * pow128((e.len() - 1) as nat) == l * (128 * p));
    }
}

/// Every value of `u64` encodes in at most ten bytes, and a ten-byte encoding ends
/// with a byte of payload at most one.
pub proof fn lemma_encode_u64_bounds(v: u64)
    ensures
        1 <= leb128_encode(v as nat).len() <= 10,
        leb128_encode(v as nat).len() == 10 ==> leb128_encode(v as nat)[9] <= 1,
{
    lemma_pow128_values();
    lemma_encode_shape(v as nat);
    lemma_encode_len_bound(v as nat, 10);
    let e = leb128_encode(v as nat);
    if e.len() == 10 {
        lemma_encode_last_byte(v as nat);
        let l = e.last() as nat;
        assert(l * 0x8000_0000_0000_0000 <= v);
        assert(l <= 1) by (nonlinear_arith)
            requires l * 0x8000_0000_0000_0000 <= v, v < 0x1_0000_0000_0000_0000nat;
    }
}

/// The encoding of `v` has as many bytes as the fewest 7-bit groups that hold
/// `v`: `v < 128^len`, and, for more than one byte, `128^(len - 1) <= v`. So the
/// length is 1 for `v < 128` and `ceil(bits(v) / 7)` otherwise.
pub proof fn lemma_encode_len_exact(v: nat)
    ensures
        v < pow128(leb128_encode(v).len()),
        leb128_encode(v).len() > 1 ==> pow128((leb128_encode(v).len() - 1) as nat) <= v,
    decreases v,
{
    lemma_encode_shape(v);
    if v < 128 {
        assert(pow128(1) == 128) by { reveal_with_fuel(pow128, 2); }
    } else {
        lemma_encode_len_exact(v / 128);
        lemma_encode_shape(v / 128);
        let m = leb128_encode(v / 128).len();
        assert(leb128_encode(v).len() == m + 1);
        assert(pow128((m + 1) as nat) == 128 * pow128(m));
        assert(v < 128 * pow128(m)) by (nonlinear_arith)
            requires v / 128 < pow128(m), v >= 0;
        if m > 1 {
            assert(pow128(m) == 128 * pow128((m - 1) as nat));
            assert(128 * pow128((m - 1) as nat) <= v) by (nonlinear_arith)
                requires pow128((m - 1) as nat) <= v / 128, v >= 0;
        } else {
            assert(pow128(1) == 128) by { reveal_with_fuel(pow128, 2); }
        }
    }
}

/// A `u32` encodes in one to five bytes, each but the last with its high bit set.
pub proof fn lemma_encode_u32_shape(v: u32)
    ensures
        1 <= leb128_encode(v as nat).len() <= 5,
        forall|i: int| 0 <= i < leb128_encode(v as nat).len() - 1 ==> leb128_encode(v as nat)[i] >= 0x80,
        leb128_encode(v as nat)[leb128_encode(v as nat).len() - 1] < 0x80,
{
    lemma_encode_shape(v as nat);
    assert(pow128(5) == 0x8_0000_0000) by { reveal_with_fuel(pow128, 6); }
    lemma_encode_len_bound(v as nat, 5);
}

proof fn lemma_terminator_of_encoding(e: Seq<u8>, rest: Seq<u8>, i: int)
    requires
        1 <= e.len() <= 10,
        0 <= i < e.len(),
        forall|j: int| 0 <= j < e.len() - 1 ==> e[j] >= 128,
        e[e.len() - 1] < 128,
    ensures
        terminator_from(e + rest, i) == Some(e.len() - 1),
    decreases 10 - i,
{
    if i < e.len() - 1 {
        lemma_terminator_of_encoding(e, rest, i + 1);
    }
}

/// A value's payload bits never exceed the room that its length gives them.
proof fn lemma_value_bound(s: Seq<u8>)
    ensures
        leb128_value(s) < pow128(s.len()),
    decreases s.len(),
{
    if s.len() > 0 {
        lemma_value_bound(s.drop_first());
        let r = leb128_value(s.drop_first());
        let p = pow128((s.len() - 1) as nat);
        assert(128 * r <= 128 * (p - 1)) by (nonlinear_arith)
            requires r < p;
    }
}

/// A ten-byte varint whose last payload is at most one fits in 64 bits.
proof fn lemma_value_bound_top(s: Seq<u8>)
    requires
        s.len() >= 1,
    ensures
        leb128_value(s) < pow128((s.len() - 1) as nat) * ((s.last() % 128) as nat + 1),
    decreases s.len(),
{
    let t = s.drop_first();
    if s.len() == 1 {
        assert(t.len() == 0);
        assert(leb128_value(t) == 0);
        assert((s.len() - 1) as nat == 0nat);
        assert(pow128((s.len() - 1) as nat) == 1);
        assert(s.last() == s[0]);
        assert(leb128_value(s) == (s[0] % 128) as nat);
    } else {
        lemma_value_bound_top(t);
        assert(t.last() == s.last());
        let r = leb128_value(t);
        let p = pow128((t.len() - 1) as nat);
        let l = (s.last() % 128) as nat + 1;
        let h = (s[0] % 128) as nat;
        assert(pow128((s.len() - 1) as nat) == 128 * p);
        assert(leb128_value(s) == h + 128 * r);
        assert(h + 128 * r < (128 * p) * l) by (nonlinear_arith)
            requires r < p * l, h < 128;
        assert(pow128((s.len() - 1) as nat) * l == (128 * p) * l);
    }
}

/// Decoding the encoding of a `u64`, whatever follows it, gives the value back
/// and consumes exactly the encoding.
pub proof fn lemma_leb128_roundtrip(v: u64, rest: Seq<u8>)
    ensures
        spec_decode_u64(leb128_encode(v as nat) + rest) == Ok::<(u64, usize), ErrorV>(
            (v, leb128_encode(v as nat).len() as usize),
        ),
{
    let e = leb128_encode(v as nat);
    let buf = e + rest;
    lemma_encode_shape(v as nat);
    lemma_encode_u64_bounds(v);
    lemma_terminator_of_encoding(e, rest, 0);
    assert(buf.take(e.len() as int) =~= e);
    assert(buf[e.len() - 1] == e[e.len() - 1]);
}

/// Decoding the encoding of a `u32` as a `u32` gives the value back.
pub proof fn lemma_leb128_roundtrip_u32(v: u32, rest: Seq<u8>)
    ensures
        spec_decode_u32(leb128_encode(v as nat) + rest) == Ok::<(u32, usize), ErrorV>(
            (v, leb128_encode(v as nat).len() as usize),
        ),
{
    lemma_leb128_roundtrip(v as u64, rest);
}

/// Decoding the encoding of a `u16` as a `u16` gives the value back.
pub proof fn lemma_leb128_roundtrip_u16(v: u16, rest: Seq<u8>)
    ensures
        spec_decode_u16(leb128_encode(v as nat) + rest) == Ok::<(u16, usize), ErrorV>(
            (v, leb128_encode(v as nat).len() as usize),
        ),
{
    lemma_leb128_roundtrip(v as u64, rest);
}

/// Zig-zag decoding undoes zig-zag encoding, and the other way round.
pub proof fn lemma_zigzag_roundtrip(v: int, u: int)
    requires
        u >= 0,
    ensures
        unzigzag(zigzag(v)) == v,
        zigzag(unzigzag(u)) == u,
        zigzag(v) >= 0,
{
}

// ---------------------------------------------------------------------------
// Executable codecs
// ---------------------------------------------------------------------------

/// Returns the index of the first byte in `buf` whose high bit is clear (the last
/// byte of a LEB128 varint), searching at most `MAX_VARINT_LEN_U64` bytes.
pub fn first_terminator(buf: &[u8]) -> (r: Option<usize>)
    ensures
        match leb128_terminator(buf@) {
            Some(i) => r == Some(i as usize),
            None => r is None,
        },
{
    let n = if buf.len() < MAX_VARINT_LEN_U64 { buf.len() } else { MAX_VARINT_LEN_U64 };
    let mut i: usize = 0;
    while i < n
        invariant
            i <= n,
            n <= 10,
            n <= buf@.len(),
            n == buf@.len() || n == 10,
            leb128_terminator(buf@) == terminator_from(buf@, i as int),
        decreases n - i,
    {
        if buf[i] & 0x80 == 0 {
            let b = buf[i];
            assert(b & 0x80 == 0 <==> b < 128) by (bit_vector);
            return Some(i);
        }
        let b = buf[i];
        assert(b & 0x80 == 0 <==> b < 128) by (bit_vector);
        i = i + 1;
    }
    None
}

/// Decodes a LEB128 `u64` from the front of `buf`, returning the value and the
/// number of bytes consumed.
pub fn decode_u64(buf: &[u8]) -> (r: Result<(u64, usize), Error>)
    ensures
        agrees(r, spec_decode_u64(buf@)),
{
    if buf.len() == 0 {
        return Err(Error::eof(1, 0));
    }
    let term = match first_terminator(buf) {
        Some(idx) => idx,
        None => {
            if buf.len() >= MAX_VARINT_LEN_U64 {
                return Err(Error::VarintOverflow);
            }
            return Err(Error::eof(buf.len() + 1, buf.len()));
        },
    };
    proof {
        let s = buf@;
        lemma_terminator_range(s, 0);
    }
    let len = term + 1;
    if len > MAX_VARINT_LEN_U64 {
        return Err(Error::VarintOverflow);
    }
    let last = buf[term];
    // The tenth byte of a u64 varint may carry only a single payload bit.
    if term == 9 && (last & 0x7f) > 0x01 {
        assert(last & 0x7f == last % 128) by (bit_vector);
        return Err(Error::VarintOverflow);
    }
    assert(last & 0x7f == last % 128) by (bit_vector);
    let mut value: u128 = 0;
    let mut k: usize = 0;
    proof {
        lemma_pow128_values();
        assert(buf@.subrange(len as int, len as int) =~= Seq::<u8>::empty());
    }
    while k < len
        invariant
            k <= len,
            len == term + 1,
            len <= 10,
            len <= buf@.len(),
            value == leb128_value(buf@.subrange(len - k, len as int)),
            value < pow128(k as nat),
        decreases len - k,
    {
        let j = term - k;
        let b = buf[j];
        proof {
            let s = buf@.subrange(j as int, len as int);
            assert(s.drop_first() =~= buf@.subrange(len - k, len as int));
            assert(b & 0x7f == b % 128) by (bit_vector);
            lemma_pow128_values();
            lemma_pow128_monotone(k as nat, 9);
            assert(128 * value < 128 * pow128(k as nat)) by (nonlinear_arith)
                requires value < pow128(k as nat);
        }
        value = (b & 0x7f) as u128 + 128 * value;
        k = k + 1;
    }
    proof {
        let s = buf@.take(len as int);
        assert(buf@.subrange(0, len as int) =~= s);
        lemma_pow128_values();
        if term < 9 {
            lemma_pow128_monotone(len as nat, 9);
        } else {
            lemma_value_bound_top(s);
            assert(s.last() == last);
        }
    }
    Ok((value as u64, len))
}

pub proof fn lemma_terminator_range(s: Seq<u8>, i: int)
    requires
        0 <= i <= 10,
    ensures
        terminator_from(s, i) matches Some(t) ==> (i <= t < 10 && t < s.len() && s[t] < 128),
    decreases 10 - i,
{
    if i < 10 && i < s.len() && s[i] >= 128 {
        lemma_terminator_range(s, i + 1);
    }
}

/// Decodes a LEB128 `u32`, rejecting values that do not fit with
/// [`Error::VarintOverflow`].
pub fn decode_u32(buf: &[u8]) -> (r: Result<(u32, usize), Error>)
    ensures
        agrees(r, spec_decode_u32(buf@)),
{
    let (v, n) = decode_u64(buf)?;
    if v > u32::MAX as u64 {
        return Err(Error::VarintOverflow);
    }
    Ok((v as u32, n))
}

/// Decodes a LEB128 `u16`, rejecting values that do not fit with
/// [`Error::VarintOverflow`].
pub fn decode_u16(buf: &[u8]) -> (r: Result<(u16, usize), Error>)
    ensures
        agrees(r, spec_decode_u16(buf@)),
{
    let (v, n) = decode_u64(buf)?;
    if v > u16::MAX as u64 {
        return Err(Error::VarintOverflow);
    }
    Ok((v as u16, n))
}

/// Number of bytes the LEB128 encoding of `value` occupies.
pub fn encoded_len_u64(value: u64) -> (r: usize)
    ensures
        r == leb128_encode(value as nat).len(),
        1 <= r <= 10,
        value < pow128(r as nat),
        r > 1 ==> pow128((r - 1) as nat) <= value,
{
    proof {
        lemma_encode_u64_bounds(value);
        lemma_encode_len_exact(value as nat);
    }
    let mut v = value;
    let mut len: usize = 1;
    while v >= 0x80
        invariant
            leb128_encode(value as nat).len() == (len - 1) + leb128_encode(v as nat).len(),
            leb128_encode(value as nat).len() <= 10,
            len >= 1,
        decreases v,
    {
        proof {
            assert(v >> 7 == v / 128) by (bit_vector);
            lemma_encode_shape((v / 128) as nat);
        }
        v = v >> 7;
        len = len + 1;
    }
    len
}

/// Appends the LEB128 encoding of `value` to `out`.
pub fn encode_u64(value: u64, out: &mut Vec<u8>)
    ensures
        final(out)@ == old(out)@ + leb128_encode(value as nat),
{
    let mut v = value;
    loop
        invariant_except_break
            old(out)@ + leb128_encode(value as nat) == out@ + leb128_encode(v as nat),
        ensures
            out@ == old(out)@ + leb128_encode(value as nat),
        decreases v,
    {
        let byte = (v & 0x7f) as u8;
        let ghost old_out = out@;
        let ghost old_v = v;
        proof {
            assert(v & 0x7f == v % 128) by (bit_vector);
            assert(v >> 7 == v / 128) by (bit_vector);
            assert(((v & 0x7f) as u8 | 0x80) == (v % 128 + 128) as u8) by (bit_vector);
        }
        v = v >> 7;
        if v != 0 {
            out.push(byte | 0x80);
            proof {
                assert(leb128_encode(old_v as nat) =~= seq![(old_v % 128 + 128) as u8]
                    + leb128_encode(v as nat));
                assert(out@ + leb128_encode(v as nat) =~= old_out + leb128_encode(old_v as nat));
            }
        } else {
            out.push(byte);
            proof {
                assert(out@ =~= old_out + leb128_encode(old_v as nat));
            }
            break;
        }
    }
}

/// Appends the LEB128 encoding of a `u32`.
pub fn encode_u32(value: u32, out: &mut Vec<u8>)
    ensures
        final(out)@ == old(out)@ + leb128_encode(value as nat),
        1 <= final(out)@.len() - old(out)@.len() <= 5,
        forall|i: int| old(out)@.len() <= i < final(out)@.len() - 1 ==> final(out)@[i] >= 0x80,
        final(out)@[final(out)@.len() - 1] < 0x80,
{
    proof { lemma_encode_u32_shape(value); }
    encode_u64(value as u64, out);
    proof {
        let e = leb128_encode(value as nat);
        assert forall|i: int| old(out)@.len() <= i < out@.len() - 1 implies out@[i] >= 0x80 by {
            assert(out@[i] == e[i - old(out)@.len()]);
        }
        assert(out@[out@.len() - 1] == e[e.len() - 1]);
    }
}

/// Appends the LEB128 encoding of a `u16`.
pub fn encode_u16(value: u16, out: &mut Vec<u8>)
    ensures
        final(out)@ == old(out)@ + leb128_encode(value as nat),
{
    encode_u64(value as u64, out);
}

// ---------------------------------------------------------------------------
// Zig-zag
// ---------------------------------------------------------------------------

/// Zig-zag encodes a signed 64-bit integer to unsigned.
pub fn zigzag_encode_i64(v: i64) -> (r: u64)
    ensures
        r as int == zigzag(v as int),
{
    assert(((v << 1) ^ (v >> 63)) as u64 == (if v >= 0 { (2 * v) as u64 } else { (-2 * v - 1) as u64 })) by (bit_vector);
    ((v << 1) ^ (v >> 63)) as u64
}

/// Zig-zag decodes an unsigned 64-bit integer to signed.
pub fn zigzag_decode_i64(v: u64) -> (r: i64)
    ensures
        r as int == unzigzag(v as int),
{
    let h = (v >> 1) as i64;
    assert(v & 1 <= 1) by (bit_vector);
    let m = -((v & 1) as i64);
    let r = h ^ m;
    assert(v >> 1 == v / 2) by (bit_vector);
    assert(v & 1 == v % 2) by (bit_vector);
    assert((v >> 1) as i64 == (v >> 1)) by (bit_vector);
    if v & 1 == 0 {
        assert(h ^ 0i64 == h) by (bit_vector);
    } else {
        assert(h ^ -1i64 == -1 - h) by (bit_vector);
    }
    r
}

/// Zig-zag encodes a signed 32-bit integer.
pub fn zigzag_encode_i32(v: i32) -> (r: u32)
    ensures
        r as int == zigzag(v as int),
{
    assert(((v << 1) ^ (v >> 31)) as u32 == (if v >= 0 { (2 * v) as u32 } else { (-2 * v - 1) as u32 })) by (bit_vector);
    ((v << 1) ^ (v >> 31)) as u32
}

/// Zig-zag decodes to a signed 32-bit integer.
pub fn zigzag_decode_i32(v: u32) -> (r: i32)
    ensures
        r as int == unzigzag(v as int),
{
    let h = (v >> 1) as i32;
    assert(v & 1 <= 1) by (bit_vector);
    let m = -((v & 1) as i32);
    let r = h ^ m;
    assert(v >> 1 == v / 2) by (bit_vector);
    assert(v & 1 == v % 2) by (bit_vector);
    assert((v >> 1) as i32 == (v >> 1)) by (bit_vector);
    if v & 1 == 0 {
        assert(h ^ 0i32 == h) by (bit_vector);
    } else {
        assert(h ^ -1i32 == -1 - h) by (bit_vector);
    }
    r
}

/// Zig-zag encodes a signed 16-bit integer.
pub fn zigzag_encode_i16(v: i16) -> (r: u16)
    ensures
        r as int == zigzag(v as int),
{
    assert(((v << 1) ^ (v >> 15)) as u16 == (if v >= 0 { (2 * v) as u16 } else { (-2 * v - 1) as u16 })) by (bit_vector);
    ((v << 1) ^ (v >> 15)) as u16
}

/// Zig-zag decodes to a signed 16-bit integer.
pub fn zigzag_decode_i16(v: u16) -> (r: i16)
    ensures
        r as int == unzigzag(v as int),
{
    let h = (v >> 1) as i16;
    assert(v & 1 <= 1) by (bit_vector);
    let m = -((v & 1) as i16);
    let r = h ^ m;
    assert(v >> 1 == v / 2) by (bit_vector);
    assert(v & 1 == v % 2) by (bit_vector);
    assert((v >> 1) as i16 == (v >> 1)) by (bit_vector);
    if v & 1 == 0 {
        assert(h ^ 0i16 == h) by (bit_vector);
    } else {
        assert(h ^ -1i16 == -1 - h) by (bit_vector);
    }
    r
}

} // verus!
