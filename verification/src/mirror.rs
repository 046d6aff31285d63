//! The writer is the mirror of the reader: what a [`Writer`](crate::Writer)
//! primitive appends, the matching [`Reader`](crate::Reader) read at the same
//! position gives back, whatever came before it and whatever follows.
//!
//! Each law is stated over the models that the two calls' contracts use: a
//! writer whose bytes were `before` holds `before + enc` after the write, and a
//! reader at position `before.len()` over `before + enc + after` reads as the
//! `rd_*` function of that input and position says.

use vstd::prelude::*;
use vstd::bytes::{
    lemma_auto_spec_u16_to_from_le_bytes, lemma_auto_spec_u32_to_from_le_bytes,
    lemma_auto_spec_u64_to_from_le_bytes, spec_u16_to_le_bytes, spec_u32_to_le_bytes,
    spec_u64_to_le_bytes,
};
use crate::error::ErrorV;
use crate::reader::{
    rd_le_u16, rd_le_u32, rd_le_u64, rd_varint_u16, rd_varint_u32, rd_varint_u64, rd_zigzag_i16,
    rd_zigzag_i32, rd_zigzag_i64,
};
use crate::varint::{
    leb128_encode, lemma_encode_u64_bounds, lemma_leb128_roundtrip, lemma_leb128_roundtrip_u16,
    lemma_leb128_roundtrip_u32, lemma_zigzag_roundtrip, unzigzag, zigzag,
};

verus! {

/// The input left after `before` and `x` in `before + x + after`.
proof fn lemma_tail(before: Seq<u8>, x: Seq<u8>, after: Seq<u8>)
    ensures
        (before + x + after).subrange(before.len() as int, (before + x + after).len() as int)
            == x + after,
        (before + x + after).subrange(before.len() as int, before.len() + x.len() as int) == x,
{
    let d = before + x + after;
    assert(d.subrange(before.len() as int, d.len() as int) =~= x + after);
    assert(d.subrange(before.len() as int, before.len() + x.len() as int) =~= x);
}

/// `write_varint_u64(v)` followed by `read_varint_u64()` at the same position
/// gives `v` back and moves past exactly the bytes written.
pub proof fn lemma_varint_u64_reads_back(before: Seq<u8>, v: u64, after: Seq<u8>)
    ensures
        rd_varint_u64(before + leb128_encode(v as nat) + after, before.len() as int)
            == Ok::<(u64, int), ErrorV>((v, before.len() as int + leb128_encode(v as nat).len())),
{
    let e = leb128_encode(v as nat);
    lemma_tail(before, e, after);
    lemma_encode_u64_bounds(v);
    lemma_leb128_roundtrip(v, after);
}

/// `write_varint_u32(v)` followed by `read_varint_u32()` at the same position
/// gives `v` back and moves past exactly the bytes written.
pub proof fn lemma_varint_u32_reads_back(before: Seq<u8>, v: u32, after: Seq<u8>)
    ensures
        rd_varint_u32(before + leb128_encode(v as nat) + after, before.len() as int)
            == Ok::<(u32, int), ErrorV>((v, before.len() as int + leb128_encode(v as nat).len())),
{
    let e = leb128_encode(v as nat);
    lemma_tail(before, e, after);
    lemma_encode_u64_bounds(v as u64);
    lemma_leb128_roundtrip_u32(v, after);
}

/// `write_varint_u16(v)` followed by `read_varint_u16()` at the same position
/// gives `v` back and moves past exactly the bytes written.
pub proof fn lemma_varint_u16_reads_back(before: Seq<u8>, v: u16, after: Seq<u8>)
    ensures
        rd_varint_u16(before + leb128_encode(v as nat) + after, before.len() as int)
            == Ok::<(u16, int), ErrorV>((v, before.len() as int + leb128_encode(v as nat).len())),
{
    let e = leb128_encode(v as nat);
    lemma_tail(before, e, after);
    lemma_encode_u64_bounds(v as u64);
    lemma_leb128_roundtrip_u16(v, after);
}

/// `write_zigzag_i64(v)` followed by `read_zigzag_i64()` at the same position
/// gives `v` back and moves past exactly the bytes written.
pub proof fn lemma_zigzag_i64_reads_back(before: Seq<u8>, v: i64, after: Seq<u8>)
    ensures
        rd_zigzag_i64(before + leb128_encode(zigzag(v as int) as nat) + after, before.len() as int)
            == Ok::<(i64, int), ErrorV>(
            (v, before.len() as int + leb128_encode(zigzag(v as int) as nat).len()),
        ),
{
    let z = zigzag(v as int);
    lemma_zigzag_roundtrip(v as int, 0);
    assert(0 <= z <= u64::MAX);
    let u = z as u64;
    assert(u as nat == z as nat);
    lemma_varint_u64_reads_back(before, u, after);
    assert(unzigzag(u as int) == v as int);
}

/// `write_zigzag_i32(v)` followed by `read_zigzag_i32()` at the same position
/// gives `v` back and moves past exactly the bytes written.
pub proof fn lemma_zigzag_i32_reads_back(before: Seq<u8>, v: i32, after: Seq<u8>)
    ensures
        rd_zigzag_i32(before + leb128_encode(zigzag(v as int) as nat) + after, before.len() as int)
            == Ok::<(i32, int), ErrorV>(
            (v, before.len() as int + leb128_encode(zigzag(v as int) as nat).len()),
        ),
{
    let z = zigzag(v as int);
    lemma_zigzag_roundtrip(v as int, 0);
    assert(0 <= z <= u32::MAX);
    let u = z as u32;
    assert(u as nat == z as nat);
    lemma_varint_u32_reads_back(before, u, after);
    assert(unzigzag(u as int) == v as int);
}

/// `write_zigzag_i16(v)` followed by `read_zigzag_i16()` at the same position
/// gives `v` back and moves past exactly the bytes written.
pub proof fn lemma_zigzag_i16_reads_back(before: Seq<u8>, v: i16, after: Seq<u8>)
    ensures
        rd_zigzag_i16(before + leb128_encode(zigzag(v as int) as nat) + after, before.len() as int)
            == Ok::<(i16, int), ErrorV>(
            (v, before.len() as int + leb128_encode(zigzag(v as int) as nat).len()),
        ),
{
    let z = zigzag(v as int);
    lemma_zigzag_roundtrip(v as int, 0);
    assert(0 <= z <= u16::MAX);
    let u = z as u16;
    assert(u as nat == z as nat);
    lemma_varint_u16_reads_back(before, u, after);
    assert(unzigzag(u as int) == v as int);
}

/// `write_le_u16(v)` followed by `read_le_u16()` at the same position gives `v`
/// back and moves past the two bytes written.
pub proof fn lemma_le_u16_reads_back(before: Seq<u8>, v: u16, after: Seq<u8>)
    ensures
        rd_le_u16(before + spec_u16_to_le_bytes(v) + after, before.len() as int)
            == Ok::<(u16, int), ErrorV>((v, before.len() as int + 2)),
{
    lemma_auto_spec_u16_to_from_le_bytes();
    lemma_tail(before, spec_u16_to_le_bytes(v), after);
}

/// `write_le_u32(v)` followed by `read_le_u32()` at the same position gives `v`
/// back and moves past the four bytes written.
pub proof fn lemma_le_u32_reads_back(before: Seq<u8>, v: u32, after: Seq<u8>)
    ensures
        rd_le_u32(before + spec_u32_to_le_bytes(v) + after, before.len() as int)
            == Ok::<(u32, int), ErrorV>((v, before.len() as int + 4)),
{
    lemma_auto_spec_u32_to_from_le_bytes();
    lemma_tail(before, spec_u32_to_le_bytes(v), after);
}

/// `write_le_u64(v)` followed by `read_le_u64()` at the same position gives `v`
/// back and moves past the eight bytes written.
pub proof fn lemma_le_u64_reads_back(before: Seq<u8>, v: u64, after: Seq<u8>)
    ensures
        rd_le_u64(before + spec_u64_to_le_bytes(v) + after, before.len() as int)
            == Ok::<(u64, int), ErrorV>((v, before.len() as int + 8)),
{
    lemma_auto_spec_u64_to_from_le_bytes();
    lemma_tail(before, spec_u64_to_le_bytes(v), after);
}

} // verus!
