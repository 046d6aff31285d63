//! Reads look only at the bytes they consume: a read or skip that succeeds on an
//! input succeeds the same way, to the same position, on any longer input that
//! starts with it.

use vstd::prelude::*;
use crate::constants::{BondDataType, DEFAULT_MAX_DEPTH};
use crate::error::ErrorV;
use crate::reader::{
    rd_bytes, rd_le_u16, rd_le_u32, rd_le_u64, rd_u8, rd_utf16, rd_utf8, rd_varint_u16, rd_varint_u32,
    rd_varint_u64, rd_zigzag_i16, rd_zigzag_i32, rd_zigzag_i64,
};
use crate::varint::{leb128_terminator, spec_decode_u64, terminator_from};
use super::{
    lemma_leaf_within, lemma_skip_progress, sp_container_begin, sp_fast_skip, sp_field_begin, sp_i16, sp_i32,
    sp_i64, sp_map_begin, sp_skip, sp_skip_elems, sp_skip_entries, sp_skip_fields, sp_skip_struct_body, sp_str,
    sp_struct_begin, sp_type_byte, sp_u16, sp_u32, sp_u64, sp_wstr, TaggedKind,
};

verus! {

/// Where the read `r1` succeeds, `r2` gives the same value and position.
pub open spec fn kept<T>(r1: Result<(T, int), ErrorV>, r2: Result<(T, int), ErrorV>) -> bool {
    r1 is Ok ==> r2 == r1
}

proof fn lemma_terminator_kept(s: Seq<u8>, e: Seq<u8>, i: int)
    requires
        0 <= i <= 10,
    ensures
        terminator_from(s, i) is Some ==> terminator_from(s + e, i) == terminator_from(s, i),
    decreases 10 - i,
{
    if 0 <= i < 10 && i < s.len() {
        assert((s + e)[i] == s[i]);
        if s[i] >= 128 {
            lemma_terminator_kept(s, e, i + 1);
        }
    }
}

proof fn lemma_decode_kept(s: Seq<u8>, e: Seq<u8>)
    ensures
        spec_decode_u64(s) is Ok ==> spec_decode_u64(s + e) == spec_decode_u64(s),
{
    if spec_decode_u64(s) is Ok {
        lemma_terminator_kept(s, e, 0);
        let t = leb128_terminator(s)->Some_0;
        crate::varint::lemma_terminator_range(s, 0);
        assert((s + e)[t] == s[t]);
        if t == 9 {
            assert((s + e)[9] == s[9]);
        }
        assert((s + e).take(t + 1) =~= s.take(t + 1));
    }
}

/// Reading `n` bytes only looks at those bytes.
pub proof fn lemma_bytes_kept(d: Seq<u8>, e: Seq<u8>, p: int, n: int)
    requires
        0 <= p <= d.len(),
        n >= 0,
    ensures
        kept(rd_bytes(d, p, n), rd_bytes(d + e, p, n)),
{
    if d.len() - p >= n {
        assert((d + e).subrange(p, p + n) =~= d.subrange(p, p + n));
    }
}

/// The fixed-width and LEB128 reads only look at the bytes they consume.
pub proof fn lemma_primitive_kept(d: Seq<u8>, e: Seq<u8>, p: int)
    requires
        0 <= p <= d.len(),
    ensures
        kept(rd_u8(d, p), rd_u8(d + e, p)),
        kept(rd_le_u16(d, p), rd_le_u16(d + e, p)),
        kept(rd_le_u32(d, p), rd_le_u32(d + e, p)),
        kept(rd_le_u64(d, p), rd_le_u64(d + e, p)),
        kept(rd_varint_u64(d, p), rd_varint_u64(d + e, p)),
        kept(rd_varint_u32(d, p), rd_varint_u32(d + e, p)),
        kept(rd_varint_u16(d, p), rd_varint_u16(d + e, p)),
        kept(rd_zigzag_i64(d, p), rd_zigzag_i64(d + e, p)),
        kept(rd_zigzag_i32(d, p), rd_zigzag_i32(d + e, p)),
        kept(rd_zigzag_i16(d, p), rd_zigzag_i16(d + e, p)),
{
    if p < d.len() {
        assert((d + e)[p] == d[p]);
    }
    lemma_bytes_kept(d, e, p, 2);
    lemma_bytes_kept(d, e, p, 4);
    lemma_bytes_kept(d, e, p, 8);
    let s = d.subrange(p, d.len() as int);
    assert((d + e).subrange(p, (d + e).len() as int) =~= s + e);
    lemma_decode_kept(s, e);
}

/// The reads that make up the tagged formats only look at the bytes they consume.
pub proof fn lemma_leaf_kept(k: TaggedKind, d: Seq<u8>, e: Seq<u8>, p: int)
    requires
        0 <= p <= d.len(),
    ensures
        kept(rd_u8(d, p), rd_u8(d + e, p)),
        kept(rd_le_u32(d, p), rd_le_u32(d + e, p)),
        kept(rd_le_u64(d, p), rd_le_u64(d + e, p)),
        kept(sp_u16(k, d, p), sp_u16(k, d + e, p)),
        kept(sp_u32(k, d, p), sp_u32(k, d + e, p)),
        kept(sp_u64(k, d, p), sp_u64(k, d + e, p)),
        kept(sp_i16(k, d, p), sp_i16(k, d + e, p)),
        kept(sp_i32(k, d, p), sp_i32(k, d + e, p)),
        kept(sp_i64(k, d, p), sp_i64(k, d + e, p)),
        kept(sp_str(d, p), sp_str(d + e, p)),
        kept(sp_wstr(d, p), sp_wstr(d + e, p)),
        kept(sp_struct_begin(k, d, p), sp_struct_begin(k, d + e, p)),
        kept(sp_field_begin(k, d, p), sp_field_begin(k, d + e, p)),
        kept(sp_container_begin(k, d, p), sp_container_begin(k, d + e, p)),
        kept(sp_map_begin(d, p), sp_map_begin(d + e, p)),
        kept(sp_fast_skip(k, d, p), sp_fast_skip(k, d + e, p)),
{
    lemma_primitive_kept(d, e, p);
    lemma_leaf_within(k, d, p);
    if p + 1 <= d.len() {
        lemma_primitive_kept(d, e, p + 1);
        if p + 2 <= d.len() {
            lemma_primitive_kept(d, e, p + 2);
        }
    }
    super::lemma_varint_within(d, p);
    if let Ok((n, q)) = rd_varint_u32(d, p) {
        lemma_bytes_kept(d, e, q, n as int);
        lemma_bytes_kept(d, e, q, 2 * n);
    }
}

/// Skipping a value only looks at the bytes it passes over.
#[verifier::rlimit(50)]
pub proof fn lemma_skip_kept(k: TaggedKind, d: Seq<u8>, e: Seq<u8>, p: int, ty: BondDataType, depth: int, fast: bool)
    requires
        0 <= p <= d.len(),
        sp_skip(k, d, p, ty, depth, fast) is Ok,
    ensures
        sp_skip(k, d + e, p, ty, depth, fast) == sp_skip(k, d, p, ty, depth, fast),
    decreases 257 - depth, 3int, 0int,
{
    lemma_leaf_kept(k, d, e, p);
    lemma_leaf_within(k, d, p);
    match ty {
        BondDataType::Struct => {
            if fast {
                let (skipped, q) = sp_fast_skip(k, d, p)->Ok_0;
                if !skipped {
                    lemma_skip_body_kept(k, d, e, q, depth, fast);
                }
            } else {
                lemma_skip_body_kept(k, d, e, p, depth, fast);
            }
        },
        BondDataType::List | BondDataType::SetType => {
            let ((n, el), q) = sp_container_begin(k, d, p)->Ok_0;
            lemma_skip_elems_kept(k, d, e, q, el, n as int, depth, fast);
        },
        BondDataType::MapType => {
            let ((n, kt, vt), q) = sp_map_begin(d, p)->Ok_0;
            lemma_skip_entries_kept(k, d, e, q, kt, vt, n as int, depth, fast);
        },
        _ => {},
    }
}

proof fn lemma_skip_body_kept(k: TaggedKind, d: Seq<u8>, e: Seq<u8>, p: int, depth: int, fast: bool)
    requires
        0 <= p <= d.len(),
        sp_skip_struct_body(k, d, p, depth, fast) is Ok,
    ensures
        sp_skip_struct_body(k, d + e, p, depth, fast) == sp_skip_struct_body(k, d, p, depth, fast),
    decreases 257 - depth, 2int, 0int,
{
    lemma_leaf_kept(k, d, e, p);
    lemma_leaf_within(k, d, p);
    let (_, q) = sp_struct_begin(k, d, p)->Ok_0;
    lemma_skip_fields_kept(k, d, e, q, depth, fast);
}

proof fn lemma_skip_fields_kept(k: TaggedKind, d: Seq<u8>, e: Seq<u8>, p: int, depth: int, fast: bool)
    requires
        0 <= p <= d.len(),
        sp_skip_fields(k, d, p, depth, fast) is Ok,
    ensures
        sp_skip_fields(k, d + e, p, depth, fast) == sp_skip_fields(k, d, p, depth, fast),
    decreases 257 - depth, 1int, d.len() - p,
{
    lemma_leaf_kept(k, d, e, p);
    let ((ty, _), q) = sp_field_begin(k, d, p)->Ok_0;
    if ty == BondDataType::StopBase {
        lemma_skip_fields_kept(k, d, e, q, depth, fast);
    } else if ty != BondDataType::Stop {
        lemma_skip_kept(k, d, e, q, ty, depth + 1, fast);
        let q2 = sp_skip(k, d, q, ty, depth + 1, fast)->Ok_0;
        lemma_skip_fields_kept(k, d, e, q2, depth, fast);
    }
}

proof fn lemma_skip_elems_kept(
    k: TaggedKind,
    d: Seq<u8>,
    e: Seq<u8>,
    p: int,
    ty: BondDataType,
    n: int,
    depth: int,
    fast: bool,
)
    requires
        0 <= p <= d.len(),
        sp_skip_elems(k, d, p, ty, n, depth, fast) is Ok,
    ensures
        sp_skip_elems(k, d + e, p, ty, n, depth, fast) == sp_skip_elems(k, d, p, ty, n, depth, fast),
    decreases 257 - depth, 1int, n,
{
    if depth <= DEFAULT_MAX_DEPTH && n > 0 {
        lemma_skip_kept(k, d, e, p, ty, depth + 1, fast);
        lemma_skip_progress(k, d, p, ty, depth + 1, fast);
        let q = sp_skip(k, d, p, ty, depth + 1, fast)->Ok_0;
        lemma_skip_elems_kept(k, d, e, q, ty, n - 1, depth, fast);
    }
}

proof fn lemma_skip_entries_kept(
    k: TaggedKind,
    d: Seq<u8>,
    e: Seq<u8>,
    p: int,
    kt: BondDataType,
    vt: BondDataType,
    n: int,
    depth: int,
    fast: bool,
)
    requires
        0 <= p <= d.len(),
        sp_skip_entries(k, d, p, kt, vt, n, depth, fast) is Ok,
    ensures
        sp_skip_entries(k, d + e, p, kt, vt, n, depth, fast) == sp_skip_entries(k, d, p, kt, vt, n, depth, fast),
    decreases 257 - depth, 1int, n,
{
    if depth <= DEFAULT_MAX_DEPTH && n > 0 {
        lemma_skip_kept(k, d, e, p, kt, depth + 1, fast);
        lemma_skip_progress(k, d, p, kt, depth + 1, fast);
        let q = sp_skip(k, d, p, kt, depth + 1, fast)->Ok_0;
        lemma_skip_kept(k, d, e, q, vt, depth + 1, fast);
        lemma_skip_progress(k, d, q, vt, depth + 1, fast);
        let q2 = sp_skip(k, d, q, vt, depth + 1, fast)->Ok_0;
        lemma_skip_entries_kept(k, d, e, q2, kt, vt, n - 1, depth, fast);
    }
}

} // verus!
