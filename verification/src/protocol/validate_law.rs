//! Validation accepts whatever parsing accepts.
//!
//! `validate` walks the same bytes as `parse` without building values. It
//! counts one level of nesting per struct where the parser counts two, so it
//! never stops earlier on depth; everything else it checks the same way.

use vstd::prelude::*;
use crate::constants::BondDataType;
use crate::error::ErrorV;
use crate::value::{FieldV, StructV};
use super::prefix::lemma_skip_kept;
use super::roundtrip::{enc_inherited, lemma_inheritance_roundtrip, lemma_read_struct, lemma_tagged_roundtrip, struct_fits};
use super::{
    enc_struct, pos_of, sp_read_elems, sp_read_entries, sp_read_fields, sp_read_struct, sp_read_value, sp_skip, sp_skip_elems,
    sp_skip_entries, sp_skip_fields, sp_skip_struct_body, spec_parse, spec_validate, TaggedKind, lemma_skip_progress,
};

verus! {

proof fn lemma_skip_value(k: TaggedKind, d: Seq<u8>, p: int, ty: BondDataType, r: int, s: int)
    requires
        sp_read_value(k, d, p, ty, r) is Ok,
        s <= r,
    ensures
        sp_skip(k, d, p, ty, s, false) == pos_of(sp_read_value(k, d, p, ty, r)),
    decreases 257 - r, 3int, 0int,
{
    match ty {
        BondDataType::Struct => {
            lemma_skip_struct(k, d, p, r + 1, s);
        },
        BondDataType::List | BondDataType::SetType => {
            let ((n, el), q) = super::sp_container_begin(k, d, p)->Ok_0;
            lemma_skip_elems(k, d, q, el, n as int, r, s);
        },
        BondDataType::MapType => {
            let ((n, kt, vt), q) = super::sp_map_begin(d, p)->Ok_0;
            lemma_skip_entries(k, d, q, kt, vt, n as int, r, s);
        },
        _ => {},
    }
}

proof fn lemma_skip_struct(k: TaggedKind, d: Seq<u8>, p: int, r: int, s: int)
    requires
        sp_read_struct(k, d, p, r) is Ok,
        s <= r,
    ensures
        sp_skip_struct_body(k, d, p, s, false) == pos_of(sp_read_struct(k, d, p, r)),
    decreases 257 - r, 2int, 0int,
{
    let (_, q) = super::sp_struct_begin(k, d, p)->Ok_0;
    lemma_skip_fields(k, d, q, r, s);
}

proof fn lemma_skip_fields(k: TaggedKind, d: Seq<u8>, p: int, r: int, s: int)
    requires
        sp_read_fields(k, d, p, r) is Ok,
        s <= r,
    ensures
        sp_skip_fields(k, d, p, s, false) == pos_of(sp_read_fields(k, d, p, r)),
    decreases 257 - r, 1int, d.len() - p,
{
    let ((ty, id), q) = super::sp_field_begin(k, d, p)->Ok_0;
    if ty == BondDataType::StopBase {
        lemma_skip_fields(k, d, q, r, s);
    } else if ty != BondDataType::Stop {
        let (v, q2) = sp_read_value(k, d, q, ty, r + 1)->Ok_0;
        lemma_skip_value(k, d, q, ty, r + 1, s + 1);
        lemma_skip_fields(k, d, q2, r, s);
    }
}

proof fn lemma_skip_elems(k: TaggedKind, d: Seq<u8>, p: int, ty: BondDataType, n: int, r: int, s: int)
    requires
        sp_read_elems(k, d, p, ty, n, r) is Ok,
        s <= r,
    ensures
        sp_skip_elems(k, d, p, ty, n, s, false) == pos_of(sp_read_elems(k, d, p, ty, n, r)),
    decreases 257 - r, 1int, n,
{
    if n > 0 {
        let (v, q) = sp_read_value(k, d, p, ty, r + 1)->Ok_0;
        lemma_skip_value(k, d, p, ty, r + 1, s + 1);
        lemma_skip_elems(k, d, q, ty, n - 1, r, s);
    }
}

proof fn lemma_skip_entries(
    k: TaggedKind,
    d: Seq<u8>,
    p: int,
    kt: BondDataType,
    vt: BondDataType,
    n: int,
    r: int,
    s: int,
)
    requires
        sp_read_entries(k, d, p, kt, vt, n, r) is Ok,
        s <= r,
    ensures
        sp_skip_entries(k, d, p, kt, vt, n, s, false) == pos_of(sp_read_entries(k, d, p, kt, vt, n, r)),
    decreases 257 - r, 1int, n,
{
    if n > 0 {
        let (a, q) = sp_read_value(k, d, p, kt, r + 1)->Ok_0;
        let (b, q2) = sp_read_value(k, d, q, vt, r + 1)->Ok_0;
        lemma_skip_value(k, d, p, kt, r + 1, s + 1);
        lemma_skip_value(k, d, q, vt, r + 1, s + 1);
        lemma_skip_entries(k, d, q2, kt, vt, n - 1, r, s);
    }
}

/// Whatever payload parses, validates: for Compact Binary v1 and v2 and Fast
/// Binary, `validate` accepts every input that `parse` accepts.
pub proof fn lemma_validate_accepts_parsed(k: TaggedKind, d: Seq<u8>)
    requires
        spec_parse(k, d) is Ok,
    ensures
        spec_validate(k, d) == Ok::<(), ErrorV>(()),
{
    lemma_skip_struct(k, d, 0, 0, 0);
}

/// What a tagged writer wrote validates, whatever bytes follow it.
pub proof fn lemma_validate_written(k: TaggedKind, s: StructV, rest: Seq<u8>)
    requires
        struct_fits(k, s),
    ensures
        spec_validate(k, enc_struct(k, s) + rest) == Ok::<(), ErrorV>(()),
{
    lemma_tagged_roundtrip(k, s, rest);
    lemma_validate_accepts_parsed(k, enc_struct(k, s) + rest);
}

/// What a tagged writer wrote, cut short by any number `m >= 1` of its last
/// bytes, is refused by both `parse` and `validate`.
pub proof fn lemma_truncated_rejected(k: TaggedKind, s: StructV, m: int)
    requires
        struct_fits(k, s),
        1 <= m <= enc_struct(k, s).len(),
    ensures
        spec_parse(k, enc_struct(k, s).subrange(0, enc_struct(k, s).len() - m)) is Err,
        spec_validate(k, enc_struct(k, s).subrange(0, enc_struct(k, s).len() - m)) is Err,
{
    let full = enc_struct(k, s);
    let n = full.len() - m;
    let cut = full.subrange(0, n);
    let tail = full.subrange(n, full.len() as int);
    assert(cut + tail =~= full);
    assert(full.subrange(0, full.len() as int) =~= full);
    lemma_read_struct(k, full, 0, s, 0);
    lemma_skip_struct(k, full, 0, 0, 0);
    if spec_parse(k, cut) is Ok {
        lemma_validate_accepts_parsed(k, cut);
    }
    if spec_validate(k, cut) is Ok {
        lemma_skip_progress(k, cut, 0, BondDataType::Struct, 0, false);
        lemma_skip_kept(k, cut, tail, 0, BondDataType::Struct, 0, false);
        assert(false);
    }
}

/// A derived struct (base fields, `StopBase`, derived fields) validates,
/// whatever bytes follow it; cut short by any number `m >= 1` of its last
/// bytes, it is refused by both `parse` and `validate`.
pub proof fn lemma_inherited_validates(k: TaggedKind, base: Seq<FieldV>, derived: Seq<FieldV>, rest: Seq<u8>, m: int)
    requires
        struct_fits(k, StructV { fields: base }),
        struct_fits(k, StructV { fields: derived }),
        1 <= m <= enc_inherited(k, base, derived).len(),
    ensures
        spec_validate(k, enc_inherited(k, base, derived) + rest) == Ok::<(), ErrorV>(()),
        spec_parse(k, enc_inherited(k, base, derived).subrange(0, enc_inherited(k, base, derived).len() - m)) is Err,
        spec_validate(k, enc_inherited(k, base, derived).subrange(0, enc_inherited(k, base, derived).len() - m)) is Err,
{
    let full = enc_inherited(k, base, derived);
    assert(spec_validate(k, full + rest) == Ok::<(), ErrorV>(())) by {
        lemma_inheritance_roundtrip(k, base, derived, rest);
        lemma_validate_accepts_parsed(k, full + rest);
    }
    let n = full.len() - m;
    let cut = full.subrange(0, n);
    let tail = full.subrange(n, full.len() as int);
    assert(cut + tail =~= full);
    assert(sp_skip(k, full, 0, BondDataType::Struct, 0, false) == Ok::<int, ErrorV>(full.len() as int)) by {
        lemma_inheritance_roundtrip(k, base, derived, Seq::empty());
        assert(full + Seq::<u8>::empty() =~= full);
        lemma_skip_struct(k, full, 0, 0, 0);
    }
    if spec_parse(k, cut) is Ok {
        lemma_validate_accepts_parsed(k, cut);
    }
    if spec_validate(k, cut) is Ok {
        lemma_skip_progress(k, cut, 0, BondDataType::Struct, 0, false);
        lemma_skip_kept(k, cut, tail, 0, BondDataType::Struct, 0, false);
        assert(false);
    }
}

} // verus!
