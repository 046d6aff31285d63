//! What the tagged protocols give back of what they wrote.
//!
//! A tagged reader cannot recover field names, nor tell `nullable` and `blob`
//! from `list`: all three are `BT_LIST` on the wire. [`tagged_form`] lowers a
//! value to what a reader produces, and [`lemma_tagged_roundtrip`] states that
//! parsing what a writer wrote gives back exactly that form.

use vstd::prelude::*;
use vstd::bytes::{
    lemma_auto_spec_u16_to_from_le_bytes, lemma_auto_spec_u32_to_from_le_bytes,
    lemma_auto_spec_u64_to_from_le_bytes, spec_u16_from_le_bytes, spec_u16_to_le_bytes,
};
use vstd::utf8::{decode_utf8, encode_utf8, valid_utf8};
use crate::constants::{lemma_type_code_roundtrip, type_code, BondDataType, DEFAULT_MAX_DEPTH};
use crate::error::ErrorV;
use crate::reader::{le_units, rd_bytes, rd_u8, rd_varint_u16, rd_varint_u32, rd_varint_u64};
use crate::text::{lemma_utf16_roundtrip, utf16_encode};
use crate::value::{type_of_v, FieldV, StructV, ValueV};
use crate::varint::{
    leb128_encode, lemma_leb128_roundtrip, lemma_leb128_roundtrip_u16, lemma_leb128_roundtrip_u32,
};
use crate::writer::units_le_bytes;
use crate::varint::zigzag;
use super::{
    enc_container_begin, enc_entries, enc_field_header, enc_fields, enc_items, enc_struct, enc_value, leb_len,
    sp_container_begin, sp_field_begin, sp_struct_begin, sp_map_begin, sp_read_elems, sp_read_entries, sp_read_fields,
    sp_read_struct, sp_read_value, spec_parse, TaggedKind, after,
};

verus! {

broadcast use vstd::utf8::group_utf8_lib;

// ---------------------------------------------------------------------------
// What a tagged reader gives back
// ---------------------------------------------------------------------------

/// A value as a tagged reader gives it back: field names dropped, `nullable`
/// and `blob` read as the `list` they are written as.
pub open spec fn tagged_form(v: ValueV) -> ValueV
    decreases v,
{
    match v {
        ValueV::Struct(s) => ValueV::Struct(tagged_struct(s)),
        ValueV::List { element, items } => ValueV::List {
            element,
            items: Seq::new(
                items.len(),
                |i: int| if 0 <= i < items.len() { tagged_form(items[i]) } else { ValueV::Bool(false) },
            ),
        },
        ValueV::SetOf { element, items } => ValueV::SetOf {
            element,
            items: Seq::new(
                items.len(),
                |i: int| if 0 <= i < items.len() { tagged_form(items[i]) } else { ValueV::Bool(false) },
            ),
        },
        ValueV::MapOf { key, value, entries } => ValueV::MapOf {
            key,
            value,
            entries: Seq::new(
                entries.len(),
                |i: int|
                    if 0 <= i < entries.len() {
                        (tagged_form(entries[i].0), tagged_form(entries[i].1))
                    } else {
                        (ValueV::Bool(false), ValueV::Bool(false))
                    },
            ),
        },
        ValueV::Nullable { element, value } => ValueV::List {
            element,
            items: match value {
                Some(b) => seq![tagged_form(*b)],
                None => Seq::empty(),
            },
        },
        ValueV::Blob(b) => ValueV::List {
            element: BondDataType::Int8,
            items: Seq::new(b.len(), |i: int| ValueV::Int8(b[i] as i8)),
        },
        _ => v,
    }
}

/// A struct as a tagged reader gives it back.
pub open spec fn tagged_struct(s: StructV) -> StructV
    decreases s,
{
    StructV {
        fields: Seq::new(
            s.fields.len(),
            |i: int|
                if 0 <= i < s.fields.len() {
                    FieldV { id: s.fields[i].id, name: None, value: tagged_form(s.fields[i].value) }
                } else {
                    FieldV { id: 0, name: None, value: ValueV::Bool(false) }
                },
        ),
    }
}

/// A container element type that the format can carry: Fast Binary writes a
/// whole byte, Compact Binary the low five bits of one.
pub open spec fn packs(k: TaggedKind, t: BondDataType) -> bool {
    k == TaggedKind::Fast || type_code(t) < 32
}

/// `v`, read at nesting `depth`, is one a tagged writer writes so that it reads
/// back: no `bonded` payload (written raw, read as the struct it holds), each
/// container's elements of its declared type, every length within the 32 bits
/// the wire gives it, and the nesting within [`DEFAULT_MAX_DEPTH`].
pub open spec fn value_fits(k: TaggedKind, v: ValueV, depth: int) -> bool
    decreases v,
{
    &&& depth <= DEFAULT_MAX_DEPTH
    &&& match v {
        ValueV::Str(c) => encode_utf8(c).len() <= u32::MAX,
        ValueV::WStr(c) => utf16_encode(c).len() <= u32::MAX && 2 * utf16_encode(c).len() <= usize::MAX,
        ValueV::Struct(s) => depth + 1 <= DEFAULT_MAX_DEPTH && fields_fit(k, s.fields, depth + 2),
        ValueV::List { element, items } => packs(k, element) && items.len() <= u32::MAX
            && items_fit(k, items, element, depth + 1),
        ValueV::SetOf { element, items } => packs(k, element) && items.len() <= u32::MAX
            && items_fit(k, items, element, depth + 1),
        ValueV::MapOf { key, value, entries } => entries.len() <= u32::MAX
            && entries_fit(k, entries, key, value, depth + 1),
        ValueV::Nullable { element, value } => packs(k, element) && match value {
            Some(b) => type_of_v(*b) == element && value_fits(k, *b, depth + 1),
            None => true,
        },
        ValueV::Blob(b) => b.len() <= u32::MAX && (b.len() > 0 ==> depth + 1 <= DEFAULT_MAX_DEPTH),
        ValueV::Bonded(_) => false,
        _ => true,
    }
}

/// Every item is of type `el` and fits at `depth`.
pub open spec fn items_fit(k: TaggedKind, items: Seq<ValueV>, el: BondDataType, depth: int) -> bool
    decreases items,
{
    items.len() > 0 ==> {
        &&& type_of_v(items[0]) == el
        &&& value_fits(k, items[0], depth)
        &&& items_fit(k, items.drop_first(), el, depth)
    }
}

/// Every entry has key type `kt` and value type `vt`, and both fit at `depth`.
pub open spec fn entries_fit(k: TaggedKind, entries: Seq<(ValueV, ValueV)>, kt: BondDataType, vt: BondDataType, depth: int) -> bool
    decreases entries,
{
    entries.len() > 0 ==> {
        &&& type_of_v(entries[0].0) == kt
        &&& type_of_v(entries[0].1) == vt
        &&& value_fits(k, entries[0].0, depth)
        &&& value_fits(k, entries[0].1, depth)
        &&& entries_fit(k, entries.drop_first(), kt, vt, depth)
    }
}

/// Every field value fits at `depth`.
pub open spec fn fields_fit(k: TaggedKind, fs: Seq<FieldV>, depth: int) -> bool
    decreases fs,
{
    fs.len() > 0 ==> value_fits(k, fs[0].value, depth) && fields_fit(k, fs.drop_first(), depth)
}

/// The tagged form of a value has the value's type.
proof fn lemma_tagged_type(v: ValueV)
    ensures
        type_of_v(tagged_form(v)) == type_of_v(v),
{
}

/// Bytes of a blob, read back as a list of `int8`, fit as items at `depth`.
proof fn lemma_int8_items_fit(k: TaggedKind, b: Seq<u8>, depth: int)
    requires
        b.len() > 0 ==> depth <= DEFAULT_MAX_DEPTH,
    ensures
        items_fit(k, Seq::new(b.len(), |i: int| ValueV::Int8(b[i] as i8)), BondDataType::Int8, depth),
    decreases b.len(),
{
    let t = Seq::new(b.len(), |i: int| ValueV::Int8(b[i] as i8));
    if b.len() > 0 {
        let r = b.drop_first();
        lemma_int8_items_fit(k, r, depth);
        assert(t.drop_first() =~= Seq::new(r.len(), |i: int| ValueV::Int8(r[i] as i8)));
        assert(t[0] == ValueV::Int8(b[0] as i8));
        assert(value_fits(k, t[0], depth));
        assert(type_of_v(t[0]) == BondDataType::Int8);
    }
}

/// What fits one format still fits, in tagged form, the same format or Fast
/// Binary, which carries every element type.
proof fn lemma_fits_tagged(k: TaggedKind, k2: TaggedKind, v: ValueV, depth: int)
    requires
        value_fits(k, v, depth),
        k2 == k || k2 == TaggedKind::Fast,
    ensures
        value_fits(k2, tagged_form(v), depth),
    decreases v,
{
    match v {
        ValueV::Struct(s) => {
            lemma_fields_tagged(k, k2, s.fields, depth + 2);
            assert(tagged_struct(s).fields =~= Seq::new(
                s.fields.len(),
                |i: int| FieldV { id: s.fields[i].id, name: None, value: tagged_form(s.fields[i].value) },
            ));
            assert(value_fits(k2, tagged_form(v), depth));
        },
        ValueV::List { element, items } => {
            lemma_items_tagged(k, k2, items, element, depth + 1);
            assert(tagged_form(v)->List_items =~= Seq::new(
                items.len(),
                |i: int| if 0 <= i < items.len() { tagged_form(items[i]) } else { ValueV::Bool(false) },
            ));
            assert(value_fits(k2, tagged_form(v), depth));
        },
        ValueV::SetOf { element, items } => {
            lemma_items_tagged(k, k2, items, element, depth + 1);
            assert(tagged_form(v)->SetOf_items =~= Seq::new(
                items.len(),
                |i: int| if 0 <= i < items.len() { tagged_form(items[i]) } else { ValueV::Bool(false) },
            ));
            assert(value_fits(k2, tagged_form(v), depth));
        },
        ValueV::MapOf { key, value, entries } => {
            lemma_entries_tagged(k, k2, entries, key, value, depth + 1);
            assert(tagged_form(v)->MapOf_entries =~= Seq::new(
                entries.len(),
                |i: int|
                    if 0 <= i < entries.len() {
                        (tagged_form(entries[i].0), tagged_form(entries[i].1))
                    } else {
                        (ValueV::Bool(false), ValueV::Bool(false))
                    },
            ));
            assert(value_fits(k2, tagged_form(v), depth));
        },
        ValueV::Nullable { element, value } => {
            match value {
                Some(b) => {
                    lemma_fits_tagged(k, k2, *b, depth + 1);
                    lemma_tagged_type(*b);
                    let x = tagged_form(*b);
                    let t = seq![x];
                    assert(t.drop_first() =~= Seq::<ValueV>::empty());
                    assert(t[0] == x);
                    assert(type_of_v(*b) == element && value_fits(k, *b, depth + 1));
                    assert(type_of_v(x) == element);
                    assert(value_fits(k2, x, depth + 1));
                    assert(items_fit(k2, Seq::<ValueV>::empty(), element, depth + 1));
                    assert(items_fit(k2, t, element, depth + 1));
                    assert(tagged_form(v) == ValueV::List { element, items: t });
                },
                None => {
                    assert(items_fit(k2, Seq::<ValueV>::empty(), element, depth + 1));
                },
            }
            assert(packs(k2, element));
            assert(value_fits(k2, tagged_form(v), depth));
        },
        ValueV::Blob(b) => {
            lemma_int8_items_fit(k2, b, depth + 1);
            assert(value_fits(k2, tagged_form(v), depth));
        },
        _ => {
            assert(tagged_form(v) == v);
            assert(value_fits(k2, tagged_form(v), depth));
        },
    }
}

proof fn lemma_items_tagged(k: TaggedKind, k2: TaggedKind, items: Seq<ValueV>, el: BondDataType, depth: int)
    requires
        items_fit(k, items, el, depth),
        k2 == k || k2 == TaggedKind::Fast,
    ensures
        items_fit(
            k2,
            Seq::new(items.len(), |i: int| if 0 <= i < items.len() { tagged_form(items[i]) } else { ValueV::Bool(false) }),
            el,
            depth,
        ),
    decreases items,
{
    let t = Seq::new(items.len(), |i: int| if 0 <= i < items.len() { tagged_form(items[i]) } else { ValueV::Bool(false) });
    if items.len() > 0 {
        let r = items.drop_first();
        lemma_fits_tagged(k, k2, items[0], depth);
        lemma_tagged_type(items[0]);
        lemma_items_tagged(k, k2, r, el, depth);
        assert(t.drop_first() =~= Seq::new(r.len(), |i: int| if 0 <= i < r.len() { tagged_form(r[i]) } else { ValueV::Bool(false) }));
    }
}

proof fn lemma_entries_tagged(
    k: TaggedKind,
    k2: TaggedKind,
    es: Seq<(ValueV, ValueV)>,
    kt: BondDataType,
    vt: BondDataType,
    depth: int,
)
    requires
        entries_fit(k, es, kt, vt, depth),
        k2 == k || k2 == TaggedKind::Fast,
    ensures
        entries_fit(
            k2,
            Seq::new(
                es.len(),
                |i: int|
                    if 0 <= i < es.len() {
                        (tagged_form(es[i].0), tagged_form(es[i].1))
                    } else {
                        (ValueV::Bool(false), ValueV::Bool(false))
                    },
            ),
            kt,
            vt,
            depth,
        ),
    decreases es,
{
    let t = Seq::new(
        es.len(),
        |i: int|
            if 0 <= i < es.len() {
                (tagged_form(es[i].0), tagged_form(es[i].1))
            } else {
                (ValueV::Bool(false), ValueV::Bool(false))
            },
    );
    if es.len() > 0 {
        let r = es.drop_first();
        lemma_fits_tagged(k, k2, es[0].0, depth);
        lemma_fits_tagged(k, k2, es[0].1, depth);
        lemma_tagged_type(es[0].0);
        lemma_tagged_type(es[0].1);
        lemma_entries_tagged(k, k2, r, kt, vt, depth);
        assert(t.drop_first() =~= Seq::new(
            r.len(),
            |i: int|
                if 0 <= i < r.len() {
                    (tagged_form(r[i].0), tagged_form(r[i].1))
                } else {
                    (ValueV::Bool(false), ValueV::Bool(false))
                },
        ));
    }
}

proof fn lemma_fields_tagged(k: TaggedKind, k2: TaggedKind, fs: Seq<FieldV>, depth: int)
    requires
        fields_fit(k, fs, depth),
        k2 == k || k2 == TaggedKind::Fast,
    ensures
        fields_fit(
            k2,
            Seq::new(fs.len(), |i: int| FieldV { id: fs[i].id, name: None, value: tagged_form(fs[i].value) }),
            depth,
        ),
    decreases fs,
{
    let t = Seq::new(fs.len(), |i: int| FieldV { id: fs[i].id, name: None, value: tagged_form(fs[i].value) });
    if fs.len() > 0 {
        let r = fs.drop_first();
        lemma_fits_tagged(k, k2, fs[0].value, depth);
        lemma_fields_tagged(k, k2, r, depth);
        assert(t.drop_first() =~= Seq::new(r.len(), |i: int| FieldV { id: r[i].id, name: None, value: tagged_form(r[i].value) }));
    }
}

/// A root struct that fits one format fits, in tagged form, the same format or
/// Fast Binary.
pub(crate) proof fn lemma_struct_fits_tagged(k: TaggedKind, k2: TaggedKind, s: StructV)
    requires
        struct_fits(k, s),
        k2 == k || k2 == TaggedKind::Fast,
    ensures
        struct_fits(k2, tagged_struct(s)),
{
    lemma_fields_tagged(k, k2, s.fields, 1);
    assert(tagged_struct(s).fields =~= Seq::new(
        s.fields.len(),
        |i: int| FieldV { id: s.fields[i].id, name: None, value: tagged_form(s.fields[i].value) },
    ));
}

/// The root struct `s` is one a tagged writer writes so that it reads back.
pub open spec fn struct_fits(k: TaggedKind, s: StructV) -> bool {
    fields_fit(k, s.fields, 1)
}

// ---------------------------------------------------------------------------
// Bytes at a position
// ---------------------------------------------------------------------------

/// The input `d` holds `x` from position `p` on.
pub open spec fn holds_at(d: Seq<u8>, p: int, x: Seq<u8>) -> bool {
    &&& 0 <= p
    &&& p + x.len() <= d.len()
    &&& d.subrange(p, p + x.len()) == x
}

pub(crate) proof fn lemma_holds_split(d: Seq<u8>, p: int, x: Seq<u8>, y: Seq<u8>)
    requires
        holds_at(d, p, x + y),
    ensures
        holds_at(d, p, x),
        holds_at(d, p + x.len(), y),
{
    let whole = d.subrange(p, p + (x + y).len());
    assert(whole == x + y);
    assert(d.subrange(p, p + x.len()) =~= whole.subrange(0, x.len() as int));
    assert(whole.subrange(0, x.len() as int) =~= x);
    assert(d.subrange(p + x.len(), p + x.len() + y.len()) =~= whole.subrange(x.len() as int, whole.len() as int));
    assert(whole.subrange(x.len() as int, whole.len() as int) =~= y);
}

proof fn lemma_holds_rest(d: Seq<u8>, p: int, x: Seq<u8>)
    requires
        holds_at(d, p, x),
    ensures
        d.subrange(p, d.len() as int) == x + d.subrange(p + x.len(), d.len() as int),
{
    assert(d.subrange(p, d.len() as int) =~= x + d.subrange(p + x.len(), d.len() as int));
}

/// A LEB128 encoding reads back as its value.
pub(crate) proof fn lemma_holds_varint(d: Seq<u8>, p: int, v: u64)
    requires
        holds_at(d, p, leb128_encode(v as nat)),
    ensures
        rd_varint_u64(d, p) == Ok::<(u64, int), crate::error::ErrorV>((v, p + leb128_encode(v as nat).len())),
        v <= u32::MAX ==> rd_varint_u32(d, p) == Ok::<(u32, int), crate::error::ErrorV>(
            (v as u32, p + leb128_encode(v as nat).len()),
        ),
        v <= u16::MAX ==> rd_varint_u16(d, p) == Ok::<(u16, int), crate::error::ErrorV>(
            (v as u16, p + leb128_encode(v as nat).len()),
        ),
{
    let e = leb128_encode(v as nat);
    let rest = d.subrange(p + e.len(), d.len() as int);
    lemma_holds_rest(d, p, e);
    crate::varint::lemma_encode_u64_bounds(v);
    lemma_leb128_roundtrip(v, rest);
    if v <= u32::MAX {
        assert((v as u32) as nat == v as nat);
        lemma_leb128_roundtrip_u32(v as u32, rest);
    }
    if v <= u16::MAX {
        assert((v as u16) as nat == v as nat);
        lemma_leb128_roundtrip_u16(v as u16, rest);
    }
}

/// Code units written little-endian read back as the same units.
proof fn lemma_units_roundtrip(u: Seq<u16>)
    ensures
        units_le_bytes(u).len() == 2 * u.len(),
        le_units(units_le_bytes(u)) == u,
    decreases u.len(),
{
    lemma_auto_spec_u16_to_from_le_bytes();
    if u.len() > 0 {
        let a = u.drop_last();
        lemma_units_roundtrip(a);
        let b = units_le_bytes(u);
        let ba = units_le_bytes(a);
        let t = spec_u16_to_le_bytes(u.last());
        assert(b == ba + t);
        assert forall|i: int| 0 <= i < u.len() implies #[trigger] le_units(b)[i] == u[i] by {
            if i < a.len() {
                assert(b.subrange(2 * i, 2 * i + 2) =~= ba.subrange(2 * i, 2 * i + 2));
                assert(le_units(ba)[i] == a[i]);
            } else {
                assert(b.subrange(2 * i, 2 * i + 2) =~= t);
            }
        }
        assert(le_units(b) =~= u);
    }
}

/// UTF-8 text written by a writer is valid and reads back as the same text.
pub(crate) proof fn lemma_utf8_roundtrip(c: Seq<char>)
    ensures
        valid_utf8(encode_utf8(c)),
        decode_utf8(encode_utf8(c)) == c,
{
}

/// UTF-16 units decode to the text they encode.
pub(crate) proof fn lemma_wide_roundtrip(c: Seq<char>)
    ensures
        crate::text::utf16_decode(le_units(units_le_bytes(utf16_encode(c)))) == Some(c),
        units_le_bytes(utf16_encode(c)).len() == 2 * utf16_encode(c).len(),
{
    lemma_units_roundtrip(utf16_encode(c));
    lemma_utf16_roundtrip(c);
}

// ---------------------------------------------------------------------------
// The encodings, first item first
// ---------------------------------------------------------------------------

proof fn lemma_enc_items_cons(k: TaggedKind, s: Seq<ValueV>)
    requires
        s.len() > 0,
    ensures
        enc_items(k, s) == enc_value(k, s[0]) + enc_items(k, s.drop_first()),
    decreases s.len(),
{
    if s.len() == 1 {
        assert(s.drop_last() =~= Seq::<ValueV>::empty());
        assert(s.drop_first() =~= Seq::<ValueV>::empty());
        assert(enc_items(k, s) =~= enc_value(k, s[0]) + enc_items(k, s.drop_first()));
    } else {
        lemma_enc_items_cons(k, s.drop_last());
        assert(s.drop_last().drop_first() =~= s.drop_first().drop_last());
        assert(s.drop_first().last() == s.last());
        assert(s.drop_last()[0] == s[0]);
        assert(enc_items(k, s) =~= enc_value(k, s[0]) + enc_items(k, s.drop_first()));
    }
}

proof fn lemma_enc_entries_cons(k: TaggedKind, s: Seq<(ValueV, ValueV)>)
    requires
        s.len() > 0,
    ensures
        enc_entries(k, s) == enc_value(k, s[0].0) + enc_value(k, s[0].1) + enc_entries(k, s.drop_first()),
    decreases s.len(),
{
    if s.len() == 1 {
        assert(s.drop_last() =~= Seq::<(ValueV, ValueV)>::empty());
        assert(s.drop_first() =~= Seq::<(ValueV, ValueV)>::empty());
        assert(enc_entries(k, s) =~= enc_value(k, s[0].0) + enc_value(k, s[0].1) + enc_entries(k, s.drop_first()));
    } else {
        lemma_enc_entries_cons(k, s.drop_last());
        assert(s.drop_last().drop_first() =~= s.drop_first().drop_last());
        assert(s.drop_first().last() == s.last());
        assert(s.drop_last()[0] == s[0]);
        assert(enc_entries(k, s) =~= enc_value(k, s[0].0) + enc_value(k, s[0].1) + enc_entries(k, s.drop_first()));
    }
}

proof fn lemma_enc_fields_cons(k: TaggedKind, s: Seq<FieldV>)
    requires
        s.len() > 0,
    ensures
        enc_fields(k, s) == enc_field_header(k, type_of_v(s[0].value), s[0].id) + enc_value(k, s[0].value)
            + enc_fields(k, s.drop_first()),
    decreases s.len(),
{
    if s.len() == 1 {
        assert(s.drop_last() =~= Seq::<FieldV>::empty());
        assert(s.drop_first() =~= Seq::<FieldV>::empty());
        assert(enc_fields(k, s) =~= enc_field_header(k, type_of_v(s[0].value), s[0].id) + enc_value(k, s[0].value)
            + enc_fields(k, s.drop_first()));
    } else {
        lemma_enc_fields_cons(k, s.drop_last());
        assert(s.drop_last().drop_first() =~= s.drop_first().drop_last());
        assert(s.drop_first().last() == s.last());
        assert(s.drop_last()[0] == s[0]);
        assert(enc_fields(k, s) =~= enc_field_header(k, type_of_v(s[0].value), s[0].id) + enc_value(k, s[0].value)
            + enc_fields(k, s.drop_first()));
    }
}

// ---------------------------------------------------------------------------
// Reading back what was written: scalars and text
// ---------------------------------------------------------------------------

pub(crate) proof fn lemma_holds_byte(d: Seq<u8>, p: int, b: u8)
    requires
        holds_at(d, p, seq![b]),
    ensures
        rd_u8(d, p) == Ok::<(u8, int), ErrorV>((b, p + 1)),
{
    assert(d.subrange(p, p + 1)[0] == d[p]);
}

pub(crate) proof fn lemma_holds_bytes(d: Seq<u8>, p: int, x: Seq<u8>)
    requires
        holds_at(d, p, x),
    ensures
        rd_bytes(d, p, x.len() as int) == Ok::<(Seq<u8>, int), ErrorV>((x, p + x.len())),
{
}

/// A scalar reads back as itself.
#[verifier::rlimit(40)]
pub(crate) proof fn lemma_read_scalar(k: TaggedKind, d: Seq<u8>, p: int, v: ValueV, depth: int)
    requires
        holds_at(d, p, enc_value(k, v)),
        value_fits(k, v, depth),
        v is Bool || v is UInt8 || v is UInt16 || v is UInt32 || v is UInt64 || v is Int8 || v is Int16
            || v is Int32 || v is Int64 || v is Float || v is Double,
    ensures
        sp_read_value(k, d, p, type_of_v(v), depth) == Ok::<(ValueV, int), ErrorV>((v, p + enc_value(k, v).len())),
{
    lemma_auto_spec_u16_to_from_le_bytes();
    lemma_auto_spec_u32_to_from_le_bytes();
    lemma_auto_spec_u64_to_from_le_bytes();
    let e = enc_value(k, v);
    match v {
        ValueV::Bool(b) => {
            lemma_holds_byte(d, p, if b { 1u8 } else { 0u8 });
        },
        ValueV::UInt8(x) => {
            lemma_holds_byte(d, p, x);
        },
        ValueV::Int8(x) => {
            lemma_holds_byte(d, p, x as u8);
            assert((x as u8) as i8 == x) by (bit_vector);
        },
        ValueV::UInt16(x) => {
            if k == TaggedKind::Fast {
                lemma_holds_bytes(d, p, e);
            } else {
                lemma_holds_varint(d, p, x as u64);
            }
        },
        ValueV::UInt32(x) => {
            if k == TaggedKind::Fast {
                lemma_holds_bytes(d, p, e);
            } else {
                lemma_holds_varint(d, p, x as u64);
            }
        },
        ValueV::UInt64(x) => {
            if k == TaggedKind::Fast {
                lemma_holds_bytes(d, p, e);
            } else {
                lemma_holds_varint(d, p, x);
            }
        },
        ValueV::Int16(x) => {
            if k == TaggedKind::Fast {
                lemma_holds_bytes(d, p, e);
                assert((x as u16) as i16 == x) by (bit_vector);
            } else {
                crate::varint::lemma_zigzag_roundtrip(x as int, 0);
                let z = zigzag(x as int);
                assert(0 <= z <= u16::MAX);
                lemma_holds_varint(d, p, z as u64);
            }
        },
        ValueV::Int32(x) => {
            if k == TaggedKind::Fast {
                lemma_holds_bytes(d, p, e);
                assert((x as u32) as i32 == x) by (bit_vector);
            } else {
                crate::varint::lemma_zigzag_roundtrip(x as int, 0);
                let z = zigzag(x as int);
                assert(0 <= z <= u32::MAX);
                lemma_holds_varint(d, p, z as u64);
            }
        },
        ValueV::Int64(x) => {
            if k == TaggedKind::Fast {
                lemma_holds_bytes(d, p, e);
                assert((x as u64) as i64 == x) by (bit_vector);
            } else {
                crate::varint::lemma_zigzag_roundtrip(x as int, 0);
                let z = zigzag(x as int);
                assert(0 <= z <= u64::MAX);
                lemma_holds_varint(d, p, z as u64);
            }
        },
        ValueV::Float(x) => {
            lemma_holds_bytes(d, p, e);
        },
        ValueV::Double(x) => {
            lemma_holds_bytes(d, p, e);
        },
        _ => {},
    }
}

/// A `string` or `wstring` reads back as itself.
#[verifier::rlimit(40)]
proof fn lemma_read_text(k: TaggedKind, d: Seq<u8>, p: int, v: ValueV, depth: int)
    requires
        holds_at(d, p, enc_value(k, v)),
        value_fits(k, v, depth),
        v is Str || v is WStr,
    ensures
        sp_read_value(k, d, p, type_of_v(v), depth) == Ok::<(ValueV, int), ErrorV>((v, p + enc_value(k, v).len())),
{
    match v {
        ValueV::Str(c) => {
            let b = encode_utf8(c);
            let h = leb128_encode(b.len() as nat);
            assert((b.len() as u32) as nat == b.len());
            lemma_holds_split(d, p, h, b);
            lemma_holds_varint(d, p, b.len() as u64);
            lemma_holds_bytes(d, p + h.len(), b);
            lemma_utf8_roundtrip(c);
        },
        ValueV::WStr(c) => {
            let u = utf16_encode(c);
            let b = units_le_bytes(u);
            let h = leb128_encode(u.len() as nat);
            assert((u.len() as u32) as nat == u.len());
            lemma_wide_roundtrip(c);
            lemma_holds_split(d, p, h, b);
            lemma_holds_varint(d, p, u.len() as u64);
            lemma_holds_bytes(d, p + h.len(), b);
        },
        _ => {},
    }
}

// ---------------------------------------------------------------------------
// Reading back what was written: headers
// ---------------------------------------------------------------------------

/// A `list`/`set` header reads back as its count and element type.
#[verifier::rlimit(40)]
proof fn lemma_read_container_begin(k: TaggedKind, d: Seq<u8>, p: int, n: int, element: BondDataType)
    requires
        holds_at(d, p, enc_container_begin(k, n, element)),
        packs(k, element),
        0 <= n <= u32::MAX,
    ensures
        sp_container_begin(k, d, p) == Ok::<((usize, BondDataType), int), ErrorV>(
            ((n as usize, element), p + enc_container_begin(k, n, element).len()),
        ),
{
    let c = type_code(element);
    lemma_type_code_roundtrip(element, c);
    if k == TaggedKind::CompactV2 && n < 7 {
        let m = n as u8;
        let raw = c | (((m + 1) as u8) << 5u8);
        assert(raw % 32 == c && raw / 32 == m + 1) by (bit_vector)
            requires
                c < 32,
                m < 7,
                raw == c | (((m + 1) as u8) << 5u8),
        ;
        lemma_holds_byte(d, p, raw);
        assert((raw % 32) as u8 == c);
    } else {
        let h = leb128_encode(n as nat);
        assert((n as u32) as nat == n);
        lemma_holds_split(d, p, seq![c], h);
        lemma_holds_byte(d, p, c);
        lemma_holds_varint(d, p + 1, n as u64);
        if k != TaggedKind::Fast {
            assert(c % 32 == c && c / 32 == 0) by (bit_vector)
                requires
                    c < 32,
            ;
        }
    }
}

/// A field header reads back as its type and ordinal.
#[verifier::rlimit(40)]
proof fn lemma_read_field_header(k: TaggedKind, d: Seq<u8>, p: int, ty: BondDataType, id: u16)
    requires
        holds_at(d, p, enc_field_header(k, ty, id)),
        type_code(ty) < 32,
        ty != BondDataType::Stop,
        ty != BondDataType::StopBase,
    ensures
        sp_field_begin(k, d, p) == Ok::<((BondDataType, u16), int), ErrorV>(
            ((ty, id), p + enc_field_header(k, ty, id).len()),
        ),
{
    lemma_auto_spec_u16_to_from_le_bytes();
    let c = type_code(ty);
    lemma_type_code_roundtrip(ty, c);
    if k == TaggedKind::Fast {
        lemma_holds_split(d, p, seq![c], spec_u16_to_le_bytes(id));
        lemma_holds_byte(d, p, c);
        lemma_holds_bytes(d, p + 1, spec_u16_to_le_bytes(id));
    } else if id <= 5 {
        let raw = c | ((id as u8) << 5u8);
        assert(raw % 32 == c && raw / 32 == id) by (bit_vector)
            requires
                c < 32,
                id <= 5,
                raw == c | ((id as u8) << 5u8),
        ;
        lemma_holds_byte(d, p, raw);
    } else if id <= 0xff {
        let raw = c | 0xc0u8;
        assert(raw % 32 == c && raw / 32 == 6) by (bit_vector)
            requires
                c < 32,
                raw == c | 0xc0u8,
        ;
        assert(seq![raw, id as u8] =~= seq![raw] + seq![id as u8]);
        lemma_holds_split(d, p, seq![raw], seq![id as u8]);
        lemma_holds_byte(d, p, raw);
        lemma_holds_byte(d, p + 1, id as u8);
    } else {
        let raw = c | 0xe0u8;
        assert(raw % 32 == c && raw / 32 == 7) by (bit_vector)
            requires
                c < 32,
                raw == c | 0xe0u8,
        ;
        lemma_holds_split(d, p, seq![raw], spec_u16_to_le_bytes(id));
        lemma_holds_byte(d, p, raw);
        lemma_holds_bytes(d, p + 1, spec_u16_to_le_bytes(id));
    }
}

/// The `Stop` byte that closes a struct reads back as `Stop`.
proof fn lemma_read_stop(k: TaggedKind, d: Seq<u8>, p: int)
    requires
        holds_at(d, p, seq![0u8]),
    ensures
        sp_field_begin(k, d, p) == Ok::<((BondDataType, u16), int), ErrorV>(((BondDataType::Stop, 0u16), p + 1)),
{
    lemma_holds_byte(d, p, 0u8);
    assert(0u8 % 32 == 0 && 0u8 / 32 == 0) by (bit_vector);
}

/// The wire type of every value packs into the low five bits and is no control type.
proof fn lemma_value_type(v: ValueV)
    ensures
        type_code(type_of_v(v)) < 32,
        type_of_v(v) != BondDataType::Stop,
        type_of_v(v) != BondDataType::StopBase,
        type_of_v(v) != BondDataType::Unavailable,
{
}

// ---------------------------------------------------------------------------
// Reading back what was written: nested values
// ---------------------------------------------------------------------------

spec fn tagged_items(s: Seq<ValueV>) -> Seq<ValueV> {
    Seq::new(s.len(), |i: int| tagged_form(s[i]))
}

spec fn tagged_entries(s: Seq<(ValueV, ValueV)>) -> Seq<(ValueV, ValueV)> {
    Seq::new(s.len(), |i: int| (tagged_form(s[i].0), tagged_form(s[i].1)))
}

spec fn tagged_fields(s: Seq<FieldV>) -> Seq<FieldV> {
    Seq::new(s.len(), |i: int| FieldV { id: s[i].id, name: None, value: tagged_form(s[i].value) })
}

/// The bytes of a `blob` read back as `int8` elements.
#[verifier::rlimit(40)]
proof fn lemma_read_blob(k: TaggedKind, d: Seq<u8>, p: int, b: Seq<u8>, depth: int)
    requires
        holds_at(d, p, b),
        depth <= DEFAULT_MAX_DEPTH,
        b.len() > 0 ==> depth + 1 <= DEFAULT_MAX_DEPTH,
    ensures
        sp_read_elems(k, d, p, BondDataType::Int8, b.len() as int, depth) == Ok::<(Seq<ValueV>, int), ErrorV>(
            (Seq::new(b.len(), |i: int| ValueV::Int8(b[i] as i8)), p + b.len()),
        ),
    decreases b.len(),
{
    if b.len() > 0 {
        let t = b.drop_first();
        assert(b =~= seq![b[0]] + t);
        lemma_holds_split(d, p, seq![b[0]], t);
        lemma_holds_byte(d, p, b[0]);
        let v0 = ValueV::Int8(b[0] as i8);
        assert(sp_read_value(k, d, p, BondDataType::Int8, depth + 1) == Ok::<(ValueV, int), ErrorV>((v0, p + 1)));
        lemma_read_blob(k, d, p + 1, t, depth);
        let tail = Seq::new(t.len(), |i: int| ValueV::Int8(t[i] as i8));
        assert(seq![v0] + tail =~= Seq::new(b.len(), |i: int| ValueV::Int8(b[i] as i8)));
    } else {
        assert(Seq::new(b.len(), |i: int| ValueV::Int8(b[i] as i8)) =~= Seq::<ValueV>::empty());
    }
}

/// A value reads back as its tagged form.
#[verifier::rlimit(60)]
proof fn lemma_read_value(k: TaggedKind, d: Seq<u8>, p: int, v: ValueV, depth: int)
    requires
        holds_at(d, p, enc_value(k, v)),
        value_fits(k, v, depth),
    ensures
        sp_read_value(k, d, p, type_of_v(v), depth) == Ok::<(ValueV, int), ErrorV>(
            (tagged_form(v), p + enc_value(k, v).len()),
        ),
    decreases v, 1int,
{
    match v {
        ValueV::Str(_) | ValueV::WStr(_) => lemma_read_text(k, d, p, v, depth),
        ValueV::Struct(s) => {
            lemma_read_struct(k, d, p, s, depth + 1);
        },
        ValueV::List { .. } | ValueV::SetOf { .. } => lemma_read_list(k, d, p, v, depth),
        ValueV::MapOf { key, value, entries } => {
            lemma_read_map(k, d, p, key, value, entries, depth);
            assert(tagged_entries(entries) =~= tagged_form(v)->MapOf_entries);
        },
        ValueV::Nullable { .. } => lemma_read_nullable(k, d, p, v, depth),
        ValueV::Blob(b) => {
            let h = enc_container_begin(k, b.len() as int, BondDataType::Int8);
            lemma_holds_split(d, p, h, b);
            lemma_read_container_begin(k, d, p, b.len() as int, BondDataType::Int8);
            lemma_read_blob(k, d, p + h.len(), b, depth);
        },
        ValueV::Bonded(_) => {},
        _ => lemma_read_scalar(k, d, p, v, depth),
    }
}

/// A `list` or `set` reads back as its tagged form.
#[verifier::rlimit(40)]
proof fn lemma_read_list(k: TaggedKind, d: Seq<u8>, p: int, v: ValueV, depth: int)
    requires
        holds_at(d, p, enc_value(k, v)),
        value_fits(k, v, depth),
        v is List || v is SetOf,
    ensures
        sp_read_value(k, d, p, type_of_v(v), depth) == Ok::<(ValueV, int), ErrorV>(
            (tagged_form(v), p + enc_value(k, v).len()),
        ),
    decreases v, 0int,
{
    match v {
        ValueV::List { element, items } => {
            let h = enc_container_begin(k, items.len() as int, element);
            lemma_holds_split(d, p, h, enc_items(k, items));
            lemma_read_container_begin(k, d, p, items.len() as int, element);
            lemma_read_elems(k, d, p + h.len(), element, items, depth);
            assert(tagged_items(items) =~= tagged_form(v)->List_items);
        },
        ValueV::SetOf { element, items } => {
            let h = enc_container_begin(k, items.len() as int, element);
            lemma_holds_split(d, p, h, enc_items(k, items));
            lemma_read_container_begin(k, d, p, items.len() as int, element);
            lemma_read_elems(k, d, p + h.len(), element, items, depth);
            assert(tagged_items(items) =~= tagged_form(v)->SetOf_items);
        },
        _ => {},
    }
}

/// A `nullable` reads back as a `list` of none or one element.
#[verifier::rlimit(40)]
proof fn lemma_read_nullable(k: TaggedKind, d: Seq<u8>, p: int, v: ValueV, depth: int)
    requires
        holds_at(d, p, enc_value(k, v)),
        value_fits(k, v, depth),
        v is Nullable,
    ensures
        sp_read_value(k, d, p, type_of_v(v), depth) == Ok::<(ValueV, int), ErrorV>(
            (tagged_form(v), p + enc_value(k, v).len()),
        ),
    decreases v, 0int,
{
    match v {
        ValueV::Nullable { element, value } => {
            match value {
                Some(b) => {
                    let h = enc_container_begin(k, 1, element);
                    lemma_holds_split(d, p, h, enc_value(k, *b));
                    lemma_read_container_begin(k, d, p, 1, element);
                    lemma_read_value(k, d, p + h.len(), *b, depth + 1);
                    let q2 = p + h.len() + enc_value(k, *b).len();
                    assert(sp_read_elems(k, d, q2, element, 0, depth) == Ok::<(Seq<ValueV>, int), ErrorV>(
                        (Seq::empty(), q2),
                    ));
                    assert(seq![tagged_form(*b)] + Seq::<ValueV>::empty() =~= seq![tagged_form(*b)]);
                },
                None => {
                    lemma_read_container_begin(k, d, p, 0, element);
                },
            }
        },
        _ => {},
    }
}

/// A `map` reads back as its tagged form.
#[verifier::rlimit(40)]
proof fn lemma_read_map(
    k: TaggedKind,
    d: Seq<u8>,
    p: int,
    key: BondDataType,
    value: BondDataType,
    entries: Seq<(ValueV, ValueV)>,
    depth: int,
)
    requires
        holds_at(d, p, enc_value(k, ValueV::MapOf { key, value, entries })),
        depth <= DEFAULT_MAX_DEPTH,
        entries.len() <= u32::MAX,
        entries_fit(k, entries, key, value, depth + 1),
    ensures
        sp_read_value(k, d, p, BondDataType::MapType, depth) == Ok::<(ValueV, int), ErrorV>(
            (
                ValueV::MapOf { key, value, entries: tagged_entries(entries) },
                p + enc_value(k, ValueV::MapOf { key, value, entries }).len(),
            ),
        ),
    decreases entries, 2int,
{
    let ck = type_code(key);
    let cv = type_code(value);
    lemma_type_code_roundtrip(key, ck);
    lemma_type_code_roundtrip(value, cv);
    let h = leb128_encode(entries.len() as nat);
    assert((entries.len() as u32) as nat == entries.len());
    let body = enc_entries(k, entries);
    assert(enc_value(k, ValueV::MapOf { key, value, entries }) =~= seq![ck] + (seq![cv] + (h + body)));
    lemma_holds_split(d, p, seq![ck], seq![cv] + (h + body));
    lemma_holds_split(d, p + 1, seq![cv], h + body);
    lemma_holds_split(d, p + 2, h, body);
    lemma_holds_byte(d, p, ck);
    lemma_holds_byte(d, p + 1, cv);
    lemma_holds_varint(d, p + 2, entries.len() as u64);
    lemma_read_entries(k, d, p + 2 + h.len(), key, value, entries, depth);
}

/// The start of a written struct reads back, leaving its body.
proof fn lemma_read_struct_begin(k: TaggedKind, d: Seq<u8>, p: int, s: StructV) -> (q: int)
    requires
        holds_at(d, p, enc_struct(k, s)),
    ensures
        sp_struct_begin(k, d, p) == Ok::<((), int), ErrorV>(((), q)),
        holds_at(d, q, enc_fields(k, s.fields) + seq![0u8]),
        q + enc_fields(k, s.fields).len() + 1 == p + enc_struct(k, s).len(),
{
    let body = enc_fields(k, s.fields) + seq![0u8];
    if k == TaggedKind::CompactV2 {
        let n = (body.len() as u32) as u64;
        let h = leb128_encode(n as nat);
        assert(h == leb_len(body.len() as int));
        lemma_holds_split(d, p, h, body);
        lemma_holds_varint(d, p, n);
        p + h.len()
    } else {
        p
    }
}

/// A struct reads back as its tagged form.
#[verifier::rlimit(40)]
pub(crate) proof fn lemma_read_struct(k: TaggedKind, d: Seq<u8>, p: int, s: StructV, depth: int)
    requires
        holds_at(d, p, enc_struct(k, s)),
        depth <= DEFAULT_MAX_DEPTH,
        fields_fit(k, s.fields, depth + 1),
    ensures
        sp_read_struct(k, d, p, depth) == Ok::<(StructV, int), ErrorV>((tagged_struct(s), p + enc_struct(k, s).len())),
    decreases s, 1int,
{
    assert(tagged_struct(s).fields =~= tagged_fields(s.fields));
    let q = lemma_read_struct_begin(k, d, p, s);
    lemma_read_fields(k, d, q, s.fields, depth);
}

/// Fields followed by `Stop` read back as their tagged forms.
#[verifier::rlimit(60)]
proof fn lemma_read_fields(k: TaggedKind, d: Seq<u8>, p: int, fs: Seq<FieldV>, depth: int)
    requires
        holds_at(d, p, enc_fields(k, fs) + seq![0u8]),
        depth <= DEFAULT_MAX_DEPTH,
        fields_fit(k, fs, depth + 1),
    ensures
        sp_read_fields(k, d, p, depth) == Ok::<(Seq<FieldV>, int), ErrorV>(
            (tagged_fields(fs), p + enc_fields(k, fs).len() + 1),
        ),
    decreases fs, 0int,
{
    if fs.len() == 0 {
        assert(enc_fields(k, fs) + seq![0u8] =~= seq![0u8]);
        lemma_read_stop(k, d, p);
        assert(tagged_fields(fs) =~= Seq::<FieldV>::empty());
    } else {
        let f = fs[0];
        let rest = fs.drop_first();
        lemma_enc_fields_cons(k, fs);
        let h = enc_field_header(k, type_of_v(f.value), f.id);
        let e = enc_value(k, f.value);
        let r = enc_fields(k, rest) + seq![0u8];
        assert(enc_fields(k, fs) + seq![0u8] =~= h + (e + r));
        lemma_holds_split(d, p, h, e + r);
        lemma_holds_split(d, p + h.len(), e, r);
        lemma_value_type(f.value);
        lemma_read_field_header(k, d, p, type_of_v(f.value), f.id);
        lemma_read_value(k, d, p + h.len(), f.value, depth + 1);
        lemma_read_fields(k, d, p + h.len() + e.len(), rest, depth);
        assert(tagged_fields(fs) =~= seq![FieldV { id: f.id, name: None, value: tagged_form(f.value) }]
            + tagged_fields(rest));
    }
}

/// Elements of type `el` read back as their tagged forms.
#[verifier::rlimit(40)]
proof fn lemma_read_elems(k: TaggedKind, d: Seq<u8>, p: int, el: BondDataType, items: Seq<ValueV>, depth: int)
    requires
        holds_at(d, p, enc_items(k, items)),
        depth <= DEFAULT_MAX_DEPTH,
        items_fit(k, items, el, depth + 1),
    ensures
        sp_read_elems(k, d, p, el, items.len() as int, depth) == Ok::<(Seq<ValueV>, int), ErrorV>(
            (tagged_items(items), p + enc_items(k, items).len()),
        ),
    decreases items, 0int,
{
    if items.len() == 0 {
        assert(tagged_items(items) =~= Seq::<ValueV>::empty());
    } else {
        let x = items[0];
        let rest = items.drop_first();
        lemma_enc_items_cons(k, items);
        let e = enc_value(k, x);
        lemma_holds_split(d, p, e, enc_items(k, rest));
        lemma_read_value(k, d, p, x, depth + 1);
        lemma_read_elems(k, d, p + e.len(), el, rest, depth);
        assert(tagged_items(items) =~= seq![tagged_form(x)] + tagged_items(rest));
    }
}

/// Map entries read back as their tagged forms.
#[verifier::rlimit(60)]
proof fn lemma_read_entries(
    k: TaggedKind,
    d: Seq<u8>,
    p: int,
    kt: BondDataType,
    vt: BondDataType,
    entries: Seq<(ValueV, ValueV)>,
    depth: int,
)
    requires
        holds_at(d, p, enc_entries(k, entries)),
        depth <= DEFAULT_MAX_DEPTH,
        entries_fit(k, entries, kt, vt, depth + 1),
    ensures
        sp_read_entries(k, d, p, kt, vt, entries.len() as int, depth) == Ok::<(Seq<(ValueV, ValueV)>, int), ErrorV>(
            (tagged_entries(entries), p + enc_entries(k, entries).len()),
        ),
    decreases entries, 0int,
{
    if entries.len() == 0 {
        assert(tagged_entries(entries) =~= Seq::<(ValueV, ValueV)>::empty());
    } else {
        let (a, b) = entries[0];
        let rest = entries.drop_first();
        lemma_enc_entries_cons(k, entries);
        let ea = enc_value(k, a);
        let eb = enc_value(k, b);
        let r = enc_entries(k, rest);
        assert(enc_entries(k, entries) =~= ea + (eb + r));
        lemma_holds_split(d, p, ea, eb + r);
        lemma_holds_split(d, p + ea.len(), eb, r);
        lemma_read_value(k, d, p, a, depth + 1);
        lemma_read_value(k, d, p + ea.len(), b, depth + 1);
        lemma_read_entries(k, d, p + ea.len() + eb.len(), kt, vt, rest, depth);
        assert(tagged_entries(entries) =~= seq![(tagged_form(a), tagged_form(b))] + tagged_entries(rest));
    }
}

// ---------------------------------------------------------------------------
// The law
// ---------------------------------------------------------------------------

/// Parsing what a tagged writer wrote gives back the struct with field names
/// dropped and `nullable`/`blob` read as `list`, whatever bytes follow it, for
/// Compact Binary v1 and v2 and Fast Binary alike.
pub proof fn lemma_tagged_roundtrip(k: TaggedKind, s: StructV, rest: Seq<u8>)
    requires
        struct_fits(k, s),
    ensures
        spec_parse(k, enc_struct(k, s) + rest) == Ok::<StructV, ErrorV>(tagged_struct(s)),
{
    let d = enc_struct(k, s) + rest;
    assert(d.subrange(0, enc_struct(k, s).len() as int) =~= enc_struct(k, s));
    lemma_read_struct(k, d, 0, s, 0);
}

// ---------------------------------------------------------------------------
// Inheritance: base fields, `StopBase`, derived fields
// ---------------------------------------------------------------------------

/// A struct of a derived class as Bond lays it out: the base class's fields,
/// `StopBase`, the derived class's own fields, then `Stop`; in Compact v2 the
/// whole body is prefixed with its length.
pub open spec fn enc_inherited(k: TaggedKind, base: Seq<FieldV>, derived: Seq<FieldV>) -> Seq<u8> {
    let body = enc_fields(k, base) + seq![type_code(BondDataType::StopBase)] + enc_fields(k, derived) + seq![0u8];
    if k == TaggedKind::CompactV2 {
        leb_len(body.len() as int) + body
    } else {
        body
    }
}

/// Fields read back as their tagged forms, and reading goes on after them.
#[verifier::rlimit(60)]
proof fn lemma_read_fields_then(k: TaggedKind, d: Seq<u8>, p: int, fs: Seq<FieldV>, depth: int)
    requires
        holds_at(d, p, enc_fields(k, fs)),
        depth <= DEFAULT_MAX_DEPTH,
        fields_fit(k, fs, depth + 1),
    ensures
        sp_read_fields(k, d, p, depth) == after(tagged_fields(fs), sp_read_fields(k, d, p + enc_fields(k, fs).len(), depth)),
    decreases fs,
{
    if fs.len() == 0 {
        assert(tagged_fields(fs) =~= Seq::<FieldV>::empty());
        if let Ok((x, q)) = sp_read_fields(k, d, p, depth) {
            assert(Seq::<FieldV>::empty() + x =~= x);
        }
    } else {
        let f = fs[0];
        let rest = fs.drop_first();
        lemma_enc_fields_cons(k, fs);
        let h = enc_field_header(k, type_of_v(f.value), f.id);
        let e = enc_value(k, f.value);
        let r = enc_fields(k, rest);
        assert(enc_fields(k, fs) =~= h + (e + r));
        lemma_holds_split(d, p, h, e + r);
        lemma_holds_split(d, p + h.len(), e, r);
        lemma_value_type(f.value);
        lemma_read_field_header(k, d, p, type_of_v(f.value), f.id);
        lemma_read_value(k, d, p + h.len(), f.value, depth + 1);
        lemma_read_fields_then(k, d, p + h.len() + e.len(), rest, depth);
        let fv = FieldV { id: f.id, name: None, value: tagged_form(f.value) };
        assert(tagged_fields(fs) =~= seq![fv] + tagged_fields(rest));
        if let Ok((x, q)) = sp_read_fields(k, d, p + enc_fields(k, fs).len(), depth) {
            assert(seq![fv] + (tagged_fields(rest) + x) =~= tagged_fields(fs) + x);
        }
    }
}

/// The `StopBase` byte reads back as `StopBase`.
proof fn lemma_read_stop_base(k: TaggedKind, d: Seq<u8>, p: int)
    requires
        holds_at(d, p, seq![type_code(BondDataType::StopBase)]),
    ensures
        sp_field_begin(k, d, p) == Ok::<((BondDataType, u16), int), ErrorV>(((BondDataType::StopBase, 0u16), p + 1)),
{
    lemma_holds_byte(d, p, 1u8);
    assert(1u8 % 32 == 1 && 1u8 / 32 == 0) by (bit_vector);
    lemma_type_code_roundtrip(BondDataType::StopBase, 1u8);
}

/// The body of a derived struct reads back as the base fields followed by the
/// derived ones.
#[verifier::rlimit(40)]
proof fn lemma_read_inherited_body(k: TaggedKind, d: Seq<u8>, p: int, base: Seq<FieldV>, derived: Seq<FieldV>)
    requires
        holds_at(
            d,
            p,
            enc_fields(k, base) + seq![type_code(BondDataType::StopBase)] + enc_fields(k, derived) + seq![0u8],
        ),
        fields_fit(k, base, 1),
        fields_fit(k, derived, 1),
    ensures
        sp_read_fields(k, d, p, 0) == Ok::<(Seq<FieldV>, int), ErrorV>(
            (
                tagged_fields(base) + tagged_fields(derived),
                p + enc_fields(k, base).len() + 1 + enc_fields(k, derived).len() + 1,
            ),
        ),
{
    let eb = enc_fields(k, base);
    let ed = enc_fields(k, derived);
    let sb = seq![type_code(BondDataType::StopBase)];
    let body = eb + sb + ed + seq![0u8];
    assert(body =~= eb + (sb + (ed + seq![0u8])));
    lemma_holds_split(d, p, eb, sb + (ed + seq![0u8]));
    lemma_holds_split(d, p + eb.len(), sb, ed + seq![0u8]);
    lemma_read_fields_then(k, d, p, base, 0);
    lemma_read_stop_base(k, d, p + eb.len());
    lemma_read_fields(k, d, p + eb.len() + 1, derived, 0);
}

/// Parsing a derived struct, whatever bytes follow it, gives the base class's
/// fields followed by the derived class's own fields, each as a tagged reader
/// gives a plain struct of them back: `StopBase` adds no field and removes none.
/// The read ends right after the struct.
#[verifier::rlimit(40)]
pub proof fn lemma_inheritance_roundtrip(k: TaggedKind, base: Seq<FieldV>, derived: Seq<FieldV>, rest: Seq<u8>)
    requires
        struct_fits(k, StructV { fields: base }),
        struct_fits(k, StructV { fields: derived }),
    ensures
        spec_parse(k, enc_inherited(k, base, derived) + rest) == Ok::<StructV, ErrorV>(
            StructV {
                fields: tagged_struct(StructV { fields: base }).fields + tagged_struct(StructV { fields: derived }).fields,
            },
        ),
        sp_read_struct(k, enc_inherited(k, base, derived) + rest, 0, 0) matches Ok((_, q))
            && q == enc_inherited(k, base, derived).len(),
{
    let eb = enc_fields(k, base);
    let ed = enc_fields(k, derived);
    let body = eb + seq![type_code(BondDataType::StopBase)] + ed + seq![0u8];
    let w = enc_inherited(k, base, derived);
    let d = w + rest;
    assert(d.subrange(0, w.len() as int) =~= w);
    let q0: int = if k == TaggedKind::CompactV2 {
        let n = (body.len() as u32) as u64;
        let h = leb128_encode(n as nat);
        assert(h == leb_len(body.len() as int));
        assert(w == h + body);
        lemma_holds_split(d, 0, h, body);
        lemma_holds_varint(d, 0, n);
        h.len() as int
    } else {
        assert(w == body);
        0
    };
    assert(sp_struct_begin(k, d, 0) == Ok::<((), int), ErrorV>(((), q0)));
    assert(holds_at(d, q0, body));
    lemma_read_inherited_body(k, d, q0, base, derived);
    assert(w.len() == q0 + body.len());
    assert(tagged_struct(StructV { fields: base }).fields =~= tagged_fields(base));
    assert(tagged_struct(StructV { fields: derived }).fields =~= tagged_fields(derived));
}

// ---------------------------------------------------------------------------
// What a reader gives back is already in tagged form
// ---------------------------------------------------------------------------

/// A value read as type `ty` has that type and is its own tagged form.
#[verifier::rlimit(40)]
pub proof fn lemma_parsed_value(k: TaggedKind, d: Seq<u8>, p: int, ty: BondDataType, depth: int)
    requires
        sp_read_value(k, d, p, ty, depth) is Ok,
    ensures
        tagged_form(sp_read_value(k, d, p, ty, depth)->Ok_0.0) == sp_read_value(k, d, p, ty, depth)->Ok_0.0,
        type_of_v(sp_read_value(k, d, p, ty, depth)->Ok_0.0) == ty,
    decreases 257 - depth, 3int, 0int,
{
    let v = sp_read_value(k, d, p, ty, depth)->Ok_0.0;
    match ty {
        BondDataType::Struct => {
            lemma_parsed_struct(k, d, p, depth + 1);
            let t = sp_read_struct(k, d, p, depth + 1)->Ok_0.0;
            assert(v == ValueV::Struct(t));
            assert(tagged_form(v) == ValueV::Struct(tagged_struct(t)));
        },
        BondDataType::List | BondDataType::SetType => {
            let ((n, el), q) = sp_container_begin(k, d, p)->Ok_0;
            lemma_parsed_elems(k, d, q, el, n as int, depth);
            let items = sp_read_elems(k, d, q, el, n as int, depth)->Ok_0.0;
            if ty == BondDataType::List {
                assert(v == ValueV::List { element: el, items });
                assert(tagged_form(v)->List_items =~= items);
            } else {
                assert(v == ValueV::SetOf { element: el, items });
                assert(tagged_form(v)->SetOf_items =~= items);
            }
        },
        BondDataType::MapType => {
            let ((n, kt, vt), q) = sp_map_begin(d, p)->Ok_0;
            lemma_parsed_entries(k, d, q, kt, vt, n as int, depth);
            let es = sp_read_entries(k, d, q, kt, vt, n as int, depth)->Ok_0.0;
            assert(v == ValueV::MapOf { key: kt, value: vt, entries: es });
            assert(tagged_form(v)->MapOf_entries =~= es);
        },
        _ => {},
    }
}

/// A struct read back is its own tagged form.
pub proof fn lemma_parsed_struct(k: TaggedKind, d: Seq<u8>, p: int, depth: int)
    requires
        sp_read_struct(k, d, p, depth) is Ok,
    ensures
        tagged_struct(sp_read_struct(k, d, p, depth)->Ok_0.0) == sp_read_struct(k, d, p, depth)->Ok_0.0,
    decreases 257 - depth, 2int, 0int,
{
    let (_, q) = sp_struct_begin(k, d, p)->Ok_0;
    lemma_parsed_fields(k, d, q, depth);
    let fs = sp_read_fields(k, d, q, depth)->Ok_0.0;
    assert(tagged_struct(StructV { fields: fs }).fields =~= fs);
}

proof fn lemma_parsed_fields(k: TaggedKind, d: Seq<u8>, p: int, depth: int)
    requires
        sp_read_fields(k, d, p, depth) is Ok,
    ensures
        forall|i: int| 0 <= i < sp_read_fields(k, d, p, depth)->Ok_0.0.len() ==> {
            let f = #[trigger] sp_read_fields(k, d, p, depth)->Ok_0.0[i];
            f.name is None && tagged_form(f.value) == f.value
        },
    decreases 257 - depth, 1int, d.len() - p,
{
    let ((ty, id), q) = sp_field_begin(k, d, p)->Ok_0;
    if ty == BondDataType::StopBase {
        lemma_parsed_fields(k, d, q, depth);
    } else if ty != BondDataType::Stop {
        let (v, q2) = sp_read_value(k, d, q, ty, depth + 1)->Ok_0;
        lemma_parsed_value(k, d, q, ty, depth + 1);
        lemma_parsed_fields(k, d, q2, depth);
        let rest = sp_read_fields(k, d, q2, depth)->Ok_0.0;
        let all = sp_read_fields(k, d, p, depth)->Ok_0.0;
        assert(all == seq![FieldV { id, name: None, value: v }] + rest);
        assert forall|i: int| 0 <= i < all.len() implies {
            let f = #[trigger] all[i];
            f.name is None && tagged_form(f.value) == f.value
        } by {
            if i > 0 {
                assert(all[i] == rest[i - 1]);
            }
        }
    }
}

proof fn lemma_parsed_elems(k: TaggedKind, d: Seq<u8>, p: int, ty: BondDataType, n: int, depth: int)
    requires
        sp_read_elems(k, d, p, ty, n, depth) is Ok,
    ensures
        forall|i: int| 0 <= i < sp_read_elems(k, d, p, ty, n, depth)->Ok_0.0.len() ==> {
            let v = #[trigger] sp_read_elems(k, d, p, ty, n, depth)->Ok_0.0[i];
            tagged_form(v) == v && type_of_v(v) == ty
        },
    decreases 257 - depth, 1int, n,
{
    if n > 0 {
        let (v, q) = sp_read_value(k, d, p, ty, depth + 1)->Ok_0;
        lemma_parsed_value(k, d, p, ty, depth + 1);
        lemma_parsed_elems(k, d, q, ty, n - 1, depth);
        let rest = sp_read_elems(k, d, q, ty, n - 1, depth)->Ok_0.0;
        let all = sp_read_elems(k, d, p, ty, n, depth)->Ok_0.0;
        assert(all == seq![v] + rest);
        assert forall|i: int| 0 <= i < all.len() implies {
            let x = #[trigger] all[i];
            tagged_form(x) == x && type_of_v(x) == ty
        } by {
            if i > 0 {
                assert(all[i] == rest[i - 1]);
            }
        }
    }
}

proof fn lemma_parsed_entries(
    k: TaggedKind,
    d: Seq<u8>,
    p: int,
    kt: BondDataType,
    vt: BondDataType,
    n: int,
    depth: int,
)
    requires
        sp_read_entries(k, d, p, kt, vt, n, depth) is Ok,
    ensures
        forall|i: int| 0 <= i < sp_read_entries(k, d, p, kt, vt, n, depth)->Ok_0.0.len() ==> {
            let e = #[trigger] sp_read_entries(k, d, p, kt, vt, n, depth)->Ok_0.0[i];
            tagged_form(e.0) == e.0 && tagged_form(e.1) == e.1
        },
    decreases 257 - depth, 1int, n,
{
    if n > 0 {
        let (a, q) = sp_read_value(k, d, p, kt, depth + 1)->Ok_0;
        let (b, q2) = sp_read_value(k, d, q, vt, depth + 1)->Ok_0;
        lemma_parsed_value(k, d, p, kt, depth + 1);
        lemma_parsed_value(k, d, q, vt, depth + 1);
        lemma_parsed_entries(k, d, q2, kt, vt, n - 1, depth);
        let rest = sp_read_entries(k, d, q2, kt, vt, n - 1, depth)->Ok_0.0;
        let all = sp_read_entries(k, d, p, kt, vt, n, depth)->Ok_0.0;
        assert(all == seq![(a, b)] + rest);
        assert forall|i: int| 0 <= i < all.len() implies {
            let e = #[trigger] all[i];
            tagged_form(e.0) == e.0 && tagged_form(e.1) == e.1
        } by {
            if i > 0 {
                assert(all[i] == rest[i - 1]);
            }
        }
    }
}

} // verus!
