//! What Simple Binary gives back of what it wrote.
//!
//! The payload carries no types, ids or names: the schema supplies them. A
//! struct reads back exactly when it is laid out as the schema says — the
//! fields of its base structs first, each field named as in the schema — and
//! every value has the type its field is declared with. [`value_conforms`]
//! states this, and [`lemma_simple_roundtrip`] that such a struct is read back
//! unchanged.

use vstd::prelude::*;
use vstd::utf8::encode_utf8;
use crate::constants::{BondDataType, ListSubType, DEFAULT_MAX_DEPTH, V1, V2};
use crate::error::ErrorV;
use crate::reader::{rd_bytes, rd_le_u32, rd_utf16, rd_utf8};
use crate::schema::{FieldDef, SchemaDef, TypeDef};
use crate::text::utf16_encode;
use crate::value::{first_with_id, type_of_v, FieldV, StructV, ValueV};
use crate::writer::units_le_bytes;
use super::roundtrip::{
    holds_at, lemma_holds_byte, lemma_holds_bytes, lemma_holds_split, lemma_holds_varint, lemma_read_scalar,
    lemma_utf8_roundtrip, lemma_wide_roundtrip, value_fits,
};
use super::simple::{
    chain, chain_ends, emits, next_depth, scalar_of, schema_struct, ss_len, ss_parse, ss_read_elems, ss_read_entries,
    ss_read_last, ss_read_struct, ss_read_value, ss_fdefs, ss_struct_fields, sw_entries, sw_fdefs, sw_items,
    sw_len, sw_root, sw_struct_fields, sw_value, bases_acyclic, Written,
};
use super::{enc_value, sp_read_value, TaggedKind};

verus! {

// ---------------------------------------------------------------------------
// Values as the schema lays them out
// ---------------------------------------------------------------------------

/// The field definitions of the struct at `index`, those of its bases first;
/// `None` if a struct of the chain is missing.
pub open spec fn layout(schema: SchemaDef, index: u16, fuel: nat) -> Option<Seq<FieldDef>>
    decreases fuel,
{
    match schema_struct(schema, index) {
        None => None,
        Some(sd) => match sd.base_def {
            Some(b) => if fuel > 0 {
                match layout(schema, b.struct_def, (fuel - 1) as nat) {
                    Some(bl) => Some(bl + sd.fields@),
                    None => None,
                }
            } else {
                Some(sd.fields@)
            },
            None => Some(sd.fields@),
        },
    }
}

/// The fields a schema-driven reader gives for field definitions `fds`, each
/// taking the value of the first field of `s` with its id.
pub open spec fn fields_from(fds: Seq<FieldDef>, s: StructV) -> Seq<FieldV> {
    Seq::new(
        fds.len(),
        |k: int|
            FieldV {
                id: fds[k].id,
                name: Some(fds[k].metadata.name@),
                value: match first_with_id(s.fields, fds[k].id) {
                    Some(i) => s.fields[i].value,
                    None => ValueV::Bool(false),
                },
            },
    )
}

/// `v`, read at nesting `depth`, has the type `td` declares, down to its
/// elements and fields; each struct is laid out as the schema says; lengths fit
/// in 32 bits; and nesting stays within [`DEFAULT_MAX_DEPTH`].
pub open spec fn value_conforms(schema: SchemaDef, td: TypeDef, v: ValueV, depth: int) -> bool
    decreases v, 0int,
{
    &&& depth <= DEFAULT_MAX_DEPTH
    &&& match td.id {
        BondDataType::String => v matches ValueV::Str(c) && encode_utf8(c).len() <= u32::MAX,
        BondDataType::WString => v matches ValueV::WStr(c) && utf16_encode(c).len() <= u32::MAX
            && 2 * utf16_encode(c).len() <= usize::MAX,
        BondDataType::Struct => if td.bonded_type {
            v matches ValueV::Bonded(b) && b.len() <= u32::MAX
        } else {
            v matches ValueV::Struct(s) && depth + 1 <= DEFAULT_MAX_DEPTH && match layout(
                schema,
                td.struct_def,
                schema.structs@.len(),
            ) {
                Some(fds) => fields_from(fds, s) == s.fields && lay_ok(schema, fds, s, depth + 2),
                None => false,
            }
        },
        BondDataType::List => match td.element {
            None => false,
            Some(el) => match td.sub_type {
                ListSubType::Blob => v matches ValueV::Blob(b) && b.len() <= u32::MAX && (b.len() > 0 ==> depth + 1
                    <= DEFAULT_MAX_DEPTH),
                ListSubType::Nullable => v matches ValueV::Nullable { element, value } && element == el.id
                    && match value {
                    Some(x) => value_conforms(schema, *el, *x, depth + 1),
                    None => true,
                },
                ListSubType::Plain => v matches ValueV::List { element, items } && element == el.id && items.len()
                    <= u32::MAX && items_conform(schema, *el, items, depth + 1),
            },
        },
        BondDataType::SetType => match td.element {
            None => false,
            Some(el) => v matches ValueV::SetOf { element, items } && element == el.id && items.len() <= u32::MAX
                && items_conform(schema, *el, items, depth + 1),
        },
        BondDataType::MapType => match (td.key, td.element) {
            (Some(kt), Some(vt)) => v matches ValueV::MapOf { key, value, entries } && key == kt.id && value
                == vt.id && entries.len() <= u32::MAX && entries_conform(schema, *kt, *vt, entries, depth + 1),
            _ => false,
        },
        _ => scalar_of(td.id, v),
    }
}

/// Every item conforms to `el` at `depth`.
pub open spec fn items_conform(schema: SchemaDef, el: TypeDef, items: Seq<ValueV>, depth: int) -> bool
    decreases items, 0int,
{
    items.len() > 0 ==> value_conforms(schema, el, items[0], depth) && items_conform(
        schema,
        el,
        items.drop_first(),
        depth,
    )
}

/// Every entry conforms to `kt` and `vt` at `depth`.
pub open spec fn entries_conform(
    schema: SchemaDef,
    kt: TypeDef,
    vt: TypeDef,
    entries: Seq<(ValueV, ValueV)>,
    depth: int,
) -> bool
    decreases entries, 0int,
{
    entries.len() > 0 ==> {
        &&& value_conforms(schema, kt, entries[0].0, depth)
        &&& value_conforms(schema, vt, entries[0].1, depth)
        &&& entries_conform(schema, kt, vt, entries.drop_first(), depth)
    }
}

/// For each field definition, `s` has a field with its id whose value
/// conforms to the field's type at `depth`.
pub open spec fn lay_ok(schema: SchemaDef, fds: Seq<FieldDef>, s: StructV, depth: int) -> bool
    decreases s, fds.len(),
{
    fds.len() > 0 ==> {
        &&& match first_with_id(s.fields, fds[0].id) {
            Some(i) => 0 <= i < s.fields.len() && value_conforms(schema, fds[0].type_def, s.fields[i].value, depth),
            None => false,
        }
        &&& lay_ok(schema, fds.drop_first(), s, depth)
    }
}

/// The root struct `s` is laid out as `schema`'s root says.
pub open spec fn root_conforms(schema: SchemaDef, s: StructV) -> bool {
    &&& schema.root.id == BondDataType::Struct
    &&& match layout(schema, schema.root.struct_def, schema.structs@.len()) {
        Some(fds) => fields_from(fds, s) == s.fields && lay_ok(schema, fds, s, 1),
        None => false,
    }
}

// ---------------------------------------------------------------------------
// Writing, first item first
// ---------------------------------------------------------------------------

proof fn lemma_chain_assoc(a: Written, b: Written, c: Written)
    ensures
        chain(chain(a, b), c) == chain(a, chain(b, c)),
{
    if a.1 is None && b.1 is None {
        assert(a.0 + b.0 + c.0 =~= a.0 + (b.0 + c.0));
    }
}

proof fn lemma_chain_unit(a: Written)
    ensures
        chain(emits(Seq::empty()), a) == a,
        chain(a, emits(Seq::empty())) == a,
{
    assert(Seq::<u8>::empty() + a.0 =~= a.0);
    assert(a.0 + Seq::<u8>::empty() =~= a.0);
}

proof fn lemma_sw_items_cons(schema: SchemaDef, version: u16, el: TypeDef, items: Seq<ValueV>, depth: int)
    requires
        items.len() > 0,
    ensures
        sw_items(schema, version, el, items, depth) == chain(
            sw_value(schema, version, el, items[0], next_depth(depth)),
            sw_items(schema, version, el, items.drop_first(), depth),
        ),
    decreases items.len(),
{
    let x = sw_value(schema, version, el, items[0], next_depth(depth));
    if items.len() == 1 {
        assert(items.drop_last() =~= Seq::<ValueV>::empty());
        assert(items.drop_first() =~= Seq::<ValueV>::empty());
        lemma_chain_unit(x);
    } else {
        lemma_sw_items_cons(schema, version, el, items.drop_last(), depth);
        assert(items.drop_last().drop_first() =~= items.drop_first().drop_last());
        assert(items.drop_first().last() == items.last());
        assert(items.drop_last()[0] == items[0]);
        lemma_chain_assoc(
            x,
            sw_items(schema, version, el, items.drop_first().drop_last(), depth),
            sw_value(schema, version, el, items.last(), next_depth(depth)),
        );
    }
}

proof fn lemma_sw_entries_cons(
    schema: SchemaDef,
    version: u16,
    kt: TypeDef,
    vt: TypeDef,
    entries: Seq<(ValueV, ValueV)>,
    depth: int,
)
    requires
        entries.len() > 0,
    ensures
        sw_entries(schema, version, kt, vt, entries, depth) == chain(
            chain(
                sw_value(schema, version, kt, entries[0].0, next_depth(depth)),
                sw_value(schema, version, vt, entries[0].1, next_depth(depth)),
            ),
            sw_entries(schema, version, kt, vt, entries.drop_first(), depth),
        ),
    decreases entries.len(),
{
    let a = sw_value(schema, version, kt, entries[0].0, next_depth(depth));
    let b = sw_value(schema, version, vt, entries[0].1, next_depth(depth));
    if entries.len() == 1 {
        assert(entries.drop_last() =~= Seq::<(ValueV, ValueV)>::empty());
        assert(entries.drop_first() =~= Seq::<(ValueV, ValueV)>::empty());
        lemma_chain_unit(a);
        lemma_chain_unit(chain(a, b));
    } else {
        let m = entries.drop_first().drop_last();
        lemma_sw_entries_cons(schema, version, kt, vt, entries.drop_last(), depth);
        assert(entries.drop_last().drop_first() =~= m);
        assert(entries.drop_first().last() == entries.last());
        assert(entries.drop_last()[0] == entries[0]);
        let mw = sw_entries(schema, version, kt, vt, m, depth);
        let lk = sw_value(schema, version, kt, entries.last().0, next_depth(depth));
        let lv = sw_value(schema, version, vt, entries.last().1, next_depth(depth));
        lemma_chain_assoc(chain(a, b), mw, lk);
        lemma_chain_assoc(chain(a, b), chain(mw, lk), lv);
    }
}

proof fn lemma_sw_fdefs_cons(schema: SchemaDef, version: u16, fds: Seq<FieldDef>, s: StructV, depth: int)
    requires
        fds.len() > 0,
    ensures
        sw_fdefs(schema, version, fds, s, depth) == chain(
            sw_fdefs(schema, version, fds.take(1), s, depth),
            sw_fdefs(schema, version, fds.drop_first(), s, depth),
        ),
    decreases fds.len(),
{
    if fds.len() == 1 {
        assert(fds.take(1) =~= fds);
        assert(fds.drop_first() =~= Seq::<FieldDef>::empty());
        lemma_chain_unit(sw_fdefs(schema, version, fds, s, depth));
    } else {
        lemma_sw_fdefs_cons(schema, version, fds.drop_last(), s, depth);
        assert(fds.drop_last().take(1) =~= fds.take(1));
        assert(fds.drop_last().drop_first() =~= fds.drop_first().drop_last());
        assert(fds.drop_first().last() == fds.last());
        let h = sw_fdefs(schema, version, fds.take(1), s, depth);
        let m = sw_fdefs(schema, version, fds.drop_first().drop_last(), s, depth);
        let fd = fds.last();
        let l = match first_with_id(s.fields, fd.id) {
            None => super::simple::fails(ErrorV::SchemaError(super::simple::missing_field_message(fd.id, fd.metadata.name@))),
            Some(i) => if 0 <= i < s.fields.len() {
                sw_value(schema, version, fd.type_def, s.fields[i].value, depth)
            } else {
                emits(Seq::empty())
            },
        };
        lemma_chain_assoc(h, m, l);
    }
}

// ---------------------------------------------------------------------------
// Reading back what was written
// ---------------------------------------------------------------------------

proof fn lemma_lay_ok_split(schema: SchemaDef, a: Seq<FieldDef>, b: Seq<FieldDef>, s: StructV, depth: int)
    requires
        lay_ok(schema, a + b, s, depth),
    ensures
        lay_ok(schema, a, s, depth),
        lay_ok(schema, b, s, depth),
    decreases a.len(),
{
    if a.len() == 0 {
        assert(a + b =~= b);
    } else {
        assert((a + b)[0] == a[0]);
        assert((a + b).drop_first() =~= a.drop_first() + b);
        lemma_lay_ok_split(schema, a.drop_first(), b, s, depth);
    }
}

proof fn lemma_fields_from_concat(a: Seq<FieldDef>, b: Seq<FieldDef>, s: StructV)
    ensures
        fields_from(a + b, s) == fields_from(a, s) + fields_from(b, s),
{
    assert(fields_from(a + b, s) =~= fields_from(a, s) + fields_from(b, s));
}

/// A length reads back as written.
proof fn lemma_read_len(version: u16, d: Seq<u8>, p: int, n: int)
    requires
        holds_at(d, p, sw_len(version, n)),
        0 <= n <= u32::MAX,
    ensures
        ss_len(version, d, p) == Ok::<(usize, int), ErrorV>((n as usize, p + sw_len(version, n).len())),
{
    vstd::bytes::lemma_auto_spec_u32_to_from_le_bytes();
    if version == V2 {
        assert((n as u32) as nat == n);
        lemma_holds_varint(d, p, n as u64);
    } else {
        lemma_holds_bytes(d, p, sw_len(version, n));
    }
}

/// A `string`, `wstring` or `bonded` value reads back as written.
#[verifier::rlimit(40)]
proof fn lemma_sv_bytes(schema: SchemaDef, version: u16, td: TypeDef, v: ValueV, w: int, r: int, d: Seq<u8>, p: int)
    requires
        value_conforms(schema, td, v, r),
        td.id == BondDataType::String || td.id == BondDataType::WString || (td.id == BondDataType::Struct
            && td.bonded_type) || (td.id == BondDataType::List && td.sub_type == ListSubType::Blob),
    ensures
        sw_value(schema, version, td, v, w).1 is None,
        holds_at(d, p, sw_value(schema, version, td, v, w).0) ==> ss_read_value(schema, version, d, p, td, r)
            == Ok::<(ValueV, int), ErrorV>((v, p + sw_value(schema, version, td, v, w).0.len())),
{
    let e = sw_value(schema, version, td, v, w).0;
    if holds_at(d, p, e) {
        match v {
            ValueV::Str(c) => {
                let b = encode_utf8(c);
                let h = sw_len(version, b.len() as int);
                lemma_holds_split(d, p, h, b);
                lemma_read_len(version, d, p, b.len() as int);
                lemma_holds_bytes(d, p + h.len(), b);
                lemma_utf8_roundtrip(c);
            },
            ValueV::WStr(c) => {
                let u = utf16_encode(c);
                let b = units_le_bytes(u);
                let h = sw_len(version, u.len() as int);
                lemma_wide_roundtrip(c);
                lemma_holds_split(d, p, h, b);
                lemma_read_len(version, d, p, u.len() as int);
                lemma_holds_bytes(d, p + h.len(), b);
            },
            ValueV::Bonded(b) => {
                vstd::bytes::lemma_auto_spec_u32_to_from_le_bytes();
                let h = vstd::bytes::spec_u32_to_le_bytes(b.len() as u32);
                lemma_holds_split(d, p, h, b);
                lemma_holds_bytes(d, p, h);
                lemma_holds_bytes(d, p + h.len(), b);
            },
            ValueV::Blob(b) => {
                let h = sw_len(version, b.len() as int);
                lemma_holds_split(d, p, h, b);
                lemma_read_len(version, d, p, b.len() as int);
                lemma_holds_bytes(d, p + h.len(), b);
            },
            _ => {},
        }
    }
}

/// A value that conforms to its schema type reads back as written: the write
/// succeeds at any writer depth `w` up to the reader depth `r`.
#[verifier::rlimit(60)]
proof fn lemma_sv_value(schema: SchemaDef, version: u16, td: TypeDef, v: ValueV, w: int, r: int, d: Seq<u8>, p: int)
    requires
        bases_acyclic(schema),
        value_conforms(schema, td, v, r),
        0 <= w <= r,
    ensures
        sw_value(schema, version, td, v, w).1 is None,
        holds_at(d, p, sw_value(schema, version, td, v, w).0) ==> ss_read_value(schema, version, d, p, td, r)
            == Ok::<(ValueV, int), ErrorV>((v, p + sw_value(schema, version, td, v, w).0.len())),
    decreases v, 2int, 0int,
{
    let sw = sw_value(schema, version, td, v, w);
    assert(next_depth(w) == w + 1);
    match td.id {
        BondDataType::String | BondDataType::WString => lemma_sv_bytes(schema, version, td, v, w, r, d, p),
        BondDataType::Struct => {
            if td.bonded_type {
                lemma_sv_bytes(schema, version, td, v, w, r, d, p);
            } else {
                let s = v->Struct_0;
                let fuel = schema.structs@.len();
                let fds = layout(schema, td.struct_def, fuel)->Some_0;
                assert(chain_ends(schema, td.struct_def, fuel));
                lemma_sv_struct_fields(schema, version, td.struct_def, s, w + 1, r + 1, fuel, fds, d, p);
            }
        },
        BondDataType::List => {
            let el = *td.element->Some_0;
            match td.sub_type {
                ListSubType::Blob => lemma_sv_bytes(schema, version, td, v, w, r, d, p),
                ListSubType::Nullable => {
                    match v {
                        ValueV::Nullable { element, value } => match value {
                            Some(x) => {
                                let h = sw_len(version, 1);
                                let e = sw_value(schema, version, el, *x, w + 1);
                                lemma_sv_value(schema, version, el, *x, w + 1, r + 1, d, p + h.len());
                                if holds_at(d, p, sw.0) {
                                    assert(sw.0 == h + e.0);
                                    lemma_holds_split(d, p, h, e.0);
                                    lemma_read_len(version, d, p, 1);
                                    assert(ss_read_last(schema, version, d, p + h.len(), el, 1, r)
                                        == Ok::<(ValueV, int), ErrorV>((*x, p + h.len() + e.0.len())));
                                }
                            },
                            None => {
                                if holds_at(d, p, sw.0) {
                                    lemma_read_len(version, d, p, 0);
                                }
                            },
                        },
                        _ => {},
                    }
                },
                ListSubType::Plain => {
                    let items = v->List_items;
                    let h = sw_len(version, items.len() as int);
                    lemma_sv_items(schema, version, el, items, w, r, d, p + h.len());
                    if holds_at(d, p, sw.0) {
                        let e = sw_items(schema, version, el, items, w);
                        assert(sw.0 == h + e.0);
                        lemma_holds_split(d, p, h, e.0);
                        lemma_read_len(version, d, p, items.len() as int);
                    }
                },
            }
        },
        BondDataType::SetType => {
            let el = *td.element->Some_0;
            let items = v->SetOf_items;
            let h = sw_len(version, items.len() as int);
            lemma_sv_items(schema, version, el, items, w, r, d, p + h.len());
            if holds_at(d, p, sw.0) {
                let e = sw_items(schema, version, el, items, w);
                assert(sw.0 == h + e.0);
                lemma_holds_split(d, p, h, e.0);
                lemma_read_len(version, d, p, items.len() as int);
            }
        },
        BondDataType::MapType => {
            let kt = *td.key->Some_0;
            let vt = *td.element->Some_0;
            let entries = v->MapOf_entries;
            let h = sw_len(version, entries.len() as int);
            lemma_sv_entries(schema, version, kt, vt, entries, w, r, d, p + h.len());
            if holds_at(d, p, sw.0) {
                let e = sw_entries(schema, version, kt, vt, entries, w);
                assert(sw.0 == h + e.0);
                lemma_holds_split(d, p, h, e.0);
                lemma_read_len(version, d, p, entries.len() as int);
            }
        },
        _ => {
            assert(sw == emits(enc_value(TaggedKind::Fast, v)));
            if holds_at(d, p, sw.0) {
                assert(value_fits(TaggedKind::Fast, v, r));
                lemma_read_scalar(TaggedKind::Fast, d, p, v, r);
                assert(type_of_v(v) == td.id);
                assert(ss_read_value(schema, version, d, p, td, r) == sp_read_value(TaggedKind::Fast, d, p, td.id, r));
            }
        },
    }
}

/// Items that conform to `el` read back as written.
#[verifier::rlimit(40)]
proof fn lemma_sv_items(schema: SchemaDef, version: u16, el: TypeDef, items: Seq<ValueV>, w: int, r: int, d: Seq<u8>, p: int)
    requires
        bases_acyclic(schema),
        items_conform(schema, el, items, r + 1),
        0 <= w <= r <= DEFAULT_MAX_DEPTH,
    ensures
        sw_items(schema, version, el, items, w).1 is None,
        holds_at(d, p, sw_items(schema, version, el, items, w).0) ==> ss_read_elems(schema, version, d, p, el,
            items.len() as int, r) == Ok::<(Seq<ValueV>, int), ErrorV>(
            (items, p + sw_items(schema, version, el, items, w).0.len()),
        ),
    decreases items, 0int, 0int,
{
    if items.len() == 0 {
        assert(items =~= Seq::<ValueV>::empty());
    } else {
        assert(next_depth(w) == w + 1);
        lemma_sw_items_cons(schema, version, el, items, w);
        let x = sw_value(schema, version, el, items[0], w + 1);
        let rest = sw_items(schema, version, el, items.drop_first(), w);
        lemma_sv_value(schema, version, el, items[0], w + 1, r + 1, d, p);
        lemma_sv_items(schema, version, el, items.drop_first(), w, r, d, p + x.0.len());
        if holds_at(d, p, sw_items(schema, version, el, items, w).0) {
            lemma_holds_split(d, p, x.0, rest.0);
            assert(seq![items[0]] + items.drop_first() =~= items);
        }
    }
}

/// Map entries that conform read back as written.
#[verifier::rlimit(40)]
proof fn lemma_sv_entries(
    schema: SchemaDef,
    version: u16,
    kt: TypeDef,
    vt: TypeDef,
    entries: Seq<(ValueV, ValueV)>,
    w: int,
    r: int,
    d: Seq<u8>,
    p: int,
)
    requires
        bases_acyclic(schema),
        entries_conform(schema, kt, vt, entries, r + 1),
        0 <= w <= r <= DEFAULT_MAX_DEPTH,
    ensures
        sw_entries(schema, version, kt, vt, entries, w).1 is None,
        holds_at(d, p, sw_entries(schema, version, kt, vt, entries, w).0) ==> ss_read_entries(schema, version, d, p,
            kt, vt, entries.len() as int, r) == Ok::<(Seq<(ValueV, ValueV)>, int), ErrorV>(
            (entries, p + sw_entries(schema, version, kt, vt, entries, w).0.len()),
        ),
    decreases entries, 0int, 0int,
{
    if entries.len() == 0 {
        assert(entries =~= Seq::<(ValueV, ValueV)>::empty());
    } else {
        assert(next_depth(w) == w + 1);
        lemma_sw_entries_cons(schema, version, kt, vt, entries, w);
        let a = sw_value(schema, version, kt, entries[0].0, w + 1);
        let b = sw_value(schema, version, vt, entries[0].1, w + 1);
        let rest = sw_entries(schema, version, kt, vt, entries.drop_first(), w);
        lemma_sv_value(schema, version, kt, entries[0].0, w + 1, r + 1, d, p);
        lemma_sv_value(schema, version, vt, entries[0].1, w + 1, r + 1, d, p + a.0.len());
        lemma_sv_entries(schema, version, kt, vt, entries.drop_first(), w, r, d, p + a.0.len() + b.0.len());
        if holds_at(d, p, sw_entries(schema, version, kt, vt, entries, w).0) {
            assert(sw_entries(schema, version, kt, vt, entries, w).0 =~= a.0 + (b.0 + rest.0));
            lemma_holds_split(d, p, a.0, b.0 + rest.0);
            lemma_holds_split(d, p + a.0.len(), b.0, rest.0);
            assert(seq![entries[0]] + entries.drop_first() =~= entries);
        }
    }
}

/// The fields of a struct laid out as the struct at `index` read back as the
/// schema lays them out.
#[verifier::rlimit(40)]
proof fn lemma_sv_struct_fields(
    schema: SchemaDef,
    version: u16,
    index: u16,
    s: StructV,
    w: int,
    r: int,
    fuel: nat,
    fds: Seq<FieldDef>,
    d: Seq<u8>,
    p: int,
)
    requires
        bases_acyclic(schema),
        chain_ends(schema, index, fuel),
        layout(schema, index, fuel) == Some(fds),
        lay_ok(schema, fds, s, r + 1),
        0 <= w <= r <= DEFAULT_MAX_DEPTH,
    ensures
        sw_struct_fields(schema, version, index, s, w, fuel).1 is None,
        holds_at(d, p, sw_struct_fields(schema, version, index, s, w, fuel).0) ==> ss_struct_fields(schema, version,
            d, p, index, r, fuel) == Ok::<(Seq<FieldV>, int), ErrorV>(
            (fields_from(fds, s), p + sw_struct_fields(schema, version, index, s, w, fuel).0.len()),
        ),
    decreases s, 2int, fuel,
{
    let sd = schema_struct(schema, index)->Some_0;
    let own = sd.fields@;
    match sd.base_def {
        Some(b) => {
            let bl = layout(schema, b.struct_def, (fuel - 1) as nat)->Some_0;
            assert(fds == bl + own);
            lemma_lay_ok_split(schema, bl, own, s, r + 1);
            lemma_sv_struct_fields(schema, version, b.struct_def, s, w, r, (fuel - 1) as nat, bl, d, p);
            let bw = sw_struct_fields(schema, version, b.struct_def, s, w, (fuel - 1) as nat);
            lemma_sv_fdefs(schema, version, own, s, w, r, d, p + bw.0.len());
            lemma_fields_from_concat(bl, own, s);
            if holds_at(d, p, sw_struct_fields(schema, version, index, s, w, fuel).0) {
                let ow = sw_fdefs(schema, version, own, s, w);
                lemma_holds_split(d, p, bw.0, ow.0);
            }
        },
        None => {
            lemma_sv_fdefs(schema, version, own, s, w, r, d, p);
            lemma_chain_unit(sw_fdefs(schema, version, own, s, w));
            if holds_at(d, p, sw_struct_fields(schema, version, index, s, w, fuel).0) {
                assert(Seq::<FieldV>::empty() + fields_from(own, s) =~= fields_from(own, s));
            }
        },
    }
}

/// Field definitions each met by a conforming field of `s` read back as the
/// fields the schema lays out.
#[verifier::rlimit(40)]
proof fn lemma_sv_fdefs(schema: SchemaDef, version: u16, fds: Seq<FieldDef>, s: StructV, w: int, r: int, d: Seq<u8>, p: int)
    requires
        bases_acyclic(schema),
        lay_ok(schema, fds, s, r + 1),
        0 <= w <= r <= DEFAULT_MAX_DEPTH,
    ensures
        sw_fdefs(schema, version, fds, s, w).1 is None,
        holds_at(d, p, sw_fdefs(schema, version, fds, s, w).0) ==> ss_fdefs(schema, version, d, p, fds, r) == Ok::<
            (Seq<FieldV>, int),
            ErrorV,
        >((fields_from(fds, s), p + sw_fdefs(schema, version, fds, s, w).0.len())),
    decreases s, 1int, fds.len(),
{
    if fds.len() == 0 {
        assert(fields_from(fds, s) =~= Seq::<FieldV>::empty());
    } else {
        let fd = fds[0];
        let i = first_with_id(s.fields, fd.id)->Some_0;
        let v = s.fields[i].value;
        lemma_sw_fdefs_cons(schema, version, fds, s, w);
        let one = fds.take(1);
        assert(one.drop_last() =~= Seq::<FieldDef>::empty());
        assert(sw_fdefs(schema, version, one.drop_last(), s, w) == emits(Seq::empty()));
        assert(one.last() == fd);
        assert(0 <= i < s.fields.len());
        let x = sw_value(schema, version, fd.type_def, v, w);
        lemma_chain_unit(x);
        assert(sw_fdefs(schema, version, one, s, w) == x);
        lemma_sv_value(schema, version, fd.type_def, v, w, r + 1, d, p);
        lemma_sv_fdefs(schema, version, fds.drop_first(), s, w, r, d, p + x.0.len());
        if holds_at(d, p, sw_fdefs(schema, version, fds, s, w).0) {
            let rest = sw_fdefs(schema, version, fds.drop_first(), s, w);
            lemma_holds_split(d, p, x.0, rest.0);
            assert(fields_from(fds, s) =~= seq![FieldV { id: fd.id, name: Some(fd.metadata.name@), value: v }]
                + fields_from(fds.drop_first(), s));
        }
    }
}

// ---------------------------------------------------------------------------
// The law
// ---------------------------------------------------------------------------

/// Writing a struct laid out as the schema's root says, with every value of
/// its declared type, succeeds; and parsing the bytes written gives the struct
/// back unchanged, whatever follows them, in Simple Binary v1 and v2 alike.
pub proof fn lemma_simple_roundtrip(schema: SchemaDef, version: u16, s: StructV, rest: Seq<u8>)
    requires
        bases_acyclic(schema),
        version == V1 || version == V2,
        root_conforms(schema, s),
    ensures
        sw_root(schema, version, s).1 is None,
        ss_parse(schema, version, sw_root(schema, version, s).0 + rest) == Ok::<StructV, ErrorV>(s),
{
    let fuel = schema.structs@.len();
    let index = schema.root.struct_def;
    let fds = layout(schema, index, fuel)->Some_0;
    let b = sw_root(schema, version, s).0;
    let d = b + rest;
    assert(chain_ends(schema, index, fuel));
    lemma_sv_struct_fields(schema, version, index, s, 0, 0, fuel, fds, d, 0);
    assert(d.subrange(0, b.len() as int) =~= b);
    assert(StructV { fields: fields_from(fds, s) } == s);
}

} // verus!
