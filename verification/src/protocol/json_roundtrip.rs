//! What typed Simple JSON gives back of what it wrote.
//!
//! A struct reads back exactly when it is laid out as the schema says, each
//! field named as in the schema with no two names alike, every value has the
//! type its field is declared with, floats are finite (JSON has no infinities
//! or NaN) and no `bonded<T>` occurs. [`json_conforms`] states this, and
//! [`lemma_json_roundtrip`] that such a struct is written without error and read
//! back unchanged from any document that holds what was written, as the text of
//! the written document does when it is parsed again ([`reads_back`]).

use vstd::prelude::*;
use crate::constants::{BondDataType, ListSubType};
use crate::error::ErrorV;
use crate::schema::{FieldDef, SchemaDef, TypeDef};
use crate::value::{FieldV, StructV, ValueV};
use super::simple::{bases_acyclic, chain_ends, scalar_of, schema_struct};
use super::simple_json::{
    bonded_free, entries_free, f32_finite, f64_finite, field_member, fields_free, items_free, json_entries,
    json_fields, json_items, json_key, json_of, member_index, prepend, tj_blob, tj_entries, tj_fdefs,
    tj_fields, tj_items, tj_parse, tj_struct, tj_value, Json, JsonOut,
};
use super::simple_roundtrip::layout;

verus! {

// ---------------------------------------------------------------------------
// Values as typed Simple JSON carries them
// ---------------------------------------------------------------------------

/// No two field definitions share a name.
pub open spec fn names_distinct(fds: Seq<FieldDef>) -> bool {
    forall|a: int, b: int|
        0 <= a < b < fds.len() ==> (#[trigger] fds[a]).metadata.name@ != (#[trigger] fds[b]).metadata.name@
}

/// `v` has the type `td` declares, down to its elements and fields, in a form
/// typed Simple JSON carries: each struct laid out as the schema says with
/// distinct field names, floats finite, no `bonded<T>`.
pub open spec fn json_conforms(schema: SchemaDef, td: TypeDef, v: ValueV) -> bool
    decreases v,
{
    match td.id {
        BondDataType::String => v is Str,
        BondDataType::WString => v is WStr,
        BondDataType::Float => v matches ValueV::Float(b) && f32_finite(b),
        BondDataType::Double => v matches ValueV::Double(b) && f64_finite(b),
        BondDataType::Struct => !td.bonded_type && (v matches ValueV::Struct(s) && match layout(
            schema,
            td.struct_def,
            schema.structs@.len(),
        ) {
            Some(fds) => names_distinct(fds) && json_fields_conform(schema, fds, s.fields),
            None => false,
        }),
        BondDataType::List => match td.element {
            None => false,
            Some(el) => match td.sub_type {
                ListSubType::Blob => v is Blob,
                ListSubType::Nullable => v matches ValueV::Nullable { element, value } && element == el.id
                    && match value {
                    Some(x) => json_conforms(schema, *el, *x),
                    None => true,
                },
                ListSubType::Plain => v matches ValueV::List { element, items } && element == el.id
                    && json_items_conform(schema, *el, items),
            },
        },
        BondDataType::SetType => match td.element {
            None => false,
            Some(el) => v matches ValueV::SetOf { element, items } && element == el.id && json_items_conform(
                schema,
                *el,
                items,
            ),
        },
        BondDataType::MapType => match (td.key, td.element) {
            (Some(kt), Some(vt)) => v matches ValueV::MapOf { key, value, entries } && key == kt.id && value
                == vt.id && json_entries_conform(schema, *kt, *vt, entries),
            _ => false,
        },
        _ => scalar_of(td.id, v),
    }
}

/// Every item conforms to `el`.
pub open spec fn json_items_conform(schema: SchemaDef, el: TypeDef, items: Seq<ValueV>) -> bool
    decreases items,
{
    items.len() > 0 ==> json_conforms(schema, el, items[0]) && json_items_conform(schema, el, items.drop_first())
}

/// Every entry conforms to `kt` and `vt`.
pub open spec fn json_entries_conform(schema: SchemaDef, kt: TypeDef, vt: TypeDef, es: Seq<(ValueV, ValueV)>) -> bool
    decreases es,
{
    es.len() > 0 ==> json_conforms(schema, kt, es[0].0) && json_conforms(schema, vt, es[0].1)
        && json_entries_conform(schema, kt, vt, es.drop_first())
}

/// Fields `fs` are those of definitions `fds`, one each and in order, with the
/// definitions' ids and names and conforming values.
pub open spec fn json_fields_conform(schema: SchemaDef, fds: Seq<FieldDef>, fs: Seq<FieldV>) -> bool
    decreases fs,
{
    &&& fds.len() == fs.len()
    &&& fs.len() > 0 ==> {
        &&& fs[0].id == fds[0].id
        &&& fs[0].name == Some(fds[0].metadata.name@)
        &&& json_conforms(schema, fds[0].type_def, fs[0].value)
        &&& json_fields_conform(schema, fds.drop_first(), fs.drop_first())
    }
}

// ---------------------------------------------------------------------------
// Documents that hold what was written
// ---------------------------------------------------------------------------

/// Document `j` holds what the written document `out` says, as parsing the text
/// of `out` gives it back: the same literals and strings, an integer with its
/// `u64` and `i64` forms, a float with its exact bits, arrays item by item, and
/// each member of an object found under its key, the last one written under
/// that key.
pub open spec fn reads_back(out: JsonOut, j: Json) -> bool
    decreases out,
{
    match out {
        JsonOut::Null => j is Null,
        JsonOut::Bool(b) => j matches Json::Bool(c) && c == b,
        JsonOut::UInt(u) => j matches Json::Number(n) && n.as_u64 == Some(u) && n.as_i64 == (if u <= i64::MAX {
            Some(u as i64)
        } else {
            None::<i64>
        }),
        JsonOut::Int(i) => j matches Json::Number(n) && n.as_i64 == Some(i) && n.as_u64 == (if i >= 0 {
            Some(i as u64)
        } else {
            None::<u64>
        }),
        JsonOut::Single(b) => j matches Json::Number(n) && n.f32_bits == b,
        JsonOut::Double(b) => j matches Json::Number(n) && n.f64_bits == b,
        JsonOut::Str(s) => j matches Json::Str(t) && t@ == s@,
        JsonOut::Array(a) => j matches Json::Array(b) && items_read_back(a@, b@),
        JsonOut::Object(m) => j matches Json::Object(n) && members_read_back(m@, n@),
    }
}

/// Each item of `b` holds what the item of `a` at its position says.
pub open spec fn items_read_back(a: Seq<JsonOut>, b: Seq<Json>) -> bool
    decreases a,
{
    &&& b.len() == a.len()
    &&& a.len() > 0 ==> reads_back(a[0], b[0]) && items_read_back(a.drop_first(), b.drop_first())
}

/// Each member of `m` not written again under its key later is found in `n`
/// under that key, holding what it says.
pub open spec fn members_read_back(m: Seq<(String, JsonOut)>, n: Seq<(String, Json)>) -> bool
    decreases m,
{
    m.len() > 0 ==> {
        &&& (forall|q: int| 1 <= q < m.len() ==> (#[trigger] m[q]).0@ != m[0].0@) ==> (member_index(
            n,
            m[0].0@,
        ) matches Some(p) && reads_back(m[0].1, n[p].1))
        &&& members_read_back(m.drop_first(), n)
    }
}

// ---------------------------------------------------------------------------
// From one-at-a-time to pointwise
// ---------------------------------------------------------------------------

proof fn lemma_items_read_back(a: Seq<JsonOut>, b: Seq<Json>)
    requires
        items_read_back(a, b),
    ensures
        b.len() == a.len(),
        forall|k: int| 0 <= k < a.len() ==> reads_back(#[trigger] a[k], b[k]),
    decreases a.len(),
{
    if a.len() > 0 {
        lemma_items_read_back(a.drop_first(), b.drop_first());
        assert forall|k: int| 0 <= k < a.len() implies reads_back(#[trigger] a[k], b[k]) by {
            if k > 0 {
                assert(a[k] == a.drop_first()[k - 1]);
                assert(b[k] == b.drop_first()[k - 1]);
            }
        }
    }
}

proof fn lemma_members_read_back(m: Seq<(String, JsonOut)>, n: Seq<(String, Json)>)
    requires
        members_read_back(m, n),
    ensures
        forall|k: int|
            0 <= k < m.len() && (forall|q: int| k < q < m.len() ==> m[q].0@ != m[k].0@) ==> (member_index(
                n,
                (#[trigger] m[k]).0@,
            ) matches Some(p) && reads_back(m[k].1, n[p].1)),
    decreases m.len(),
{
    if m.len() > 0 {
        lemma_members_read_back(m.drop_first(), n);
        assert forall|k: int|
            0 <= k < m.len() && (forall|q: int| k < q < m.len() ==> m[q].0@ != m[k].0@) implies (member_index(
            n,
            (#[trigger] m[k]).0@,
        ) matches Some(p) && reads_back(m[k].1, n[p].1)) by {
            if k > 0 {
                let r = m.drop_first();
                assert(m[k] == r[k - 1]);
                assert forall|q: int| k - 1 < q < r.len() implies (#[trigger] r[q]).0@ != r[k - 1].0@ by {
                    assert(r[q] == m[q + 1]);
                }
            } else {
                assert forall|q: int| 1 <= q < m.len() implies (#[trigger] m[q]).0@ != m[0].0@ by {}
            }
        }
    }
}

proof fn lemma_json_items_pointwise(items: Seq<ValueV>, a: Seq<JsonOut>)
    requires
        json_items(items, a),
    ensures
        a.len() == items.len(),
        forall|k: int| 0 <= k < items.len() ==> json_of(#[trigger] items[k], a[k]),
    decreases items.len(),
{
    if items.len() > 0 {
        lemma_json_items_pointwise(items.drop_first(), a.drop_first());
        assert forall|k: int| 0 <= k < items.len() implies json_of(#[trigger] items[k], a[k]) by {
            if k > 0 {
                assert(items[k] == items.drop_first()[k - 1]);
                assert(a[k] == a.drop_first()[k - 1]);
            }
        }
    }
}

proof fn lemma_json_entries_pointwise(es: Seq<(ValueV, ValueV)>, a: Seq<JsonOut>)
    requires
        json_entries(es, a),
    ensures
        a.len() == 2 * es.len(),
        forall|k: int|
            0 <= k < es.len() ==> json_of((#[trigger] es[k]).0, a[2 * k]) && json_of(es[k].1, a[2 * k + 1]),
    decreases es.len(),
{
    if es.len() > 0 {
        let rest = a.subrange(2, a.len() as int);
        lemma_json_entries_pointwise(es.drop_first(), rest);
        assert forall|k: int|
            0 <= k < es.len() implies json_of((#[trigger] es[k]).0, a[2 * k]) && json_of(es[k].1, a[2 * k + 1]) by {
            if k > 0 {
                assert(es[k] == es.drop_first()[k - 1]);
                assert(a[2 * k] == rest[2 * (k - 1)]);
                assert(a[2 * k + 1] == rest[2 * (k - 1) + 1]);
            }
        }
    }
}

proof fn lemma_json_fields_pointwise(fs: Seq<FieldV>, m: Seq<(String, JsonOut)>)
    requires
        json_fields(fs, m),
    ensures
        m.len() == fs.len(),
        forall|k: int|
            0 <= k < fs.len() ==> m[k].0@ == json_key(#[trigger] fs[k]) && json_of(fs[k].value, m[k].1),
    decreases fs.len(),
{
    if fs.len() > 0 {
        lemma_json_fields_pointwise(fs.drop_first(), m.drop_first());
        assert forall|k: int| 0 <= k < fs.len() implies m[k].0@ == json_key(#[trigger] fs[k]) && json_of(
            fs[k].value,
            m[k].1,
        ) by {
            if k > 0 {
                assert(fs[k] == fs.drop_first()[k - 1]);
                assert(m[k] == m.drop_first()[k - 1]);
            }
        }
    }
}

proof fn lemma_fields_conform_pointwise(schema: SchemaDef, fds: Seq<FieldDef>, fs: Seq<FieldV>)
    requires
        json_fields_conform(schema, fds, fs),
    ensures
        fds.len() == fs.len(),
        forall|k: int|
            0 <= k < fs.len() ==> (#[trigger] fs[k]).id == fds[k].id && fs[k].name == Some(fds[k].metadata.name@),
    decreases fs.len(),
{
    if fs.len() > 0 {
        lemma_fields_conform_pointwise(schema, fds.drop_first(), fs.drop_first());
        assert forall|k: int| 0 <= k < fs.len() implies (#[trigger] fs[k]).id == fds[k].id && fs[k].name == Some(
            fds[k].metadata.name@,
        ) by {
            if k > 0 {
                assert(fs[k] == fs.drop_first()[k - 1]);
                assert(fds[k] == fds.drop_first()[k - 1]);
            }
        }
    }
}

// ---------------------------------------------------------------------------
// A struct's fields follow its layout
// ---------------------------------------------------------------------------

/// What reading `r1` and then `r2` yields.
pub open spec fn then_fields(r1: Result<Seq<FieldV>, ErrorV>, r2: Result<Seq<FieldV>, ErrorV>) -> Result<Seq<FieldV>, ErrorV> {
    match r1 {
        Ok(x) => prepend(x, r2),
        Err(e) => Err(e),
    }
}

proof fn lemma_fdefs_shift(schema: SchemaDef, n: Vec<(String, Json)>, bl: Seq<FieldDef>, sf: Seq<FieldDef>, k: int)
    requires
        0 <= k <= sf.len(),
    ensures
        tj_fdefs(schema, n, bl + sf, bl.len() + k) == tj_fdefs(schema, n, sf, k),
    decreases sf.len() - k,
{
    if k < sf.len() {
        lemma_fdefs_shift(schema, n, bl, sf, k + 1);
        assert((bl + sf)[bl.len() + k] == sf[k]);
    }
}

proof fn lemma_fdefs_concat(schema: SchemaDef, n: Vec<(String, Json)>, bl: Seq<FieldDef>, sf: Seq<FieldDef>, k: int)
    requires
        0 <= k <= bl.len(),
    ensures
        tj_fdefs(schema, n, bl + sf, k) == then_fields(tj_fdefs(schema, n, bl, k), tj_fdefs(schema, n, sf, 0)),
    decreases bl.len() - k,
{
    if k == bl.len() {
        lemma_fdefs_shift(schema, n, bl, sf, 0);
        match tj_fdefs(schema, n, sf, 0) {
            Ok(x) => {
                assert(Seq::<FieldV>::empty() + x =~= x);
            },
            Err(e) => {},
        }
    } else {
        lemma_fdefs_concat(schema, n, bl, sf, k + 1);
        let fd = bl[k];
        assert((bl + sf)[k] == fd);
        match field_member(n@, fd) {
            None => {},
            Some(p) => match tj_value(schema, fd.type_def, n@[p].1) {
                Err(e) => {},
                Ok(v) => {
                    let fv = FieldV { id: fd.id, name: Some(fd.metadata.name@), value: v };
                    match tj_fdefs(schema, n, bl, k + 1) {
                        Ok(x) => match tj_fdefs(schema, n, sf, 0) {
                            Ok(y) => {
                                assert(seq![fv] + (x + y) =~= (seq![fv] + x) + y);
                            },
                            Err(e) => {},
                        },
                        Err(e) => {},
                    }
                },
            },
        }
    }
}

/// Reading the fields of the struct at `index` is reading its layout.
proof fn lemma_chain(schema: SchemaDef, n: Vec<(String, Json)>, index: u16, fuel: nat)
    requires
        chain_ends(schema, index, fuel),
        layout(schema, index, fuel) is Some,
    ensures
        tj_fields(schema, n, index, fuel) == tj_fdefs(schema, n, layout(schema, index, fuel)->Some_0, 0),
    decreases fuel,
{
    let sd = schema_struct(schema, index)->Some_0;
    match sd.base_def {
        Some(b) => {
            lemma_chain(schema, n, b.struct_def, (fuel - 1) as nat);
            let bl = layout(schema, b.struct_def, (fuel - 1) as nat)->Some_0;
            lemma_fdefs_concat(schema, n, bl, sd.fields@, 0);
        },
        None => {
            match tj_fdefs(schema, n, sd.fields@, 0) {
                Ok(x) => {
                    assert(Seq::<FieldV>::empty() + x =~= x);
                },
                Err(e) => {},
            }
        },
    }
}

// ---------------------------------------------------------------------------
// Reading back, by induction on the value
// ---------------------------------------------------------------------------

proof fn lemma_blob(arr: Seq<Json>, bytes: Seq<u8>, i: int)
    requires
        0 <= i <= arr.len(),
        arr.len() == bytes.len(),
        forall|k: int|
            0 <= k < bytes.len() ==> ((#[trigger] arr[k]) matches Json::Number(n) && n.as_i64 == Some(
                (bytes[k] as i8) as i64,
            )),
    ensures
        tj_blob(arr, i) == Ok::<Seq<u8>, ErrorV>(bytes.subrange(i, bytes.len() as int)),
    decreases arr.len() - i,
{
    if i < arr.len() {
        lemma_blob(arr, bytes, i + 1);
        let b = bytes[i];
        assert(arr[i] matches Json::Number(n) && n.as_i64 == Some((b as i8) as i64));
        assert((((b as i8) as i64) as i8) as u8 == b) by (bit_vector);
        assert(seq![b] + bytes.subrange(i + 1, bytes.len() as int) =~= bytes.subrange(i, bytes.len() as int));
    } else {
        assert(bytes.subrange(i, bytes.len() as int) =~= Seq::<u8>::empty());
    }
}

proof fn lemma_value(schema: SchemaDef, td: TypeDef, v: ValueV, out: JsonOut, j: Json)
    requires
        bases_acyclic(schema),
        json_conforms(schema, td, v),
        json_of(v, out),
        reads_back(out, j),
    ensures
        bonded_free(v),
        tj_value(schema, td, j) == Ok::<ValueV, ErrorV>(v),
    decreases v, 0int,
{
    match td.id {
        BondDataType::Struct => {
            let s = v->Struct_0;
            let fds = layout(schema, td.struct_def, schema.structs@.len())->Some_0;
            let m = out->Object_0;
            let n = j->Object_0;
            lemma_json_fields_pointwise(s.fields, m@);
            lemma_fields_conform_pointwise(schema, fds, s.fields);
            lemma_members_read_back(m@, n@);
            assert forall|k: int| 0 <= k < s.fields.len() implies (member_index(
                n@,
                (#[trigger] fds[k]).metadata.name@,
            ) matches Some(p) && reads_back(m@[k].1, n@[p].1)) by {
                assert(m@[k].0@ == json_key(s.fields[k]));
                assert forall|q: int| k < q < m@.len() implies (#[trigger] m@[q]).0@ != m@[k].0@ by {
                    assert(m@[q].0@ == json_key(s.fields[q]));
                    assert(fds[k].metadata.name@ != fds[q].metadata.name@);
                }
            }
            assert(fds.subrange(0, fds.len() as int) =~= fds);
            assert(s.fields.subrange(0, s.fields.len() as int) =~= s.fields);
            lemma_fdefs(schema, fds, 0, s.fields, m@, n);
            assert(chain_ends(schema, td.struct_def, schema.structs@.len()));
            lemma_chain(schema, n, td.struct_def, schema.structs@.len());
            assert(tj_fields(schema, n, td.struct_def, schema.structs@.len()) == Ok::<Seq<FieldV>, ErrorV>(s.fields));
            assert(j matches Json::Object(x) && x == n);
            assert(StructV { fields: s.fields } == s);
            assert(tj_struct(schema, td.struct_def, j) == Ok::<StructV, ErrorV>(s));
        },
        BondDataType::List => {
            let el = *(td.element->Some_0);
            match td.sub_type {
                ListSubType::Blob => {
                    let bytes = v->Blob_0;
                    let a = out->Array_0;
                    let arr = j->Array_0;
                    lemma_items_read_back(a@, arr@);
                    assert forall|k: int| 0 <= k < bytes.len() implies ((#[trigger] arr@[k]) matches Json::Number(
                        n,
                    ) && n.as_i64 == Some((bytes[k] as i8) as i64)) by {
                        assert(a@[k] == JsonOut::Int((bytes[k] as i8) as i64));
                    }
                    lemma_blob(arr@, bytes, 0);
                    assert(bytes.subrange(0, bytes.len() as int) =~= bytes);
                },
                ListSubType::Nullable => {
                    match v->Nullable_value {
                        None => {},
                        Some(x) => {
                            let a = out->Array_0;
                            let arr = j->Array_0;
                            lemma_items_read_back(a@, arr@);
                            lemma_value(schema, el, *x, a@[0], arr@[0]);
                        },
                    }
                },
                ListSubType::Plain => {
                    let items = v->List_items;
                    let a = out->Array_0;
                    let arr = j->Array_0;
                    lemma_json_items_pointwise(items, a@);
                    lemma_items_read_back(a@, arr@);
                    lemma_items(schema, el, items, a@, arr, 0);
                },
            }
        },
        BondDataType::SetType => {
            let el = *(td.element->Some_0);
            let items = v->SetOf_items;
            let a = out->Array_0;
            let arr = j->Array_0;
            lemma_json_items_pointwise(items, a@);
            lemma_items_read_back(a@, arr@);
            lemma_items(schema, el, items, a@, arr, 0);
        },
        BondDataType::MapType => {
            let kt = *(td.key->Some_0);
            let vt = *(td.element->Some_0);
            let es = v->MapOf_entries;
            let a = out->Array_0;
            let arr = j->Array_0;
            lemma_json_entries_pointwise(es, a@);
            lemma_items_read_back(a@, arr@);
            lemma_entries(schema, kt, vt, es, a@, arr, 0);
        },
        _ => {},
    }
}

proof fn lemma_items(schema: SchemaDef, el: TypeDef, items: Seq<ValueV>, a: Seq<JsonOut>, arr: Vec<Json>, i: int)
    requires
        bases_acyclic(schema),
        0 <= i,
        arr@.len() == i + items.len(),
        a.len() == items.len(),
        forall|k: int| 0 <= k < items.len() ==> json_of(#[trigger] items[k], a[k]),
        forall|k: int| 0 <= k < items.len() ==> reads_back(#[trigger] a[k], arr@[i + k]),
        json_items_conform(schema, el, items),
    ensures
        items_free(items),
        tj_items(schema, el, arr, i) == Ok::<Seq<ValueV>, ErrorV>(items),
    decreases items, 0int,
{
    if items.len() > 0 {
        assert(json_of(items[0], a[0]));
        assert(reads_back(a[0], arr@[i + 0]));
        lemma_value(schema, el, items[0], a[0], arr@[i]);
        let rest = items.drop_first();
        let ra = a.drop_first();
        assert forall|k: int| 0 <= k < rest.len() implies json_of(#[trigger] rest[k], ra[k]) by {
            assert(rest[k] == items[k + 1]);
            assert(ra[k] == a[k + 1]);
        }
        assert forall|k: int| 0 <= k < rest.len() implies reads_back(#[trigger] ra[k], arr@[(i + 1) + k]) by {
            assert(ra[k] == a[k + 1]);
            assert(reads_back(a[k + 1], arr@[i + (k + 1)]));
        }
        lemma_items(schema, el, rest, ra, arr, i + 1);
        assert(seq![items[0]] + rest =~= items);
    } else {
        assert(items =~= Seq::<ValueV>::empty());
    }
}

proof fn lemma_entries(
    schema: SchemaDef,
    kt: TypeDef,
    vt: TypeDef,
    es: Seq<(ValueV, ValueV)>,
    a: Seq<JsonOut>,
    arr: Vec<Json>,
    i: int,
)
    requires
        bases_acyclic(schema),
        0 <= i,
        arr@.len() == 2 * i + 2 * es.len(),
        a.len() == 2 * es.len(),
        forall|k: int|
            0 <= k < es.len() ==> json_of((#[trigger] es[k]).0, a[2 * k]) && json_of(es[k].1, a[2 * k + 1]),
        forall|k: int| 0 <= k < a.len() ==> reads_back(#[trigger] a[k], arr@[2 * i + k]),
        json_entries_conform(schema, kt, vt, es),
    ensures
        entries_free(es),
        tj_entries(schema, kt, vt, arr, i) == Ok::<Seq<(ValueV, ValueV)>, ErrorV>(es),
    decreases es, 0int,
{
    if es.len() > 0 {
        assert(json_of(es[0].0, a[2 * 0int]) && json_of(es[0].1, a[2 * 0int + 1]));
        assert(reads_back(a[0], arr@[2 * i + 0]));
        assert(reads_back(a[1], arr@[2 * i + 1]));
        lemma_value(schema, kt, es[0].0, a[0], arr@[2 * i]);
        lemma_value(schema, vt, es[0].1, a[1], arr@[2 * i + 1]);
        let rest = es.drop_first();
        let ra = a.subrange(2, a.len() as int);
        assert forall|k: int|
            0 <= k < rest.len() implies json_of((#[trigger] rest[k]).0, ra[2 * k]) && json_of(
            rest[k].1,
            ra[2 * k + 1],
        ) by {
            assert(rest[k] == es[k + 1]);
            assert(ra[2 * k] == a[2 * (k + 1)]);
            assert(ra[2 * k + 1] == a[2 * (k + 1) + 1]);
        }
        assert forall|k: int| 0 <= k < ra.len() implies reads_back(#[trigger] ra[k], arr@[2 * (i + 1) + k]) by {
            assert(ra[k] == a[k + 2]);
            assert(reads_back(a[k + 2], arr@[2 * i + (k + 2)]));
        }
        lemma_entries(schema, kt, vt, rest, ra, arr, i + 1);
        assert(seq![es[0]] + rest =~= es);
    } else {
        assert(es =~= Seq::<(ValueV, ValueV)>::empty());
    }
}

proof fn lemma_fdefs(
    schema: SchemaDef,
    fds: Seq<FieldDef>,
    k: int,
    fs: Seq<FieldV>,
    ms: Seq<(String, JsonOut)>,
    n: Vec<(String, Json)>,
)
    requires
        bases_acyclic(schema),
        0 <= k <= fs.len(),
        fds.len() == fs.len(),
        ms.len() == fs.len(),
        json_fields_conform(schema, fds.subrange(k, fds.len() as int), fs.subrange(k, fs.len() as int)),
        forall|i: int| k <= i < fs.len() ==> json_of((#[trigger] fs[i]).value, ms[i].1),
        forall|i: int|
            k <= i < fs.len() ==> (member_index(n@, (#[trigger] fds[i]).metadata.name@) matches Some(p) && reads_back(
                ms[i].1,
                n@[p].1,
            )),
    ensures
        fields_free(fs.subrange(k, fs.len() as int)),
        tj_fdefs(schema, n, fds, k) == Ok::<Seq<FieldV>, ErrorV>(fs.subrange(k, fs.len() as int)),
    decreases fs, fs.len() - k,
{
    let tf = fs.subrange(k, fs.len() as int);
    if k < fs.len() {
        let fd = fds[k];
        let tail = fds.subrange(k, fds.len() as int);
        assert(tail[0] == fd);
        assert(tf[0] == fs[k]);
        assert(json_of(fs[k].value, ms[k].1));
        assert(member_index(n@, fds[k].metadata.name@) matches Some(p) && reads_back(ms[k].1, n@[p].1));
        let p = member_index(n@, fd.metadata.name@)->Some_0;
        lemma_value(schema, fd.type_def, fs[k].value, ms[k].1, n@[p].1);
        assert(tail.drop_first() =~= fds.subrange(k + 1, fds.len() as int));
        assert(tf.drop_first() =~= fs.subrange(k + 1, fs.len() as int));
        lemma_fdefs(schema, fds, k + 1, fs, ms, n);
        assert(fs[k] == FieldV { id: fd.id, name: Some(fd.metadata.name@), value: fs[k].value });
        assert(seq![fs[k]] + fs.subrange(k + 1, fs.len() as int) =~= tf);
    } else {
        assert(tf =~= Seq::<FieldV>::empty());
    }
}

/// Typed Simple JSON gives back what it wrote: a struct that conforms to the
/// schema's root is written without error, and read back unchanged, by the
/// schema, from any document that holds what was written.
pub proof fn lemma_json_roundtrip(schema: SchemaDef, s: StructV, out: JsonOut, j: Json)
    requires
        bases_acyclic(schema),
        schema.root.id == BondDataType::Struct,
        json_conforms(schema, schema.root, ValueV::Struct(s)),
        json_of(ValueV::Struct(s), out),
        reads_back(out, j),
    ensures
        bonded_free(ValueV::Struct(s)),
        tj_parse(schema, j) == Ok::<StructV, ErrorV>(s),
{
    lemma_value(schema, schema.root, ValueV::Struct(s), out, j);
    match tj_struct(schema, schema.root.struct_def, j) {
        Ok(x) => {},
        Err(e) => {},
    }
}

} // verus!
