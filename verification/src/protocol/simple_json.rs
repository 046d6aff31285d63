//! Simple JSON protocol: the mapping between Bond values and JSON documents.
//!
//! * struct  -> JSON object keyed by field name (numeric id as fallback)
//! * list/set/vector -> JSON array
//! * map     -> **flat** JSON array `[k, v, k, v, ...]`
//! * nullable -> `null` when empty, `[value]` when present
//! * blob    -> JSON array of `int8` values
//! * scalars -> JSON number / bool / string
//!
//! Two parsing modes are offered: a schema-less mode that preserves the JSON
//! structure losslessly (containers all become [`Value::List`] because their
//! Bond kind is ambiguous without a schema), and a schema-driven mode that
//! recovers the exact Bond types.
//!
//! The library works on JSON documents as values of its own: [`Json`] is a
//! document as read, [`JsonOut`] a document to be written. Turning JSON text
//! into a [`Json`], and a [`JsonOut`] into text, is left to the caller.

use vstd::prelude::*;
use crate::constants::{BondDataType, ListSubType};
use crate::error::{Error, ErrorV};
use crate::constants::kind_name;
use crate::message::{data_type_name, push_decimal, push_str, string_from_chars};
use crate::schema::{missing_element_error, missing_key_error, FieldDef, SchemaDef, TypeDef};
use super::simple::{bases_acyclic, chain_ends, no_struct_error, no_struct_message, schema_struct};
use crate::text::decimal;
use crate::value::{
    fields_view, lemma_list_view, lemma_map_view, lemma_struct_value_view, type_of_v, values_view,
    entries_view, Field, FieldV, Struct, StructV, Value, ValueV,
};

verus! {

// ---------------------------------------------------------------------------
// JSON documents
// ---------------------------------------------------------------------------

/// What the mapping reads of a JSON number: its value as a `u64` and as an
/// `i64` where it is an integer in their ranges, the bits of the nearest `f64`,
/// and the bits of that `f64` rounded to `f32`.
#[derive(Clone, Copy, Debug, PartialEq, Eq)]
pub struct JsonNumber {
    /// The number as a `u64`, when it is a non-negative integer in range.
    pub as_u64: Option<u64>,
    /// The number as an `i64`, when it is an integer in range.
    pub as_i64: Option<i64>,
    /// The IEEE-754 bits of the number as an `f64`.
    pub f64_bits: u64,
    /// The IEEE-754 bits of that `f64` rounded to an `f32`.
    pub f32_bits: u32,
}

/// A JSON document as read.
#[derive(Debug)]
pub enum Json {
    /// `null`.
    Null,
    /// `true` or `false`.
    Bool(bool),
    /// A number.
    Number(JsonNumber),
    /// A string.
    Str(String),
    /// An array.
    Array(Vec<Json>),
    /// An object: its members in the document's order, each key once.
    Object(Vec<(String, Json)>),
}

/// A JSON document to be written.
#[derive(Debug)]
pub enum JsonOut {
    /// `null`.
    Null,
    /// `true` or `false`.
    Bool(bool),
    /// A non-negative integer.
    UInt(u64),
    /// A signed integer.
    Int(i64),
    /// A finite `f32`, by its bits, written as the `f64` it widens to.
    Single(u32),
    /// A finite `f64`, by its bits.
    Double(u64),
    /// A string.
    Str(String),
    /// An array.
    Array(Vec<JsonOut>),
    /// An object: its members in order. Writing a member whose key was already
    /// written replaces the earlier value.
    Object(Vec<(String, JsonOut)>),
}

// ---------------------------------------------------------------------------
// Writing
// ---------------------------------------------------------------------------

/// The bits of an `f32` denote a finite number: the exponent is not all ones.
pub open spec fn f32_finite(bits: u32) -> bool {
    (bits >> 23u32) & 0xffu32 != 0xffu32
}

/// The bits of an `f64` denote a finite number: the exponent is not all ones.
pub open spec fn f64_finite(bits: u64) -> bool {
    (bits >> 52u64) & 0x7ffu64 != 0x7ffu64
}

/// The error for a `bonded<T>` value, which Simple JSON cannot carry.
pub open spec fn bonded_json_error() -> ErrorV {
    ErrorV::Json("cannot serialize bonded<T> to Simple JSON without a schema"@)
}

/// The value holds no `bonded<T>` anywhere.
pub open spec fn bonded_free(v: ValueV) -> bool
    decreases v,
{
    match v {
        ValueV::Bonded(_) => false,
        ValueV::Struct(s) => fields_free(s.fields),
        ValueV::List { items, .. } => items_free(items),
        ValueV::SetOf { items, .. } => items_free(items),
        ValueV::MapOf { entries, .. } => entries_free(entries),
        ValueV::Nullable { value, .. } => match value {
            Some(b) => bonded_free(*b),
            None => true,
        },
        _ => true,
    }
}

/// No item holds a `bonded<T>`.
pub open spec fn items_free(items: Seq<ValueV>) -> bool
    decreases items,
{
    items.len() > 0 ==> bonded_free(items[0]) && items_free(items.drop_first())
}

/// No field value holds a `bonded<T>`.
pub open spec fn fields_free(fs: Seq<FieldV>) -> bool
    decreases fs,
{
    fs.len() > 0 ==> bonded_free(fs[0].value) && fields_free(fs.drop_first())
}

/// No key or value of the entries holds a `bonded<T>`.
pub open spec fn entries_free(es: Seq<(ValueV, ValueV)>) -> bool
    decreases es,
{
    es.len() > 0 ==> bonded_free(es[0].0) && bonded_free(es[0].1) && entries_free(es.drop_first())
}

/// The object key of a field: its name, or its id in decimal.
pub open spec fn json_key(f: FieldV) -> Seq<char> {
    match f.name {
        Some(n) => n,
        None => decimal(f.id as nat),
    }
}

/// `out` is the JSON document that value `v` is written as.
pub open spec fn json_of(v: ValueV, out: JsonOut) -> bool
    decreases v,
{
    match v {
        ValueV::Bool(b) => out == JsonOut::Bool(b),
        ValueV::UInt8(x) => out == JsonOut::UInt(x as u64),
        ValueV::UInt16(x) => out == JsonOut::UInt(x as u64),
        ValueV::UInt32(x) => out == JsonOut::UInt(x as u64),
        ValueV::UInt64(x) => out == JsonOut::UInt(x),
        ValueV::Int8(x) => out == JsonOut::Int(x as i64),
        ValueV::Int16(x) => out == JsonOut::Int(x as i64),
        ValueV::Int32(x) => out == JsonOut::Int(x as i64),
        ValueV::Int64(x) => out == JsonOut::Int(x),
        ValueV::Float(b) => out == (if f32_finite(b) { JsonOut::Single(b) } else { JsonOut::Null }),
        ValueV::Double(b) => out == (if f64_finite(b) { JsonOut::Double(b) } else { JsonOut::Null }),
        ValueV::Str(s) => out matches JsonOut::Str(t) && t@ == s,
        ValueV::WStr(s) => out matches JsonOut::Str(t) && t@ == s,
        ValueV::Struct(s) => out matches JsonOut::Object(m) && json_fields(s.fields, m@),
        ValueV::List { items, .. } => out matches JsonOut::Array(a) && json_items(items, a@),
        ValueV::SetOf { items, .. } => out matches JsonOut::Array(a) && json_items(items, a@),
        ValueV::MapOf { entries, .. } => out matches JsonOut::Array(a) && json_entries(entries, a@),
        ValueV::Nullable { value, .. } => match value {
            None => out == JsonOut::Null,
            Some(b) => out matches JsonOut::Array(a) && a@.len() == 1 && json_of(*b, a@[0]),
        },
        ValueV::Blob(bytes) => out matches JsonOut::Array(a) && a@.len() == bytes.len() && forall|i: int|
            0 <= i < bytes.len() ==> #[trigger] a@[i] == JsonOut::Int((bytes[i] as i8) as i64),
        ValueV::Bonded(_) => false,
    }
}

/// `a` is the array that `items` are written as, item by item.
pub open spec fn json_items(items: Seq<ValueV>, a: Seq<JsonOut>) -> bool
    decreases items,
{
    &&& a.len() == items.len()
    &&& items.len() > 0 ==> json_of(items[0], a[0]) && json_items(items.drop_first(), a.drop_first())
}

/// `m` are the object members that fields `fs` are written as, field by field.
pub open spec fn json_fields(fs: Seq<FieldV>, m: Seq<(String, JsonOut)>) -> bool
    decreases fs,
{
    &&& m.len() == fs.len()
    &&& fs.len() > 0 ==> m[0].0@ == json_key(fs[0]) && json_of(fs[0].value, m[0].1) && json_fields(
        fs.drop_first(),
        m.drop_first(),
    )
}

/// `a` is the flat array that map entries `es` are written as: key, value, key, ...
pub open spec fn json_entries(es: Seq<(ValueV, ValueV)>, a: Seq<JsonOut>) -> bool
    decreases es,
{
    &&& a.len() == 2 * es.len()
    &&& es.len() > 0 ==> json_of(es[0].0, a[0]) && json_of(es[0].1, a[1]) && json_entries(
        es.drop_first(),
        a.subrange(2, a.len() as int),
    )
}

proof fn lemma_items_free(items: Seq<ValueV>)
    ensures
        items_free(items) <==> forall|i: int| 0 <= i < items.len() ==> bonded_free(#[trigger] items[i]),
    decreases items.len(),
{
    if items.len() > 0 {
        lemma_items_free(items.drop_first());
        assert forall|i: int| 1 <= i < items.len() implies items[i] == #[trigger] items.drop_first()[i - 1] by {}
        if items_free(items) {
            assert forall|i: int| 0 <= i < items.len() implies bonded_free(#[trigger] items[i]) by {
                if i > 0 { assert(items[i] == items.drop_first()[i - 1]); }
            }
        }
    }
}

proof fn lemma_fields_free(fs: Seq<FieldV>)
    ensures
        fields_free(fs) <==> forall|i: int| 0 <= i < fs.len() ==> bonded_free(#[trigger] fs[i].value),
    decreases fs.len(),
{
    if fs.len() > 0 {
        lemma_fields_free(fs.drop_first());
        assert forall|i: int| 1 <= i < fs.len() implies fs[i] == #[trigger] fs.drop_first()[i - 1] by {}
        if fields_free(fs) {
            assert forall|i: int| 0 <= i < fs.len() implies bonded_free(#[trigger] fs[i].value) by {
                if i > 0 { assert(fs[i] == fs.drop_first()[i - 1]); }
            }
        }
    }
}

proof fn lemma_entries_free(es: Seq<(ValueV, ValueV)>)
    ensures
        entries_free(es) <==> forall|i: int|
            0 <= i < es.len() ==> bonded_free((#[trigger] es[i]).0) && bonded_free(es[i].1),
    decreases es.len(),
{
    if es.len() > 0 {
        lemma_entries_free(es.drop_first());
        assert forall|i: int| 1 <= i < es.len() implies es[i] == #[trigger] es.drop_first()[i - 1] by {}
        if entries_free(es) {
            assert forall|i: int| 0 <= i < es.len() implies bonded_free((#[trigger] es[i]).0) && bonded_free(es[i].1) by {
                if i > 0 { assert(es[i] == es.drop_first()[i - 1]); }
            }
        }
    }
}

proof fn lemma_json_items(items: Seq<ValueV>, a: Seq<JsonOut>)
    requires
        a.len() == items.len(),
        forall|i: int| 0 <= i < items.len() ==> json_of(#[trigger] items[i], a[i]),
    ensures
        json_items(items, a),
    decreases items.len(),
{
    if items.len() > 0 {
        assert forall|i: int| 0 <= i < items.len() - 1 implies json_of(
            #[trigger] items.drop_first()[i],
            a.drop_first()[i],
        ) by {
            assert(items.drop_first()[i] == items[i + 1]);
        }
        lemma_json_items(items.drop_first(), a.drop_first());
    }
}

proof fn lemma_json_fields(fs: Seq<FieldV>, m: Seq<(String, JsonOut)>)
    requires
        m.len() == fs.len(),
        forall|i: int|
            0 <= i < fs.len() ==> m[i].0@ == json_key(#[trigger] fs[i]) && json_of(fs[i].value, m[i].1),
    ensures
        json_fields(fs, m),
    decreases fs.len(),
{
    if fs.len() > 0 {
        assert forall|i: int| 0 <= i < fs.len() - 1 implies m.drop_first()[i].0@ == json_key(
            #[trigger] fs.drop_first()[i],
        ) && json_of(fs.drop_first()[i].value, m.drop_first()[i].1) by {
            assert(fs.drop_first()[i] == fs[i + 1]);
        }
        lemma_json_fields(fs.drop_first(), m.drop_first());
    }
}

proof fn lemma_json_entries(es: Seq<(ValueV, ValueV)>, a: Seq<JsonOut>)
    requires
        a.len() == 2 * es.len(),
        forall|i: int|
            0 <= i < es.len() ==> json_of((#[trigger] es[i]).0, a[2 * i]) && json_of(es[i].1, a[2 * i + 1]),
    ensures
        json_entries(es, a),
    decreases es.len(),
{
    if es.len() > 0 {
        let rest = a.subrange(2, a.len() as int);
        assert forall|i: int| 0 <= i < es.len() - 1 implies json_of(
            (#[trigger] es.drop_first()[i]).0,
            rest[2 * i],
        ) && json_of(es.drop_first()[i].1, rest[2 * i + 1]) by {
            assert(es.drop_first()[i] == es[i + 1]);
            assert(rest[2 * i] == a[2 * (i + 1)]);
            assert(rest[2 * i + 1] == a[2 * (i + 1) + 1]);
        }
        assert(json_of(es[0].0, a[2 * 0int]) && json_of(es[0].1, a[2 * 0int + 1]));
        lemma_json_entries(es.drop_first(), rest);
    }
}

/// The result of writing struct `s`: the object of its fields, or the error for
/// a `bonded<T>` held anywhere in it.
pub open spec fn written_struct(s: StructV, r: Result<JsonOut, Error>) -> bool {
    match r {
        Ok(out) => bonded_free(ValueV::Struct(s)) && json_of(ValueV::Struct(s), out),
        Err(e) => !bonded_free(ValueV::Struct(s)) && e@ == bonded_json_error(),
    }
}

/// The result of writing value `v`.
pub open spec fn written_value(v: ValueV, r: Result<JsonOut, Error>) -> bool {
    match r {
        Ok(out) => bonded_free(v) && json_of(v, out),
        Err(e) => !bonded_free(v) && e@ == bonded_json_error(),
    }
}

/// A field id as a decimal string.
fn decimal_string(id: u16) -> (r: String)
    ensures
        r@ == decimal(id as nat),
{
    let mut out: Vec<char> = Vec::new();
    push_decimal(&mut out, id as u64);
    string_from_chars(out)
}

fn bonded_error() -> (e: Error)
    ensures
        e@ == bonded_json_error(),
{
    Error::Json("cannot serialize bonded<T> to Simple JSON without a schema".to_owned())
}

/// A `float`: a number when finite, `null` otherwise (JSON has no infinities or
/// NaN).
fn number_f32(bits: u32) -> (r: JsonOut)
    ensures
        r == (if f32_finite(bits) { JsonOut::Single(bits) } else { JsonOut::Null }),
{
    if (bits >> 23u32) & 0xffu32 != 0xffu32 {
        JsonOut::Single(bits)
    } else {
        JsonOut::Null
    }
}

/// A `double`: a number when finite, `null` otherwise.
fn number_f64(bits: u64) -> (r: JsonOut)
    ensures
        r == (if f64_finite(bits) { JsonOut::Double(bits) } else { JsonOut::Null }),
{
    if (bits >> 52u64) & 0x7ffu64 != 0x7ffu64 {
        JsonOut::Double(bits)
    } else {
        JsonOut::Null
    }
}

/// Writes a struct as a JSON object keyed by field name, or by the field id in
/// decimal where the field has no name.
pub fn struct_to_json(s: &Struct) -> (r: Result<JsonOut, Error>)
    ensures
        written_struct(s@, r),
    decreases s, 0int,
{
    let mut map: Vec<(String, JsonOut)> = Vec::new();
    let mut i: usize = 0;
    while i < s.fields.len()
        invariant
            i <= s.fields@.len(),
            map@.len() == i,
            forall|k: int|
                0 <= k < i ==> map@[k].0@ == json_key(#[trigger] s@.fields[k]) && json_of(
                    s@.fields[k].value,
                    map@[k].1,
                ) && bonded_free(s@.fields[k].value),
        decreases s.fields@.len() - i,
    {
        let f = &s.fields[i];
        proof { assert(s@.fields[i as int] == f@); }
        let key = match &f.name {
            Some(n) => n.clone(),
            None => decimal_string(f.id),
        };
        match value_to_json(&f.value) {
            Ok(v) => {
                map.push((key, v));
            },
            Err(e) => {
                proof {
                    lemma_fields_free(s@.fields);
                    assert(!bonded_free(s@.fields[i as int].value));
                }
                return Err(e);
            },
        }
        i = i + 1;
    }
    proof {
        lemma_fields_free(s@.fields);
        lemma_json_fields(s@.fields, map@);
    }
    Ok(JsonOut::Object(map))
}

/// Writes a value.
fn value_to_json(value: &Value) -> (r: Result<JsonOut, Error>)
    ensures
        written_value(value@, r),
    decreases value, 1int,
{
    match value {
        Value::Bool(v) => Ok(JsonOut::Bool(*v)),
        Value::UInt8(v) => Ok(JsonOut::UInt(*v as u64)),
        Value::UInt16(v) => Ok(JsonOut::UInt(*v as u64)),
        Value::UInt32(v) => Ok(JsonOut::UInt(*v as u64)),
        Value::UInt64(v) => Ok(JsonOut::UInt(*v)),
        Value::Int8(v) => Ok(JsonOut::Int(*v as i64)),
        Value::Int16(v) => Ok(JsonOut::Int(*v as i64)),
        Value::Int32(v) => Ok(JsonOut::Int(*v as i64)),
        Value::Int64(v) => Ok(JsonOut::Int(*v)),
        Value::Float(bits) => Ok(number_f32(*bits)),
        Value::Double(bits) => Ok(number_f64(*bits)),
        Value::Str(s) => Ok(JsonOut::Str(s.clone())),
        Value::WStr(s) => Ok(JsonOut::Str(s.clone())),
        Value::Struct(s) => {
            proof { lemma_struct_value_view(*s); }
            struct_to_json(s)
        },
        Value::List { element, items } => {
            proof {
                lemma_list_view(*element, *items);
                lemma_items_free(values_view(items@));
            }
            match items_to_json(items) {
                Ok(a) => {
                    proof { lemma_json_items(values_view(items@), a@); }
                    Ok(JsonOut::Array(a))
                },
                Err(e) => Err(e),
            }
        },
        Value::SetOf { element, items } => {
            proof {
                lemma_list_view(*element, *items);
                lemma_items_free(values_view(items@));
            }
            match items_to_json(items) {
                Ok(a) => {
                    proof { lemma_json_items(values_view(items@), a@); }
                    Ok(JsonOut::Array(a))
                },
                Err(e) => Err(e),
            }
        },
        Value::MapOf { key, value: vt, entries } => {
            proof {
                lemma_map_view(*key, *vt, *entries);
                lemma_entries_free(entries_view(entries@));
            }
            match entries_to_json(entries) {
                Ok(a) => {
                    proof { lemma_json_entries(entries_view(entries@), a@); }
                    Ok(JsonOut::Array(a))
                },
                Err(e) => Err(e),
            }
        },
        Value::Nullable { element, value: inner } => match inner {
            None => Ok(JsonOut::Null),
            Some(b) => match value_to_json(b) {
                Ok(v) => {
                    let mut a: Vec<JsonOut> = Vec::new();
                    a.push(v);
                    Ok(JsonOut::Array(a))
                },
                Err(e) => Err(e),
            },
        },
        Value::Blob(bytes) => {
            let mut a: Vec<JsonOut> = Vec::new();
            let mut i: usize = 0;
            while i < bytes.len()
                invariant
                    i <= bytes@.len(),
                    a@.len() == i,
                    forall|k: int| 0 <= k < i ==> #[trigger] a@[k] == JsonOut::Int((bytes@[k] as i8) as i64),
                decreases bytes@.len() - i,
            {
                a.push(JsonOut::Int((bytes[i] as i8) as i64));
                i = i + 1;
            }
            Ok(JsonOut::Array(a))
        },
        Value::Bonded(_) => Err(bonded_error()),
    }
}

/// Writes each item of a list or set.
fn items_to_json(items: &Vec<Value>) -> (r: Result<Vec<JsonOut>, Error>)
    ensures
        match r {
            Ok(a) => a@.len() == items@.len() && (forall|k: int|
                0 <= k < items@.len() ==> bonded_free(#[trigger] values_view(items@)[k]) && json_of(
                    values_view(items@)[k],
                    a@[k],
                )),
            Err(e) => !(forall|k: int| 0 <= k < items@.len() ==> bonded_free(#[trigger] values_view(items@)[k]))
                && e@ == bonded_json_error(),
        },
    decreases items, 2int,
{
    let mut a: Vec<JsonOut> = Vec::new();
    let mut i: usize = 0;
    while i < items.len()
        invariant
            i <= items@.len(),
            a@.len() == i,
            forall|k: int|
                0 <= k < i ==> bonded_free(#[trigger] values_view(items@)[k]) && json_of(
                    values_view(items@)[k],
                    a@[k],
                ),
        decreases items@.len() - i,
    {
        proof { assert(values_view(items@)[i as int] == items@[i as int]@); }
        match value_to_json(&items[i]) {
            Ok(v) => {
                a.push(v);
            },
            Err(e) => {
                proof { assert(!bonded_free(values_view(items@)[i as int])); }
                return Err(e);
            },
        }
        i = i + 1;
    }
    Ok(a)
}

/// Writes the entries of a map as one flat array, key then value.
fn entries_to_json(entries: &Vec<(Value, Value)>) -> (r: Result<Vec<JsonOut>, Error>)
    ensures
        match r {
            Ok(a) => a@.len() == 2 * entries@.len() && (forall|k: int|
                0 <= k < entries@.len() ==> bonded_free((#[trigger] entries_view(entries@)[k]).0) && bonded_free(
                    entries_view(entries@)[k].1,
                ) && json_of(entries_view(entries@)[k].0, a@[2 * k]) && json_of(
                    entries_view(entries@)[k].1,
                    a@[2 * k + 1],
                )),
            Err(e) => !(forall|k: int|
                0 <= k < entries@.len() ==> bonded_free((#[trigger] entries_view(entries@)[k]).0) && bonded_free(
                    entries_view(entries@)[k].1,
                )) && e@ == bonded_json_error(),
        },
    decreases entries, 2int,
{
    let mut a: Vec<JsonOut> = Vec::new();
    let mut i: usize = 0;
    while i < entries.len()
        invariant
            i <= entries@.len(),
            a@.len() == 2 * i,
            forall|k: int|
                0 <= k < i ==> bonded_free((#[trigger] entries_view(entries@)[k]).0) && bonded_free(
                    entries_view(entries@)[k].1,
                ) && json_of(entries_view(entries@)[k].0, a@[2 * k]) && json_of(
                    entries_view(entries@)[k].1,
                    a@[2 * k + 1],
                ),
        decreases entries@.len() - i,
    {
        proof { assert(entries_view(entries@)[i as int] == (entries@[i as int].0@, entries@[i as int].1@)); }
        let k = match value_to_json(&entries[i].0) {
            Ok(k) => k,
            Err(e) => {
                proof { assert(!bonded_free(entries_view(entries@)[i as int].0)); }
                return Err(e);
            },
        };
        let v = match value_to_json(&entries[i].1) {
            Ok(v) => v,
            Err(e) => {
                proof { assert(!bonded_free(entries_view(entries@)[i as int].1)); }
                return Err(e);
            },
        };
        a.push(k);
        a.push(v);
        i = i + 1;
    }
    Ok(a)
}

// ---------------------------------------------------------------------------
// Schema-less reading
// ---------------------------------------------------------------------------

/// `c` is an ASCII decimal digit.
pub open spec fn is_digit(c: char) -> bool {
    48 <= (c as u32) <= 57
}

/// The value of a string of decimal digits.
pub open spec fn digits_value(d: Seq<char>) -> nat
    decreases d.len(),
{
    if d.len() == 0 {
        0
    } else {
        digits_value(d.drop_last()) * 10 + ((d.last() as u32) - 48) as nat
    }
}

/// Every character of `d` is a decimal digit.
pub open spec fn all_digits(d: Seq<char>) -> bool {
    forall|i: int| 0 <= i < d.len() ==> is_digit(#[trigger] d[i])
}

/// The digits of an unsigned number: the string without a leading `+`, where a
/// digit follows it.
pub open spec fn unsigned_digits(s: Seq<char>) -> Seq<char> {
    if s.len() >= 2 && s[0] == '+' {
        s.drop_first()
    } else {
        s
    }
}

/// A string read as a `u16` the way `str::parse::<u16>` reads it: an optional
/// `+`, then one or more decimal digits whose value fits in 16 bits.
pub open spec fn decimal_u16(s: Seq<char>) -> Option<u16> {
    let d = unsigned_digits(s);
    if d.len() > 0 && all_digits(d) && digits_value(d) <= 65535 {
        Some(digits_value(d) as u16)
    } else {
        None
    }
}

/// Reads a decimal `u16`, as [`decimal_u16`] says.
pub fn parse_u16(s: &str) -> (r: Option<u16>)
    ensures
        r == decimal_u16(s@),
{
    let n = s.unicode_len();
    let start: usize = if n >= 2 && s.get_char(0) == '+' { 1 } else { 0 };
    let ghost d = unsigned_digits(s@);
    proof { assert(d =~= s@.subrange(start as int, n as int)); }
    if start == n {
        return None;
    }
    let mut acc: u32 = 0;
    let mut i: usize = start;
    while i < n
        invariant
            n == s@.len(),
            start <= i <= n,
            d == s@.subrange(start as int, n as int),
            d == unsigned_digits(s@),
            forall|k: int| start <= k < i ==> is_digit(#[trigger] s@[k]),
            acc == (if digits_value(s@.subrange(start as int, i as int)) > 65535 {
                65536
            } else {
                digits_value(s@.subrange(start as int, i as int))
            }),
        decreases n - i,
    {
        let c = s.get_char(i);
        let cu = c as u32;
        if cu < 48 || cu > 57 {
            proof {
                assert(d[i - start] == s@[i as int]);
                assert(!is_digit(d[i - start]));
                assert(!all_digits(d));
            }
            return None;
        }
        proof {
            let p = s@.subrange(start as int, i as int);
            let q = s@.subrange(start as int, i + 1);
            assert(q.drop_last() =~= p);
            assert(q.last() == c);
        }
        let step = acc * 10 + (cu - 48);
        acc = if step > 65535 { 65536 } else { step };
        i = i + 1;
    }
    proof {
        assert(s@.subrange(start as int, i as int) == d);
        assert forall|k: int| 0 <= k < d.len() implies is_digit(#[trigger] d[k]) by {
            assert(d[k] == s@[start + k]);
        }
    }
    if acc > 65535 {
        None
    } else {
        Some(acc as u16)
    }
}

/// The error for a top-level document that is not an object.
pub open spec fn top_level_error() -> ErrorV {
    ErrorV::Json("top-level Simple JSON value must be an object"@)
}

/// The error for a struct read from something other than an object.
pub open spec fn not_object_error() -> ErrorV {
    ErrorV::Json("expected JSON object for struct"@)
}

/// The field id that an object key stands for: its decimal value, or 0.
pub open spec fn key_id(k: Seq<char>) -> u16 {
    match decimal_u16(k) {
        Some(x) => x,
        None => 0,
    }
}

/// A number read without a schema: a signed integer where it is one, else an
/// unsigned one, else a `double`.
pub open spec fn number_value(n: JsonNumber) -> ValueV {
    match n.as_i64 {
        Some(i) => ValueV::Int64(i),
        None => match n.as_u64 {
            Some(u) => ValueV::UInt64(u),
            None => ValueV::Double(n.f64_bits),
        },
    }
}

/// The value a JSON document is read as without a schema: `null` as an empty
/// nullable, an array as a list tagged with its first item's type, an object as
/// a struct whose field ids are the keys' decimal values (0 for other keys).
pub open spec fn sl_value(j: Json) -> ValueV
    decreases j,
{
    match j {
        Json::Null => ValueV::Nullable { element: BondDataType::Unavailable, value: None },
        Json::Bool(b) => ValueV::Bool(b),
        Json::Number(n) => number_value(n),
        Json::Str(s) => ValueV::Str(s@),
        Json::Array(items) => {
            let vs = Seq::new(
                items@.len(),
                |i: int|
                    if 0 <= i < items@.len() {
                        sl_value(items@[i])
                    } else {
                        ValueV::Bool(false)
                    },
            );
            ValueV::List {
                element: if vs.len() == 0 { BondDataType::Unavailable } else { type_of_v(vs[0]) },
                items: vs,
            }
        },
        Json::Object(m) => ValueV::Struct(
            StructV {
                fields: Seq::new(
                    m@.len(),
                    |i: int|
                        if 0 <= i < m@.len() {
                            FieldV { id: key_id(m@[i].0@), name: Some(m@[i].0@), value: sl_value(m@[i].1) }
                        } else {
                            FieldV { id: 0, name: None, value: ValueV::Bool(false) }
                        },
                ),
            },
        ),
    }
}

/// Two documents are alike as schema-less reading sees them: the same shape,
/// literals, strings and keys, in the same order, and numbers that read as the
/// same value.
pub open spec fn alike(a: Json, b: Json) -> bool
    decreases a,
{
    match a {
        Json::Null => b is Null,
        Json::Bool(x) => b matches Json::Bool(y) && x == y,
        Json::Number(x) => b matches Json::Number(y) && number_value(x) == number_value(y),
        Json::Str(x) => b matches Json::Str(y) && x@ == y@,
        Json::Array(x) => b matches Json::Array(y) && items_alike(x@, y@),
        Json::Object(x) => b matches Json::Object(y) && members_alike(x@, y@),
    }
}

/// The items of two arrays are alike, position by position.
pub open spec fn items_alike(x: Seq<Json>, y: Seq<Json>) -> bool
    decreases x,
{
    &&& x.len() == y.len()
    &&& x.len() > 0 ==> alike(x[0], y[0]) && items_alike(x.drop_first(), y.drop_first())
}

/// The members of two objects have the same keys and alike values, position by
/// position.
pub open spec fn members_alike(x: Seq<(String, Json)>, y: Seq<(String, Json)>) -> bool
    decreases x,
{
    &&& x.len() == y.len()
    &&& x.len() > 0 ==> x[0].0@ == y[0].0@ && alike(x[0].1, y[0].1) && members_alike(x.drop_first(), y.drop_first())
}

proof fn lemma_items_alike(x: Seq<Json>, y: Seq<Json>)
    requires
        x.len() == y.len(),
        forall|i: int| 0 <= i < x.len() ==> alike(#[trigger] x[i], y[i]),
    ensures
        items_alike(x, y),
    decreases x.len(),
{
    if x.len() > 0 {
        assert forall|i: int| 0 <= i < x.len() - 1 implies alike(#[trigger] x.drop_first()[i], y.drop_first()[i]) by {
            assert(x.drop_first()[i] == x[i + 1]);
            assert(y.drop_first()[i] == y[i + 1]);
        }
        lemma_items_alike(x.drop_first(), y.drop_first());
    }
}

proof fn lemma_members_alike(x: Seq<(String, Json)>, y: Seq<(String, Json)>)
    requires
        x.len() == y.len(),
        forall|i: int| 0 <= i < x.len() ==> (#[trigger] x[i]).0@ == y[i].0@ && alike(x[i].1, y[i].1),
    ensures
        members_alike(x, y),
    decreases x.len(),
{
    if x.len() > 0 {
        assert forall|i: int| 0 <= i < x.len() - 1 implies (#[trigger] x.drop_first()[i]).0@ == y.drop_first()[i].0@
            && alike(x.drop_first()[i].1, y.drop_first()[i].1) by {
            assert(x.drop_first()[i] == x[i + 1]);
            assert(y.drop_first()[i] == y[i + 1]);
        }
        lemma_members_alike(x.drop_first(), y.drop_first());
    }
}

/// Schema-less reading loses nothing of a document's structure: two documents
/// that read as the same value are alike.
pub proof fn lemma_schemaless_lossless(a: Json, b: Json)
    requires
        sl_value(a) == sl_value(b),
    ensures
        alike(a, b),
    decreases a,
{
    match a {
        Json::Array(x) => {
            let y = b->Array_0;
            let va = sl_value(a)->List_items;
            let vb = sl_value(b)->List_items;
            assert(va.len() == x@.len() && vb.len() == y@.len());
            assert forall|i: int| 0 <= i < x@.len() implies alike(#[trigger] x@[i], y@[i]) by {
                assert(va[i] == vb[i]);
                lemma_schemaless_lossless(x@[i], y@[i]);
            }
            lemma_items_alike(x@, y@);
        },
        Json::Object(x) => {
            let y = b->Object_0;
            let fa = sl_value(a)->Struct_0.fields;
            let fb = sl_value(b)->Struct_0.fields;
            assert(fa.len() == x@.len() && fb.len() == y@.len());
            assert forall|i: int| 0 <= i < x@.len() implies (#[trigger] x@[i]).0@ == y@[i].0@ && alike(
                x@[i].1,
                y@[i].1,
            ) by {
                assert(fa[i] == fb[i]);
                lemma_schemaless_lossless(x@[i].1, y@[i].1);
            }
            lemma_members_alike(x@, y@);
        },
        _ => {},
    }
}

/// What reading a document without a schema yields.
pub open spec fn sl_parse(j: Json) -> Result<StructV, ErrorV> {
    match j {
        Json::Object(_) => match sl_value(j) {
            ValueV::Struct(s) => Ok(s),
            _ => Err(top_level_error()),
        },
        _ => Err(top_level_error()),
    }
}

fn json_error(msg: &str) -> (e: Error)
    ensures
        e@ == ErrorV::Json(msg@),
{
    Error::Json(msg.to_owned())
}

/// Reads the members of an object as the fields of a struct.
fn object_to_struct(m: &Vec<(String, Json)>) -> (r: Struct)
    ensures
        ValueV::Struct(r@) == sl_value(Json::Object(*m)),
    decreases m,
{
    let mut fields: Vec<Field> = Vec::new();
    let mut i: usize = 0;
    while i < m.len()
        invariant
            i <= m@.len(),
            fields@.len() == i,
            forall|k: int|
                0 <= k < i ==> (#[trigger] fields@[k])@ == (FieldV {
                    id: key_id(m@[k].0@),
                    name: Some(m@[k].0@),
                    value: sl_value(m@[k].1),
                }),
        decreases m@.len() - i,
    {
        let id = match parse_u16(m[i].0.as_str()) {
            Some(x) => x,
            None => 0,
        };
        let value = json_to_value_schemaless(&m[i].1);
        fields.push(Field { id, name: Some(m[i].0.clone()), value });
        i = i + 1;
    }
    let r = Struct { fields };
    proof {
        let want = sl_value(Json::Object(*m))->Struct_0.fields;
        assert(r@.fields =~= want) by {
            assert forall|k: int| 0 <= k < want.len() implies r@.fields[k] == want[k] by {
                assert(r@.fields[k] == fields@[k]@);
            }
        }
    }
    r
}

/// Reads a value without a schema.
fn json_to_value_schemaless(json: &Json) -> (r: Value)
    ensures
        r@ == sl_value(*json),
    decreases json,
{
    match json {
        Json::Null => Value::Nullable { element: BondDataType::Unavailable, value: None },
        Json::Bool(b) => Value::Bool(*b),
        Json::Number(n) => match n.as_i64 {
            Some(i) => Value::Int64(i),
            None => match n.as_u64 {
                Some(u) => Value::UInt64(u),
                None => Value::Double(n.f64_bits),
            },
        },
        Json::Str(s) => Value::Str(s.clone()),
        Json::Array(items) => {
            let out = items_schemaless(items);
            let element = if out.len() == 0 {
                BondDataType::Unavailable
            } else {
                out[0].type_of()
            };
            proof {
                lemma_list_view(element, out);
                let want = sl_value(*json)->List_items;
                assert(values_view(out@) =~= want) by {
                    assert forall|k: int| 0 <= k < want.len() implies values_view(out@)[k] == want[k] by {
                        assert(values_view(out@)[k] == out@[k]@);
                    }
                }
            }
            Value::List { element, items: out }
        },
        Json::Object(m) => {
            let s = object_to_struct(m);
            proof { lemma_struct_value_view(s); }
            Value::Struct(s)
        },
    }
}

/// Reads each item of an array without a schema.
fn items_schemaless(items: &Vec<Json>) -> (out: Vec<Value>)
    ensures
        out@.len() == items@.len(),
        forall|k: int| 0 <= k < items@.len() ==> (#[trigger] out@[k])@ == sl_value(items@[k]),
    decreases items,
{
    let mut out: Vec<Value> = Vec::new();
    let mut i: usize = 0;
    while i < items.len()
        invariant
            i <= items@.len(),
            out@.len() == i,
            forall|k: int| 0 <= k < i ==> (#[trigger] out@[k])@ == sl_value(items@[k]),
        decreases items@.len() - i,
    {
        let v = json_to_value_schemaless(&items[i]);
        out.push(v);
        i = i + 1;
    }
    out
}

/// Reads a struct without a schema; anything but an object is an error.
fn json_to_struct_schemaless(json: &Json) -> (r: Result<Struct, Error>)
    ensures
        match json {
            Json::Object(_) => r matches Ok(s) && ValueV::Struct(s@) == sl_value(*json),
            _ => r matches Err(e) && e@ == not_object_error(),
        },
{
    match json {
        Json::Object(m) => Ok(object_to_struct(m)),
        _ => Err(json_error("expected JSON object for struct")),
    }
}

/// Reads a Simple JSON document without a schema into a structurally faithful
/// tree. Container kind is not recoverable without a schema, so every array
/// becomes a [`Value::List`].
pub fn from_json(json: &Json) -> (r: Result<Struct, Error>)
    ensures
        match sl_parse(*json) {
            Ok(s) => r matches Ok(x) && x@ == s,
            Err(e) => r matches Err(x) && x@ == e,
        },
{
    match json {
        Json::Object(_) => json_to_struct_schemaless(json),
        _ => Err(json_error("top-level Simple JSON value must be an object")),
    }
}

// ---------------------------------------------------------------------------
// Schema-driven reading
// ---------------------------------------------------------------------------

/// The error for a JSON number that was expected for `what`.
pub open spec fn number_error(what: Seq<char>) -> ErrorV {
    ErrorV::Json("expected JSON number for "@ + what)
}

/// The error for a type that the Simple JSON mapping does not carry.
pub open spec fn unsupported_json_type_error(ty: BondDataType) -> ErrorV {
    ErrorV::SchemaError("unsupported type "@ + kind_name(ty) + " in Simple JSON schema"@)
}

/// The error for a schema whose root is not a struct.
pub open spec fn json_root_error() -> ErrorV {
    ErrorV::SchemaError("Simple JSON root must be a struct"@)
}

/// A document's value as a `u64`, when it is a number that has one.
pub open spec fn as_u64_of(j: Json) -> Option<u64> {
    match j {
        Json::Number(n) => n.as_u64,
        _ => None,
    }
}

/// A document's value as an `i64`, when it is a number that has one.
pub open spec fn as_i64_of(j: Json) -> Option<i64> {
    match j {
        Json::Number(n) => n.as_i64,
        _ => None,
    }
}

/// The `f64` bits of a number; those of `0.0` for anything else.
pub open spec fn f64_bits_of(j: Json) -> u64 {
    match j {
        Json::Number(n) => n.f64_bits,
        _ => 0,
    }
}

/// The `f32` bits of a number; those of `0.0` for anything else.
pub open spec fn f32_bits_of(j: Json) -> u32 {
    match j {
        Json::Number(n) => n.f32_bits,
        _ => 0,
    }
}

/// The position of the first member of `m` whose key is `key`.
pub open spec fn member_index(m: Seq<(String, Json)>, key: Seq<char>) -> Option<int> {
    if exists|p: int| 0 <= p < m.len() && #[trigger] m[p].0@ == key && forall|q: int| 0 <= q < p ==> m[q].0@ != key {
        Some(choose|p: int| 0 <= p < m.len() && #[trigger] m[p].0@ == key && forall|q: int| 0 <= q < p ==> m[q].0@ != key)
    } else {
        None
    }
}

/// The member that field `fd` is read from: the one keyed by the field's name,
/// else the one keyed by its id in decimal.
pub open spec fn field_member(m: Seq<(String, Json)>, fd: FieldDef) -> Option<int> {
    match member_index(m, fd.metadata.name@) {
        Some(p) => Some(p),
        None => member_index(m, decimal(fd.id as nat)),
    }
}

/// `fs` in front of what `r` yields.
pub open spec fn prepend<T>(fs: Seq<T>, r: Result<Seq<T>, ErrorV>) -> Result<Seq<T>, ErrorV> {
    match r {
        Ok(x) => Ok(fs + x),
        Err(e) => Err(e),
    }
}

/// The value that document `j` is read as, by type `td` of `schema`.
pub open spec fn tj_value(schema: SchemaDef, td: TypeDef, j: Json) -> Result<ValueV, ErrorV>
    decreases j, 3int, 0int,
{
    match td.id {
        BondDataType::Bool => match j {
            Json::Bool(b) => Ok(ValueV::Bool(b)),
            _ => Err(ErrorV::Json("expected bool"@)),
        },
        BondDataType::UInt8 => match as_u64_of(j) {
            Some(x) => Ok(ValueV::UInt8(x as u8)),
            None => Err(number_error("uint8"@)),
        },
        BondDataType::UInt16 => match as_u64_of(j) {
            Some(x) => Ok(ValueV::UInt16(x as u16)),
            None => Err(number_error("uint16"@)),
        },
        BondDataType::UInt32 => match as_u64_of(j) {
            Some(x) => Ok(ValueV::UInt32(x as u32)),
            None => Err(number_error("uint32"@)),
        },
        BondDataType::UInt64 => match as_u64_of(j) {
            Some(x) => Ok(ValueV::UInt64(x)),
            None => Err(number_error("uint64"@)),
        },
        BondDataType::Int8 => match as_i64_of(j) {
            Some(x) => Ok(ValueV::Int8(x as i8)),
            None => Err(number_error("int8"@)),
        },
        BondDataType::Int16 => match as_i64_of(j) {
            Some(x) => Ok(ValueV::Int16(x as i16)),
            None => Err(number_error("int16"@)),
        },
        BondDataType::Int32 => match as_i64_of(j) {
            Some(x) => Ok(ValueV::Int32(x as i32)),
            None => Err(number_error("int32"@)),
        },
        BondDataType::Int64 => match as_i64_of(j) {
            Some(x) => Ok(ValueV::Int64(x)),
            None => Err(number_error("int64"@)),
        },
        BondDataType::Float => Ok(ValueV::Float(f32_bits_of(j))),
        BondDataType::Double => Ok(ValueV::Double(f64_bits_of(j))),
        BondDataType::String => match j {
            Json::Str(s) => Ok(ValueV::Str(s@)),
            _ => Err(ErrorV::Json("expected string"@)),
        },
        BondDataType::WString => match j {
            Json::Str(s) => Ok(ValueV::WStr(s@)),
            _ => Err(ErrorV::Json("expected wstring"@)),
        },
        BondDataType::Struct => match tj_struct(schema, td.struct_def, j) {
            Ok(s) => Ok(ValueV::Struct(s)),
            Err(e) => Err(e),
        },
        BondDataType::List => match td.element {
            None => Err(missing_element_error()),
            Some(el) => match td.sub_type {
                ListSubType::Nullable => match j {
                    Json::Null => Ok(ValueV::Nullable { element: el.id, value: None }),
                    Json::Array(arr) => if arr@.len() == 1 {
                        match tj_value(schema, *el, arr@[0]) {
                            Ok(v) => Ok(ValueV::Nullable { element: el.id, value: Some(Box::new(v)) }),
                            Err(e) => Err(e),
                        }
                    } else {
                        Err(ErrorV::Json("nullable must be null or a single-element array"@))
                    },
                    _ => Err(ErrorV::Json("nullable must be null or a single-element array"@)),
                },
                ListSubType::Blob => match j {
                    Json::Array(arr) => match tj_blob(arr@, 0) {
                        Ok(b) => Ok(ValueV::Blob(b)),
                        Err(e) => Err(e),
                    },
                    _ => Err(ErrorV::Json("expected array for blob"@)),
                },
                ListSubType::Plain => match j {
                    Json::Array(arr) => match tj_items(schema, *el, arr, 0) {
                        Ok(vs) => Ok(ValueV::List { element: el.id, items: vs }),
                        Err(e) => Err(e),
                    },
                    _ => Err(ErrorV::Json("expected array"@)),
                },
            },
        },
        BondDataType::SetType => match td.element {
            None => Err(missing_element_error()),
            Some(el) => match j {
                Json::Array(arr) => match tj_items(schema, *el, arr, 0) {
                    Ok(vs) => Ok(ValueV::SetOf { element: el.id, items: vs }),
                    Err(e) => Err(e),
                },
                _ => Err(ErrorV::Json("expected array"@)),
            },
        },
        BondDataType::MapType => match td.key {
            None => Err(missing_key_error()),
            Some(kt) => match td.element {
                None => Err(missing_element_error()),
                Some(vt) => match j {
                    Json::Array(arr) => if arr@.len() % 2 != 0 {
                        Err(ErrorV::Json("map array must have an even length"@))
                    } else {
                        match tj_entries(schema, *kt, *vt, arr, 0) {
                            Ok(es) => Ok(ValueV::MapOf { key: kt.id, value: vt.id, entries: es }),
                            Err(e) => Err(e),
                        }
                    },
                    _ => Err(ErrorV::Json("expected flat array for map"@)),
                },
            },
        },
        _ => Err(unsupported_json_type_error(td.id)),
    }
}

/// The bytes of a blob read from array members `arr`, from position `i` on.
pub open spec fn tj_blob(arr: Seq<Json>, i: int) -> Result<Seq<u8>, ErrorV>
    decreases arr.len() - i,
{
    if i < 0 || i >= arr.len() {
        Ok(Seq::empty())
    } else {
        match as_i64_of(arr[i]) {
            None => Err(number_error("blob byte"@)),
            Some(x) => prepend(seq![(x as i8) as u8], tj_blob(arr, i + 1)),
        }
    }
}

/// The items read from array `arr` by element type `el`, from position `i` on.
pub open spec fn tj_items(schema: SchemaDef, el: TypeDef, arr: Vec<Json>, i: int) -> Result<Seq<ValueV>, ErrorV>
    decreases arr, 3int, arr@.len() - i,
{
    if i < 0 || i >= arr@.len() {
        Ok(Seq::empty())
    } else {
        match tj_value(schema, el, arr@[i]) {
            Err(e) => Err(e),
            Ok(v) => prepend(seq![v], tj_items(schema, el, arr, i + 1)),
        }
    }
}

/// The map entries read from flat array `arr`, from entry `i` on.
pub open spec fn tj_entries(schema: SchemaDef, kt: TypeDef, vt: TypeDef, arr: Vec<Json>, i: int) -> Result<
    Seq<(ValueV, ValueV)>,
    ErrorV,
>
    decreases arr, 3int, arr@.len() - 2 * i,
{
    if i < 0 || 2 * i + 1 >= arr@.len() {
        Ok(Seq::empty())
    } else {
        match tj_value(schema, kt, arr@[2 * i]) {
            Err(e) => Err(e),
            Ok(k) => match tj_value(schema, vt, arr@[2 * i + 1]) {
                Err(e) => Err(e),
                Ok(v) => prepend(seq![(k, v)], tj_entries(schema, kt, vt, arr, i + 1)),
            },
        }
    }
}

/// The struct at schema index `index` read from document `j`, which must be an
/// object.
pub open spec fn tj_struct(schema: SchemaDef, index: u16, j: Json) -> Result<StructV, ErrorV>
    decreases j, 2int, 0int,
{
    match j {
        Json::Object(m) => match tj_fields(schema, m, index, schema.structs@.len()) {
            Ok(fs) => Ok(StructV { fields: fs }),
            Err(e) => Err(e),
        },
        _ => Err(not_object_error()),
    }
}

/// The fields of the struct at `index` read from object members `m`: those of
/// its base first, with `fuel` bounding the chain of bases.
pub open spec fn tj_fields(schema: SchemaDef, m: Vec<(String, Json)>, index: u16, fuel: nat) -> Result<
    Seq<FieldV>,
    ErrorV,
>
    decreases m, 1int, fuel,
{
    match schema_struct(schema, index) {
        None => Err(ErrorV::SchemaError(no_struct_message(index))),
        Some(sd) => {
            let base = match sd.base_def {
                Some(b) => if fuel > 0 {
                    tj_fields(schema, m, b.struct_def, (fuel - 1) as nat)
                } else {
                    Ok(Seq::empty())
                },
                None => Ok(Seq::empty()),
            };
            match base {
                Err(e) => Err(e),
                Ok(bf) => prepend(bf, tj_fdefs(schema, m, sd.fields@, 0)),
            }
        },
    }
}

/// One field per field definition from position `k` on, for those definitions
/// that the object has a member for.
pub open spec fn tj_fdefs(schema: SchemaDef, m: Vec<(String, Json)>, fds: Seq<FieldDef>, k: int) -> Result<
    Seq<FieldV>,
    ErrorV,
>
    decreases m, 0int, fds.len() - k,
{
    if k < 0 || k >= fds.len() {
        Ok(Seq::empty())
    } else {
        let fd = fds[k];
        match field_member(m@, fd) {
            None => tj_fdefs(schema, m, fds, k + 1),
            Some(p) => match tj_value(schema, fd.type_def, m@[p].1) {
                Err(e) => Err(e),
                Ok(v) => prepend(
                    seq![FieldV { id: fd.id, name: Some(fd.metadata.name@), value: v }],
                    tj_fdefs(schema, m, fds, k + 1),
                ),
            },
        }
    }
}

/// What reading document `j` by `schema` yields.
pub open spec fn tj_parse(schema: SchemaDef, j: Json) -> Result<StructV, ErrorV> {
    if schema.root.id != BondDataType::Struct {
        Err(json_root_error())
    } else {
        tj_struct(schema, schema.root.struct_def, j)
    }
}

fn num_err(what: &str) -> (e: Error)
    ensures
        e@ == number_error(what@),
{
    let mut out: Vec<char> = Vec::new();
    push_str(&mut out, "expected JSON number for ");
    push_str(&mut out, what);
    Error::Json(string_from_chars(out))
}

fn unsupported_json_type(ty: BondDataType) -> (e: Error)
    ensures
        e@ == unsupported_json_type_error(ty),
{
    let mut out: Vec<char> = Vec::new();
    push_str(&mut out, "unsupported type ");
    push_str(&mut out, data_type_name(ty));
    push_str(&mut out, " in Simple JSON schema");
    Error::SchemaError(string_from_chars(out))
}

fn json_as_u64(json: &Json) -> (r: Option<u64>)
    ensures
        r == as_u64_of(*json),
{
    match json {
        Json::Number(n) => n.as_u64,
        _ => None,
    }
}

fn json_as_i64(json: &Json) -> (r: Option<i64>)
    ensures
        r == as_i64_of(*json),
{
    match json {
        Json::Number(n) => n.as_i64,
        _ => None,
    }
}

/// The `f64` bits of a number; non-finite values were written as `null` and come
/// back as `0.0`.
fn json_to_f64(json: &Json) -> (r: u64)
    ensures
        r == f64_bits_of(*json),
{
    match json {
        Json::Number(n) => n.f64_bits,
        _ => 0,
    }
}

/// The `f32` bits of a number, or those of `0.0`.
fn json_to_f32(json: &Json) -> (r: u32)
    ensures
        r == f32_bits_of(*json),
{
    match json {
        Json::Number(n) => n.f32_bits,
        _ => 0,
    }
}

/// The position of the first member keyed `key`.
fn find_member(m: &Vec<(String, Json)>, key: &String) -> (r: Option<usize>)
    ensures
        match member_index(m@, key@) {
            Some(p) => r == Some(p as usize),
            None => r is None,
        },
{
    let mut i: usize = 0;
    while i < m.len()
        invariant
            i <= m@.len(),
            forall|q: int| 0 <= q < i ==> (#[trigger] m@[q]).0@ != key@,
        decreases m@.len() - i,
    {
        if m[i].0 == *key {
            proof {
                let ii = i as int;
                assert(0 <= ii < m@.len() && m@[ii].0@ == key@ && forall|q: int| 0 <= q < ii ==> m@[q].0@ != key@);
                let p = choose|p: int|
                    0 <= p < m@.len() && #[trigger] m@[p].0@ == key@ && forall|q: int| 0 <= q < p ==> m@[q].0@ != key@;
                if p < ii {
                    assert(m@[p].0@ != key@);
                }
                if p > ii {
                    assert(m@[ii].0@ != key@);
                }
                assert(member_index(m@, key@) == Some(ii));
            }
            return Some(i);
        }
        i = i + 1;
    }
    proof {
        if exists|p: int|
            0 <= p < m@.len() && #[trigger] m@[p].0@ == key@ && forall|q: int| 0 <= q < p ==> m@[q].0@ != key@ {
            let p = choose|p: int|
                0 <= p < m@.len() && #[trigger] m@[p].0@ == key@ && forall|q: int| 0 <= q < p ==> m@[q].0@ != key@;
            assert(m@[p].0@ != key@);
        }
    }
    None
}

/// The bytes of a blob: each member an integer, kept as its low 8 bits.
fn json_to_blob(arr: &Vec<Json>) -> (r: Result<Vec<u8>, Error>)
    ensures
        match tj_blob(arr@, 0) {
            Ok(b) => r matches Ok(x) && x@ == b,
            Err(e) => r matches Err(x) && x@ == e,
        },
{
    let mut bytes: Vec<u8> = Vec::new();
    let mut i: usize = 0;
    proof { assert(bytes@ + Seq::<u8>::empty() =~= bytes@); }
    while i < arr.len()
        invariant
            i <= arr@.len(),
            tj_blob(arr@, 0) == prepend(bytes@, tj_blob(arr@, i as int)),
        decreases arr@.len() - i,
    {
        match json_as_i64(&arr[i]) {
            Some(x) => {
                let ghost before = bytes@;
                bytes.push((x as i8) as u8);
                proof {
                    match tj_blob(arr@, i + 1) {
                        Ok(t) => {
                            assert(before + (seq![(x as i8) as u8] + t) =~= bytes@ + t);
                        },
                        Err(e) => {},
                    }
                }
            },
            None => {
                return Err(num_err("blob byte"));
            },
        }
        i = i + 1;
    }
    proof { assert(bytes@ + Seq::<u8>::empty() =~= bytes@); }
    Ok(bytes)
}

/// Reads each member of an array by element type `element`.
fn json_array_to_items(arr: &Vec<Json>, schema: &SchemaDef, element: &TypeDef) -> (r: Result<Vec<Value>, Error>)
    requires
        bases_acyclic(*schema),
    ensures
        match tj_items(*schema, *element, *arr, 0) {
            Ok(vs) => r matches Ok(x) && values_view(x@) == vs,
            Err(e) => r matches Err(x) && x@ == e,
        },
    decreases arr, 3int, 0int,
{
    let mut items: Vec<Value> = Vec::new();
    let mut i: usize = 0;
    proof { assert(values_view(items@) + Seq::<ValueV>::empty() =~= values_view(items@)); }
    while i < arr.len()
        invariant
            i <= arr@.len(),
            bases_acyclic(*schema),
            tj_items(*schema, *element, *arr, 0) == prepend(values_view(items@), tj_items(*schema, *element, *arr, i as int)),
        decreases arr@.len() - i,
    {
        let v = match json_to_value_typed(&arr[i], schema, element) {
            Ok(v) => v,
            Err(e) => {
                return Err(e);
            },
        };
        let ghost before = values_view(items@);
        items.push(v);
        proof {
            assert(values_view(items@) =~= before.push(v@));
            match tj_items(*schema, *element, *arr, i + 1) {
                Ok(t) => {
                    assert(before + (seq![v@] + t) =~= values_view(items@) + t);
                },
                Err(e) => {},
            }
        }
        i = i + 1;
    }
    proof { assert(values_view(items@) + Seq::<ValueV>::empty() =~= values_view(items@)); }
    Ok(items)
}

/// Reads the entries of a map from a flat array of even length.
fn json_pairs_to_entries(arr: &Vec<Json>, schema: &SchemaDef, kt: &TypeDef, vt: &TypeDef) -> (r: Result<
    Vec<(Value, Value)>,
    Error,
>)
    requires
        bases_acyclic(*schema),
        arr@.len() % 2 == 0,
    ensures
        match tj_entries(*schema, *kt, *vt, *arr, 0) {
            Ok(es) => r matches Ok(x) && entries_view(x@) == es,
            Err(e) => r matches Err(x) && x@ == e,
        },
    decreases arr, 3int, 0int,
{
    let mut entries: Vec<(Value, Value)> = Vec::new();
    let n = arr.len() / 2;
    proof { assert(2 * n == arr@.len()); }
    let mut i: usize = 0;
    proof { assert(entries_view(entries@) + Seq::<(ValueV, ValueV)>::empty() =~= entries_view(entries@)); }
    while i < n
        invariant
            n == arr@.len() / 2,
            2 * n == arr@.len(),
            arr@.len() <= usize::MAX,
            i <= n,
            bases_acyclic(*schema),
            tj_entries(*schema, *kt, *vt, *arr, 0) == prepend(
                entries_view(entries@),
                tj_entries(*schema, *kt, *vt, *arr, i as int),
            ),
        decreases n - i,
    {
        let k = match json_to_value_typed(&arr[2 * i], schema, kt) {
            Ok(k) => k,
            Err(e) => {
                return Err(e);
            },
        };
        let v = match json_to_value_typed(&arr[2 * i + 1], schema, vt) {
            Ok(v) => v,
            Err(e) => {
                return Err(e);
            },
        };
        let ghost before = entries_view(entries@);
        let ghost kv = (k@, v@);
        entries.push((k, v));
        proof {
            assert(entries_view(entries@) =~= before.push(kv));
            match tj_entries(*schema, *kt, *vt, *arr, i + 1) {
                Ok(t) => {
                    assert(before + (seq![kv] + t) =~= entries_view(entries@) + t);
                },
                Err(e) => {},
            }
        }
        i = i + 1;
    }
    proof { assert(entries_view(entries@) + Seq::<(ValueV, ValueV)>::empty() =~= entries_view(entries@)); }
    Ok(entries)
}

/// Reads the single member of a present nullable.
fn json_nullable_inner(arr: &Vec<Json>, schema: &SchemaDef, element: &TypeDef) -> (r: Result<Value, Error>)
    requires
        bases_acyclic(*schema),
        arr@.len() == 1,
    ensures
        match tj_value(*schema, *element, arr@[0]) {
            Ok(v) => r matches Ok(x) && x@ == v,
            Err(e) => r matches Err(x) && x@ == e,
        },
    decreases arr, 3int, 0int,
{
    json_to_value_typed(&arr[0], schema, element)
}

/// Reads a value by its schema type.
fn json_to_value_typed(json: &Json, schema: &SchemaDef, td: &TypeDef) -> (r: Result<Value, Error>)
    requires
        bases_acyclic(*schema),
    ensures
        match tj_value(*schema, *td, *json) {
            Ok(v) => r matches Ok(x) && x@ == v,
            Err(e) => r matches Err(x) && x@ == e,
        },
    decreases json, 3int, 0int,
{
    match td.id {
        BondDataType::Bool => match json {
            Json::Bool(b) => Ok(Value::Bool(*b)),
            _ => Err(json_error("expected bool")),
        },
        BondDataType::UInt8 => match json_as_u64(json) {
            Some(x) => Ok(Value::UInt8(x as u8)),
            None => Err(num_err("uint8")),
        },
        BondDataType::UInt16 => match json_as_u64(json) {
            Some(x) => Ok(Value::UInt16(x as u16)),
            None => Err(num_err("uint16")),
        },
        BondDataType::UInt32 => match json_as_u64(json) {
            Some(x) => Ok(Value::UInt32(x as u32)),
            None => Err(num_err("uint32")),
        },
        BondDataType::UInt64 => match json_as_u64(json) {
            Some(x) => Ok(Value::UInt64(x)),
            None => Err(num_err("uint64")),
        },
        BondDataType::Int8 => match json_as_i64(json) {
            Some(x) => Ok(Value::Int8(x as i8)),
            None => Err(num_err("int8")),
        },
        BondDataType::Int16 => match json_as_i64(json) {
            Some(x) => Ok(Value::Int16(x as i16)),
            None => Err(num_err("int16")),
        },
        BondDataType::Int32 => match json_as_i64(json) {
            Some(x) => Ok(Value::Int32(x as i32)),
            None => Err(num_err("int32")),
        },
        BondDataType::Int64 => match json_as_i64(json) {
            Some(x) => Ok(Value::Int64(x)),
            None => Err(num_err("int64")),
        },
        BondDataType::Float => Ok(Value::Float(json_to_f32(json))),
        BondDataType::Double => Ok(Value::Double(json_to_f64(json))),
        BondDataType::String => match json {
            Json::Str(s) => Ok(Value::Str(s.clone())),
            _ => Err(json_error("expected string")),
        },
        BondDataType::WString => match json {
            Json::Str(s) => Ok(Value::WStr(s.clone())),
            _ => Err(json_error("expected wstring")),
        },
        BondDataType::Struct => match json_to_struct_typed(json, schema, td.struct_def) {
            Ok(s) => {
                proof { lemma_struct_value_view(s); }
                Ok(Value::Struct(s))
            },
            Err(e) => Err(e),
        },
        BondDataType::List => {
            let element = td.element_type()?;
            match td.sub_type {
                ListSubType::Nullable => match json {
                    Json::Null => Ok(Value::Nullable { element: element.id, value: None }),
                    Json::Array(arr) => {
                        if arr.len() == 1 {
                            match json_nullable_inner(arr, schema, element) {
                                Ok(v) => Ok(Value::Nullable { element: element.id, value: Some(Box::new(v)) }),
                                Err(e) => Err(e),
                            }
                        } else {
                            Err(json_error("nullable must be null or a single-element array"))
                        }
                    },
                    _ => Err(json_error("nullable must be null or a single-element array")),
                },
                ListSubType::Blob => match json {
                    Json::Array(arr) => match json_to_blob(arr) {
                        Ok(b) => Ok(Value::Blob(b)),
                        Err(e) => Err(e),
                    },
                    _ => Err(json_error("expected array for blob")),
                },
                ListSubType::Plain => match json {
                    Json::Array(arr) => match json_array_to_items(arr, schema, element) {
                        Ok(items) => {
                            proof { lemma_list_view(element.id, items); }
                            Ok(Value::List { element: element.id, items })
                        },
                        Err(e) => Err(e),
                    },
                    _ => Err(json_error("expected array")),
                },
            }
        },
        BondDataType::SetType => {
            let element = td.element_type()?;
            match json {
                Json::Array(arr) => match json_array_to_items(arr, schema, element) {
                    Ok(items) => {
                        proof { lemma_list_view(element.id, items); }
                        Ok(Value::SetOf { element: element.id, items })
                    },
                    Err(e) => Err(e),
                },
                _ => Err(json_error("expected array")),
            }
        },
        BondDataType::MapType => {
            let key_td = td.key_type()?;
            let val_td = td.element_type()?;
            match json {
                Json::Array(arr) => {
                    if arr.len() % 2 != 0 {
                        return Err(json_error("map array must have an even length"));
                    }
                    match json_pairs_to_entries(arr, schema, key_td, val_td) {
                        Ok(entries) => {
                            proof { lemma_map_view(key_td.id, val_td.id, entries); }
                            Ok(Value::MapOf { key: key_td.id, value: val_td.id, entries })
                        },
                        Err(e) => Err(e),
                    }
                },
                _ => Err(json_error("expected flat array for map")),
            }
        },
        other => Err(unsupported_json_type(other)),
    }
}

/// Reads the fields of the struct at `index`, those of its base first, from the
/// members of an object. A field definition without a member is skipped.
fn collect_struct_fields_typed(
    obj: &Vec<(String, Json)>,
    schema: &SchemaDef,
    index: u16,
    fields: &mut Vec<Field>,
    Ghost(fuel): Ghost<nat>,
) -> (r: Result<(), Error>)
    requires
        bases_acyclic(*schema),
        chain_ends(*schema, index, fuel),
    ensures
        match tj_fields(*schema, *obj, index, fuel) {
            Ok(fs) => r is Ok && fields_view(final(fields)@) == fields_view(old(fields)@) + fs,
            Err(e) => r matches Err(x) && x@ == e,
        },
    decreases obj, 1int, fuel,
{
    let sd = match schema.struct_def(index) {
        Some(sd) => sd,
        None => {
            return Err(no_struct_error(index));
        },
    };
    proof { assert(schema_struct(*schema, index) == Some(*sd)); }
    let ghost acc0 = fields_view(fields@);
    match &sd.base_def {
        Some(base) => {
            match collect_struct_fields_typed(obj, schema, base.struct_def, fields, Ghost((fuel - 1) as nat)) {
                Ok(()) => {},
                Err(e) => {
                    return Err(e);
                },
            }
        },
        None => {
            proof { assert(acc0 + Seq::<FieldV>::empty() =~= acc0); }
        },
    }
    let ghost acc1 = fields_view(fields@);
    let ghost bf = acc1.subrange(acc0.len() as int, acc1.len() as int);
    let ghost fds = sd.fields@;
    proof {
        assert(acc1 =~= acc0 + bf);
        let sdv = *sd;
        match sdv.base_def {
            Some(b) => {
                assert(fuel > 0);
                match tj_fields(*schema, *obj, b.struct_def, (fuel - 1) as nat) {
                    Ok(fs) => {
                        assert(bf =~= fs);
                    },
                    Err(e) => {},
                }
            },
            None => {
                assert(bf =~= Seq::<FieldV>::empty());
            },
        }
        assert(tj_fields(*schema, *obj, index, fuel) == prepend(bf, tj_fdefs(*schema, *obj, fds, 0)));
        assert(fields_view(fields@).subrange(acc1.len() as int, fields_view(fields@).len() as int)
            =~= Seq::<FieldV>::empty());
        assert(fields_view(fields@).subrange(0, acc1.len() as int) =~= acc1);
        assert(Seq::<FieldV>::empty() + tj_fdefs(*schema, *obj, fds, 0)->Ok_0 =~= tj_fdefs(
            *schema,
            *obj,
            fds,
            0,
        )->Ok_0);
    }
    let mut k: usize = 0;
    while k < sd.fields.len()
        invariant
            bases_acyclic(*schema),
            fds == sd.fields@,
            k <= fds.len(),
            acc0 == fields_view(old(fields)@),
            acc1 == acc0 + bf,
            tj_fields(*schema, *obj, index, fuel) == prepend(bf, tj_fdefs(*schema, *obj, fds, 0)),
            acc1.len() <= fields_view(fields@).len(),
            fields_view(fields@).subrange(0, acc1.len() as int) == acc1,
            tj_fdefs(*schema, *obj, fds, 0) == prepend(
                fields_view(fields@).subrange(acc1.len() as int, fields_view(fields@).len() as int),
                tj_fdefs(*schema, *obj, fds, k as int),
            ),
        decreases fds.len() - k,
    {
        let fd = &sd.fields[k];
        let found = match find_member(obj, &fd.metadata.name) {
            Some(p) => Some(p),
            None => {
                let id_key = decimal_string(fd.id);
                find_member(obj, &id_key)
            },
        };
        proof {
            assert(fds[k as int] == *fd);
            match field_member(obj@, *fd) {
                Some(p) => { assert(found == Some(p as usize)); },
                None => { assert(found is None); },
            }
        }
        let ghost before = fields_view(fields@);
        let ghost mid = before.subrange(acc1.len() as int, before.len() as int);
        match found {
            Some(p) => {
                let value = match json_to_value_typed(&obj[p].1, schema, &fd.type_def) {
                    Ok(v) => v,
                    Err(e) => {
                        return Err(e);
                    },
                };
                let ghost fv = FieldV { id: fd.id, name: Some(fd.metadata.name@), value: value@ };
                fields.push(Field { id: fd.id, name: Some(fd.metadata.name.clone()), value });
                proof {
                    assert(fields_view(fields@) =~= before.push(fv));
                    assert(fields_view(fields@).subrange(0, acc1.len() as int) =~= before.subrange(
                        0,
                        acc1.len() as int,
                    ));
                    assert(fields_view(fields@).subrange(acc1.len() as int, fields_view(fields@).len() as int)
                        =~= mid.push(fv));
                    match tj_fdefs(*schema, *obj, fds, k + 1) {
                        Ok(t) => {
                            assert(mid + (seq![fv] + t) =~= mid.push(fv) + t);
                        },
                        Err(e) => {},
                    }
                }
            },
            None => {},
        }
        k = k + 1;
    }
    proof {
        let tail = fields_view(fields@).subrange(acc1.len() as int, fields_view(fields@).len() as int);
        assert(tail + Seq::<FieldV>::empty() =~= tail);
        assert(fields_view(fields@) =~= acc1 + tail);
        match tj_fields(*schema, *obj, index, fuel) {
            Ok(fs) => {
                assert(fs =~= bf + tail);
                assert(fields_view(fields@) =~= acc0 + fs);
            },
            Err(e) => {},
        }
    }
    Ok(())
}

/// Reads the struct at `index` from a document, which must be an object.
fn json_to_struct_typed(json: &Json, schema: &SchemaDef, index: u16) -> (r: Result<Struct, Error>)
    requires
        bases_acyclic(*schema),
    ensures
        match tj_struct(*schema, index, *json) {
            Ok(s) => r matches Ok(x) && x@ == s,
            Err(e) => r matches Err(x) && x@ == e,
        },
    decreases json, 2int, 0int,
{
    match json {
        Json::Object(obj) => {
            let mut fields: Vec<Field> = Vec::new();
            proof { assert(chain_ends(*schema, index, schema.structs@.len())); }
            match collect_struct_fields_typed(obj, schema, index, &mut fields, Ghost(schema.structs@.len())) {
                Ok(()) => {
                    proof { assert(fields_view(fields@) =~= Seq::<FieldV>::empty() + fields_view(fields@)); }
                    Ok(Struct { fields })
                },
                Err(e) => Err(e),
            }
        },
        _ => Err(json_error("expected JSON object for struct")),
    }
}

/// Reads a Simple JSON document by `schema`, recovering exact Bond types. The
/// schema's root must be a struct.
pub fn from_json_with_schema(json: &Json, schema: &SchemaDef) -> (r: Result<Struct, Error>)
    requires
        schema.root.id == BondDataType::Struct ==> bases_acyclic(*schema),
    ensures
        match tj_parse(*schema, *json) {
            Ok(s) => r matches Ok(x) && x@ == s,
            Err(e) => r matches Err(x) && x@ == e,
        },
{
    if schema.root.id != BondDataType::Struct {
        return Err(Error::SchemaError("Simple JSON root must be a struct".to_owned()));
    }
    json_to_struct_typed(json, schema, schema.root.struct_def)
}

} // verus!
