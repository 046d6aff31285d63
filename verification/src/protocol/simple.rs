//! Simple Binary protocol, versions 1 and 2.
//!
//! * Untagged and schema-driven: fields are written positionally in schema
//!   order (base-class fields first), with **no** type tags or field ids.
//! * All scalars are fixed-width little-endian (as in Fast Binary).
//! * Lengths/counts are a fixed `u32` in v1 and a LEB128 varint in v2.
//! * `bonded<T>` is always a **fixed** `u32` length followed by a marshaled
//!   payload, even in v2.
//!
//! Because the payload carries no type information, both reading and writing
//! require a [`SchemaDef`].

use vstd::prelude::*;
use vstd::bytes::spec_u32_to_le_bytes;
use vstd::utf8::encode_utf8;
use crate::message::{data_type_name, push_decimal, push_str, string_from_chars};
use crate::constants::{kind_name, type_code, BondDataType, ListSubType, ProtocolType, V1, V2, DEFAULT_MAX_DEPTH};
use crate::error::{Error, ErrorV};
use crate::reader::{rd_bytes, rd_le_u16, rd_le_u32, rd_le_u64, rd_u8, rd_utf16, rd_utf8, rd_varint_u32, Reader};
use crate::schema::{missing_element_error, missing_key_error, FieldDef, SchemaDef, StructDef, TypeDef};
use crate::text::{decimal, str_utf16_units, utf16_encode};
use crate::value::{
    entries_view, fields_view, first_with_id, lemma_first_with_id_range, lemma_list_view, lemma_map_view, lemma_struct_value_view, type_of_v,
    values_view, Field, FieldV, Struct, StructV, Value, ValueV,
};
use crate::varint::leb128_encode;
use crate::writer::{units_le_bytes, Writer};
use super::{after, depth_error, enc_value, lift, outcome, sp_bool, sp_i16, sp_i32, sp_i64, sp_i8, TaggedKind};

verus! {

// ---------------------------------------------------------------------------
// The schema as the protocol sees it
// ---------------------------------------------------------------------------

/// The struct definition at `index`, if the schema has one.
pub open spec fn schema_struct(schema: SchemaDef, index: u16) -> Option<StructDef> {
    if index < schema.structs@.len() {
        Some(schema.structs@[index as int])
    } else {
        None
    }
}

/// Following base structs from `index` ends within `n` steps.
pub open spec fn chain_ends(schema: SchemaDef, index: u16, n: nat) -> bool
    decreases n,
{
    match schema_struct(schema, index) {
        None => true,
        Some(sd) => match sd.base_def {
            None => true,
            Some(b) => n > 0 && chain_ends(schema, b.struct_def, (n - 1) as nat),
        },
    }
}

/// No struct of the schema is its own (indirect) base: every chain of base
/// structs ends within as many steps as the schema has structs.
pub open spec fn bases_acyclic(schema: SchemaDef) -> bool {
    forall|i: u16| #[trigger] chain_ends(schema, i, schema.structs@.len())
}

/// The message for a struct index the schema does not have.
pub open spec fn no_struct_message(index: u16) -> Seq<char> {
    "no struct at index "@ + decimal(index as nat)
}

/// The message for a type the Simple Binary layout cannot carry.
pub open spec fn unsupported_type_message(ty: BondDataType) -> Seq<char> {
    "unsupported type "@ + kind_name(ty) + " in Simple Binary schema"@
}

/// The message for a schema field the value lacks.
pub open spec fn missing_field_message(id: u16, name: Seq<char>) -> Seq<char> {
    "value is missing field id "@ + decimal(id as nat) + " ("@ + name + ")"@
}

/// The message for a value whose type differs from the schema's.
pub open spec fn mismatch_message(expected: BondDataType, actual: BondDataType) -> Seq<char> {
    "Simple Binary value/type mismatch: schema says "@ + kind_name(expected) + ", value is "@ + kind_name(actual)
}

/// The error for a struct index the schema does not have.
pub(crate) fn no_struct_error(index: u16) -> (r: Error)
    ensures
        r@ == ErrorV::SchemaError(no_struct_message(index)),
{
    let mut out: Vec<char> = Vec::new();
    push_str(&mut out, "no struct at index ");
    push_decimal(&mut out, index as u64);
    Error::SchemaError(string_from_chars(out))
}

/// The error for a type the Simple Binary layout cannot carry.
fn unsupported_type_error(ty: BondDataType) -> (r: Error)
    ensures
        r@ == ErrorV::SchemaError(unsupported_type_message(ty)),
{
    let mut out: Vec<char> = Vec::new();
    push_str(&mut out, "unsupported type ");
    push_str(&mut out, data_type_name(ty));
    push_str(&mut out, " in Simple Binary schema");
    Error::SchemaError(string_from_chars(out))
}

/// The error for a schema field the value lacks.
fn missing_field_error(id: u16, name: &str) -> (r: Error)
    ensures
        r@ == ErrorV::SchemaError(missing_field_message(id, name@)),
{
    let mut out: Vec<char> = Vec::new();
    push_str(&mut out, "value is missing field id ");
    push_decimal(&mut out, id as u64);
    push_str(&mut out, " (");
    push_str(&mut out, name);
    push_str(&mut out, ")");
    Error::SchemaError(string_from_chars(out))
}

/// The error for a value whose type differs from the schema's.
fn mismatch_error(expected: BondDataType, actual: BondDataType) -> (r: Error)
    ensures
        r@ == ErrorV::SchemaError(mismatch_message(expected, actual)),
{
    let mut out: Vec<char> = Vec::new();
    push_str(&mut out, "Simple Binary value/type mismatch: schema says ");
    push_str(&mut out, data_type_name(expected));
    push_str(&mut out, ", value is ");
    push_str(&mut out, data_type_name(actual));
    Error::SchemaError(string_from_chars(out))
}

/// The error for a schema whose root is not a struct.
pub open spec fn root_not_struct_error() -> ErrorV {
    ErrorV::SchemaError("Simple Binary root must be a struct"@)
}

/// The error for an unsupported Simple Binary version.
pub open spec fn simple_version_error(version: u16) -> ErrorV {
    ErrorV::UnsupportedVersion { protocol: ProtocolType::Simple, version }
}

// ---------------------------------------------------------------------------
// The model of reading
// ---------------------------------------------------------------------------

/// A length or count: a fixed `u32` in v1, a LEB128 varint in v2.
pub open spec fn ss_len(version: u16, d: Seq<u8>, p: int) -> Result<(usize, int), ErrorV> {
    if version == V2 {
        lift(rd_varint_u32(d, p), |n: u32| n as usize)
    } else {
        lift(rd_le_u32(d, p), |n: u32| n as usize)
    }
}

/// Reading a value of schema type `td` at nesting `depth`.
pub open spec fn ss_read_value(
    schema: SchemaDef,
    version: u16,
    d: Seq<u8>,
    p: int,
    td: TypeDef,
    depth: int,
) -> Result<(ValueV, int), ErrorV>
    decreases 257 - depth, 4int, 0int,
{
    if depth > DEFAULT_MAX_DEPTH {
        Err(depth_error())
    } else {
        match td.id {
            BondDataType::Bool => lift(sp_bool(d, p), |v: bool| ValueV::Bool(v)),
            BondDataType::UInt8 => lift(rd_u8(d, p), |v: u8| ValueV::UInt8(v)),
            BondDataType::UInt16 => lift(rd_le_u16(d, p), |v: u16| ValueV::UInt16(v)),
            BondDataType::UInt32 => lift(rd_le_u32(d, p), |v: u32| ValueV::UInt32(v)),
            BondDataType::UInt64 => lift(rd_le_u64(d, p), |v: u64| ValueV::UInt64(v)),
            BondDataType::Int8 => lift(sp_i8(d, p), |v: i8| ValueV::Int8(v)),
            BondDataType::Int16 => lift(sp_i16(TaggedKind::Fast, d, p), |v: i16| ValueV::Int16(v)),
            BondDataType::Int32 => lift(sp_i32(TaggedKind::Fast, d, p), |v: i32| ValueV::Int32(v)),
            BondDataType::Int64 => lift(sp_i64(TaggedKind::Fast, d, p), |v: i64| ValueV::Int64(v)),
            BondDataType::Float => lift(rd_le_u32(d, p), |v: u32| ValueV::Float(v)),
            BondDataType::Double => lift(rd_le_u64(d, p), |v: u64| ValueV::Double(v)),
            BondDataType::String => match ss_len(version, d, p) {
                Err(e) => Err(e),
                Ok((n, q)) => lift(rd_utf8(d, q, n as int), |c: Seq<char>| ValueV::Str(c)),
            },
            BondDataType::WString => match ss_len(version, d, p) {
                Err(e) => Err(e),
                Ok((n, q)) => lift(rd_utf16(d, q, n as int), |c: Seq<char>| ValueV::WStr(c)),
            },
            BondDataType::Struct => if td.bonded_type {
                match rd_le_u32(d, p) {
                    Err(e) => Err(e),
                    Ok((n, q)) => lift(rd_bytes(d, q, n as int), |b: Seq<u8>| ValueV::Bonded(b)),
                }
            } else {
                lift(
                    ss_read_struct(schema, version, d, p, td.struct_def, depth + 1),
                    |s: StructV| ValueV::Struct(s),
                )
            },
            BondDataType::List => match td.element {
                None => Err(missing_element_error()),
                Some(el) => match ss_len(version, d, p) {
                    Err(e) => Err(e),
                    Ok((n, q)) => match td.sub_type {
                        ListSubType::Blob => lift(rd_bytes(d, q, n as int), |b: Seq<u8>| ValueV::Blob(b)),
                        ListSubType::Nullable => if n == 0 {
                            Ok((ValueV::Nullable { element: el.id, value: None }, q))
                        } else {
                            lift(
                                ss_read_last(schema, version, d, q, *el, n as int, depth),
                                |v: ValueV| ValueV::Nullable { element: el.id, value: Some(Box::new(v)) },
                            )
                        },
                        ListSubType::Plain => lift(
                            ss_read_elems(schema, version, d, q, *el, n as int, depth),
                            |items: Seq<ValueV>| ValueV::List { element: el.id, items },
                        ),
                    },
                },
            },
            BondDataType::SetType => match td.element {
                None => Err(missing_element_error()),
                Some(el) => match ss_len(version, d, p) {
                    Err(e) => Err(e),
                    Ok((n, q)) => lift(
                        ss_read_elems(schema, version, d, q, *el, n as int, depth),
                        |items: Seq<ValueV>| ValueV::SetOf { element: el.id, items },
                    ),
                },
            },
            BondDataType::MapType => match td.key {
                None => Err(missing_key_error()),
                Some(kt) => match td.element {
                    None => Err(missing_element_error()),
                    Some(vt) => match ss_len(version, d, p) {
                        Err(e) => Err(e),
                        Ok((n, q)) => lift(
                            ss_read_entries(schema, version, d, q, *kt, *vt, n as int, depth),
                            |entries: Seq<(ValueV, ValueV)>| ValueV::MapOf { key: kt.id, value: vt.id, entries },
                        ),
                    },
                },
            },
            _ => Err(ErrorV::SchemaError(unsupported_type_message(td.id))),
        }
    }
}

/// Reading `n >= 1` values of type `el`, keeping the last (a `nullable`).
pub open spec fn ss_read_last(
    schema: SchemaDef,
    version: u16,
    d: Seq<u8>,
    p: int,
    el: TypeDef,
    n: int,
    depth: int,
) -> Result<(ValueV, int), ErrorV>
    decreases 257 - depth, 1int, n,
{
    if depth > DEFAULT_MAX_DEPTH {
        Err(depth_error())
    } else {
        match ss_read_value(schema, version, d, p, el, depth + 1) {
            Err(e) => Err(e),
            Ok((v, q)) => if n <= 1 {
                Ok((v, q))
            } else {
                ss_read_last(schema, version, d, q, el, n - 1, depth)
            },
        }
    }
}

/// Reading `n` values of type `el`.
pub open spec fn ss_read_elems(
    schema: SchemaDef,
    version: u16,
    d: Seq<u8>,
    p: int,
    el: TypeDef,
    n: int,
    depth: int,
) -> Result<(Seq<ValueV>, int), ErrorV>
    decreases 257 - depth, 1int, n,
{
    if depth > DEFAULT_MAX_DEPTH {
        Err(depth_error())
    } else if n <= 0 {
        Ok((Seq::empty(), p))
    } else {
        match ss_read_value(schema, version, d, p, el, depth + 1) {
            Err(e) => Err(e),
            Ok((v, q)) => lift(
                ss_read_elems(schema, version, d, q, el, n - 1, depth),
                |vs: Seq<ValueV>| seq![v] + vs,
            ),
        }
    }
}

/// Reading `n` map entries.
pub open spec fn ss_read_entries(
    schema: SchemaDef,
    version: u16,
    d: Seq<u8>,
    p: int,
    kt: TypeDef,
    vt: TypeDef,
    n: int,
    depth: int,
) -> Result<(Seq<(ValueV, ValueV)>, int), ErrorV>
    decreases 257 - depth, 1int, n,
{
    if depth > DEFAULT_MAX_DEPTH {
        Err(depth_error())
    } else if n <= 0 {
        Ok((Seq::empty(), p))
    } else {
        match ss_read_value(schema, version, d, p, kt, depth + 1) {
            Err(e) => Err(e),
            Ok((k, q)) => match ss_read_value(schema, version, d, q, vt, depth + 1) {
                Err(e) => Err(e),
                Ok((v, q2)) => lift(
                    ss_read_entries(schema, version, d, q2, kt, vt, n - 1, depth),
                    |es: Seq<(ValueV, ValueV)>| seq![(k, v)] + es,
                ),
            },
        }
    }
}

/// Reading the struct at schema index `index`.
pub open spec fn ss_read_struct(
    schema: SchemaDef,
    version: u16,
    d: Seq<u8>,
    p: int,
    index: u16,
    depth: int,
) -> Result<(StructV, int), ErrorV>
    decreases 257 - depth, 3int, 0int,
{
    if depth > DEFAULT_MAX_DEPTH {
        Err(depth_error())
    } else {
        lift(
            ss_struct_fields(schema, version, d, p, index, depth, schema.structs@.len()),
            |fs: Seq<FieldV>| StructV { fields: fs },
        )
    }
}

/// Reading the fields of the struct at `index`: those of its base first, with
/// `fuel` bounding the chain of bases.
pub open spec fn ss_struct_fields(
    schema: SchemaDef,
    version: u16,
    d: Seq<u8>,
    p: int,
    index: u16,
    depth: int,
    fuel: nat,
) -> Result<(Seq<FieldV>, int), ErrorV>
    decreases 257 - depth, 2int, fuel,
{
    if depth > DEFAULT_MAX_DEPTH {
        Err(depth_error())
    } else {
        match schema_struct(schema, index) {
            None => Err(ErrorV::SchemaError(no_struct_message(index))),
            Some(sd) => {
                let base = match sd.base_def {
                    Some(b) => if fuel > 0 {
                        ss_struct_fields(schema, version, d, p, b.struct_def, depth, (fuel - 1) as nat)
                    } else {
                        Ok((Seq::empty(), p))
                    },
                    None => Ok((Seq::empty(), p)),
                };
                match base {
                    Err(e) => Err(e),
                    Ok((bf, q)) => after(bf, ss_fdefs(schema, version, d, q, sd.fields@, depth)),
                }
            },
        }
    }
}

/// Reading one value per field definition, in order.
pub open spec fn ss_fdefs(
    schema: SchemaDef,
    version: u16,
    d: Seq<u8>,
    p: int,
    fds: Seq<FieldDef>,
    depth: int,
) -> Result<(Seq<FieldV>, int), ErrorV>
    decreases 257 - depth, 1int, fds.len(),
{
    if depth > DEFAULT_MAX_DEPTH {
        Err(depth_error())
    } else if fds.len() == 0 {
        Ok((Seq::empty(), p))
    } else {
        let fd = fds[0];
        match ss_read_value(schema, version, d, p, fd.type_def, depth + 1) {
            Err(e) => Err(e),
            Ok((v, q)) => lift(
                ss_fdefs(schema, version, d, q, fds.drop_first(), depth),
                |fs: Seq<FieldV>| seq![FieldV { id: fd.id, name: Some(fd.metadata.name@), value: v }] + fs,
            ),
        }
    }
}

/// What parsing a Simple Binary payload `d` with `schema` yields.
pub open spec fn ss_parse(schema: SchemaDef, version: u16, d: Seq<u8>) -> Result<StructV, ErrorV> {
    if !(version == V1 || version == V2) {
        Err(simple_version_error(version))
    } else if schema.root.id != BondDataType::Struct {
        Err(root_not_struct_error())
    } else {
        match ss_read_struct(schema, version, d, 0, schema.root.struct_def, 0) {
            Ok((s, _)) => Ok(s),
            Err(e) => Err(e),
        }
    }
}


// ---------------------------------------------------------------------------
// The model of writing
// ---------------------------------------------------------------------------

/// A length or count as written: a fixed `u32` in v1, a LEB128 varint in v2.
pub open spec fn sw_len(version: u16, n: int) -> Seq<u8> {
    if version == V2 {
        leb128_encode((n as u32) as nat)
    } else {
        spec_u32_to_le_bytes(n as u32)
    }
}

/// The bytes a write emits, and the error it stopped on, if any.
pub type Written = (Seq<u8>, Option<ErrorV>);

/// `a`, then `b` unless `a` stopped on an error.
pub open spec fn chain(a: Written, b: Written) -> Written {
    match a.1 {
        Some(_) => a,
        None => (a.0 + b.0, b.1),
    }
}

/// Bytes written with no error.
pub open spec fn emits(b: Seq<u8>) -> Written {
    (b, None)
}

/// Nothing written, and the error `e`.
pub open spec fn fails(e: ErrorV) -> Written {
    (Seq::empty(), Some(e))
}

/// `v` is the fixed-width scalar that schema type `t` calls for.
pub open spec fn scalar_of(t: BondDataType, v: ValueV) -> bool {
    match (t, v) {
        (BondDataType::Bool, ValueV::Bool(_)) | (BondDataType::UInt8, ValueV::UInt8(_))
        | (BondDataType::UInt16, ValueV::UInt16(_)) | (BondDataType::UInt32, ValueV::UInt32(_))
        | (BondDataType::UInt64, ValueV::UInt64(_)) | (BondDataType::Int8, ValueV::Int8(_))
        | (BondDataType::Int16, ValueV::Int16(_)) | (BondDataType::Int32, ValueV::Int32(_))
        | (BondDataType::Int64, ValueV::Int64(_)) | (BondDataType::Float, ValueV::Float(_))
        | (BondDataType::Double, ValueV::Double(_)) => true,
        _ => false,
    }
}

/// One level deeper, as the writer counts: saturating at `usize::MAX`.
pub open spec fn next_depth(depth: int) -> int {
    if depth < usize::MAX { depth + 1 } else { usize::MAX as int }
}

/// Writing value `v` as schema type `td` at nesting `depth`.
pub open spec fn sw_value(schema: SchemaDef, version: u16, td: TypeDef, v: ValueV, depth: int) -> Written
    decreases v, 3int, 0int,
{
    if scalar_of(td.id, v) {
        emits(enc_value(TaggedKind::Fast, v))
    } else {
        match (td.id, v) {
            (BondDataType::String, ValueV::Str(c)) => emits(sw_len(version, encode_utf8(c).len() as int) + encode_utf8(c)),
            (BondDataType::WString, ValueV::WStr(c)) => emits(
                sw_len(version, utf16_encode(c).len() as int) + units_le_bytes(utf16_encode(c)),
            ),
            (BondDataType::Struct, ValueV::Struct(s)) => sw_struct_fields(
                schema,
                version,
                td.struct_def,
                s,
                next_depth(depth),
                schema.structs@.len(),
            ),
            (BondDataType::Struct, ValueV::Bonded(b)) => emits(spec_u32_to_le_bytes(b.len() as u32) + b),
            (BondDataType::List, ValueV::List { items, .. }) => match td.element {
                None => fails(missing_element_error()),
                Some(el) => chain(emits(sw_len(version, items.len() as int)), sw_items(schema, version, *el, items, depth)),
            },
            (BondDataType::List, ValueV::Blob(b)) => emits(sw_len(version, b.len() as int) + b),
            (BondDataType::List, ValueV::Nullable { value, .. }) => match td.element {
                None => fails(missing_element_error()),
                Some(el) => match value {
                    None => emits(sw_len(version, 0)),
                    Some(x) => chain(emits(sw_len(version, 1)), sw_value(schema, version, *el, *x, next_depth(depth))),
                },
            },
            (BondDataType::SetType, ValueV::SetOf { items, .. }) => match td.element {
                None => fails(missing_element_error()),
                Some(el) => chain(emits(sw_len(version, items.len() as int)), sw_items(schema, version, *el, items, depth)),
            },
            (BondDataType::MapType, ValueV::MapOf { entries, .. }) => match td.key {
                None => fails(missing_key_error()),
                Some(kt) => match td.element {
                    None => fails(missing_element_error()),
                    Some(vt) => chain(
                        emits(sw_len(version, entries.len() as int)),
                        sw_entries(schema, version, *kt, *vt, entries, depth),
                    ),
                },
            },
            _ => fails(ErrorV::SchemaError(mismatch_message(td.id, type_of_v(v)))),
        }
    }
}

/// Writing items of schema type `el`, one after the other.
pub open spec fn sw_items(schema: SchemaDef, version: u16, el: TypeDef, items: Seq<ValueV>, depth: int) -> Written
    decreases items, 0int, 0int,
{
    if items.len() == 0 {
        emits(Seq::empty())
    } else {
        chain(
            sw_items(schema, version, el, items.drop_last(), depth),
            sw_value(schema, version, el, items.last(), next_depth(depth)),
        )
    }
}

/// Writing map entries, key then value.
pub open spec fn sw_entries(
    schema: SchemaDef,
    version: u16,
    kt: TypeDef,
    vt: TypeDef,
    entries: Seq<(ValueV, ValueV)>,
    depth: int,
) -> Written
    decreases entries, 0int, 0int,
{
    if entries.len() == 0 {
        emits(Seq::empty())
    } else {
        chain(
            chain(
                sw_entries(schema, version, kt, vt, entries.drop_last(), depth),
                sw_value(schema, version, kt, entries.last().0, next_depth(depth)),
            ),
            sw_value(schema, version, vt, entries.last().1, next_depth(depth)),
        )
    }
}

/// Writing the fields of `s` laid out as the struct at `index`: those of its
/// base first, with `fuel` bounding the chain of bases.
pub open spec fn sw_struct_fields(
    schema: SchemaDef,
    version: u16,
    index: u16,
    s: StructV,
    depth: int,
    fuel: nat,
) -> Written
    decreases s, 2int, fuel,
{
    if depth > DEFAULT_MAX_DEPTH {
        fails(depth_error())
    } else {
        match schema_struct(schema, index) {
            None => fails(ErrorV::SchemaError(no_struct_message(index))),
            Some(sd) => {
                let base = match sd.base_def {
                    Some(b) => if fuel > 0 {
                        sw_struct_fields(schema, version, b.struct_def, s, depth, (fuel - 1) as nat)
                    } else {
                        emits(Seq::empty())
                    },
                    None => emits(Seq::empty()),
                };
                chain(base, sw_fdefs(schema, version, sd.fields@, s, depth))
            },
        }
    }
}

/// Writing, for each field definition in order, the first field of `s` with its
/// id.
pub open spec fn sw_fdefs(schema: SchemaDef, version: u16, fds: Seq<FieldDef>, s: StructV, depth: int) -> Written
    decreases s, 1int, fds.len(),
{
    if fds.len() == 0 {
        emits(Seq::empty())
    } else {
        let fd = fds.last();
        chain(
            sw_fdefs(schema, version, fds.drop_last(), s, depth),
            match first_with_id(s.fields, fd.id) {
                None => fails(ErrorV::SchemaError(missing_field_message(fd.id, fd.metadata.name@))),
                Some(i) => if 0 <= i < s.fields.len() {
                    sw_value(schema, version, fd.type_def, s.fields[i].value, depth)
                } else {
                    emits(Seq::empty())
                },
            },
        )
    }
}

/// What writing `s` with `schema` as Simple Binary `version` gives.
pub open spec fn sw_root(schema: SchemaDef, version: u16, s: StructV) -> Written {
    if schema.root.id != BondDataType::Struct {
        fails(root_not_struct_error())
    } else {
        sw_struct_fields(schema, version, schema.root.struct_def, s, 0, schema.structs@.len())
    }
}

/// `out` grew from `before` to `after` by what `w` emits, and `r` carries the
/// error `w` stopped on, if any.
pub open spec fn wrote(before: Seq<u8>, after: Seq<u8>, r: Result<(), Error>, w: Written) -> bool {
    &&& after == before + w.0
    &&& match w.1 {
        Some(e) => r matches Err(x) && x@ == e,
        None => r is Ok,
    }
}

// ---------------------------------------------------------------------------
// The reader
// ---------------------------------------------------------------------------

proof fn lemma_after_empty<T>(r: Result<(Seq<T>, int), ErrorV>)
    ensures
        after(Seq::<T>::empty(), r) == r,
{
    if let Ok((s, q)) = r {
        assert(Seq::<T>::empty() + s =~= s);
    }
}

/// A read over input `d` left the reader over `d2` at `p2`, returning `r`, as
/// the model `s` says.
pub open spec fn sreads<T: View>(d: Seq<u8>, d2: Seq<u8>, p2: int, r: Result<T, Error>, s: Result<(T::V, int), ErrorV>) -> bool {
    &&& d2 == d
    &&& p2 <= d2.len()
    &&& match s {
        Ok((v, q)) => r matches Ok(x) && x@ == v && p2 == q,
        Err(e) => r matches Err(x) && x@ == e,
    }
}

/// A Simple Binary reader. Requires a schema to interpret the payload.
pub struct SimpleReader<'a> {
    reader: Reader<'a>,
    version: u16,
}

impl<'a> SimpleReader<'a> {
    /// The whole input.
    pub closed spec fn data(&self) -> Seq<u8> {
        self.reader.data()
    }

    /// The current offset into the input.
    pub closed spec fn pos(&self) -> int {
        self.reader.pos()
    }

    /// The protocol version this reader was created with.
    pub closed spec fn spec_version(&self) -> u16 {
        self.version
    }

    /// Creates a Simple Binary reader for the given version (1 or 2), rejecting
    /// any other version with [`Error::UnsupportedVersion`].
    pub fn new(buf: &'a [u8], version: u16) -> (r: Result<Self, Error>)
        ensures
            version == V1 || version == V2 ==> (r matches Ok(s) && s.data() == buf@ && s.pos() == 0
                && s.spec_version() == version),
            !(version == V1 || version == V2) ==> (r matches Err(e) && e@ == simple_version_error(version)),
    {
        if version != V1 && version != V2 {
            return Err(Error::UnsupportedVersion { protocol: ProtocolType::Simple, version });
        }
        Ok(SimpleReader { reader: Reader::new(buf), version })
    }

    /// Borrows the underlying cursor.
    pub fn cursor(&self) -> (r: &Reader<'a>)
        ensures
            r.data() == self.data(),
            r.pos() == self.pos(),
    {
        &self.reader
    }

    fn read_length(&mut self) -> (r: Result<usize, Error>)
        ensures
            final(self).spec_version() == old(self).spec_version(),
            final(self).data() == old(self).data(),
            final(self).pos() <= final(self).data().len(),
            match ss_len(old(self).spec_version(), old(self).data(), old(self).pos()) {
                Ok((n, q)) => r == Ok::<usize, Error>(n) && final(self).pos() == q,
                Err(e) => r matches Err(x) && x@ == e,
            },
    {
        if self.version == V2 {
            Ok(self.reader.read_varint_u32()? as usize)
        } else {
            Ok(self.reader.read_le_u32()? as usize)
        }
    }

    /// Reads the schema's root struct into a [`Struct`].
    pub fn read_root(&mut self, schema: &SchemaDef) -> (r: Result<Struct, Error>)
        requires
            bases_acyclic(*schema),
            old(self).pos() <= old(self).data().len(),
        ensures
            final(self).spec_version() == old(self).spec_version(),
            schema.root.id != BondDataType::Struct ==> (r matches Err(e) && e@ == root_not_struct_error()),
            schema.root.id == BondDataType::Struct ==> sreads(old(self).data(), final(self).data(), final(self).pos(), r,
                ss_read_struct(*schema, old(self).spec_version(), old(self).data(), old(self).pos(), schema.root.struct_def, 0)),
    {
        let root = &schema.root;
        if root.id != BondDataType::Struct {
            return Err(Error::SchemaError("Simple Binary root must be a struct".to_owned()));
        }
        self.read_struct(schema, root.struct_def, 0)
    }

    fn read_struct(&mut self, schema: &SchemaDef, index: u16, depth: usize) -> (r: Result<Struct, Error>)
        requires
            old(self).pos() <= old(self).data().len(),
            bases_acyclic(*schema),
        ensures
            final(self).spec_version() == old(self).spec_version(),
            sreads(old(self).data(), final(self).data(), final(self).pos(), r,
                ss_read_struct(*schema, old(self).spec_version(), old(self).data(), old(self).pos(), index, depth as int)),
        decreases 257 - depth as int, 3int, 0int,
    {
        if depth > DEFAULT_MAX_DEPTH {
            return Err(Error::DepthLimitExceeded(DEFAULT_MAX_DEPTH));
        }
        let mut fields: Vec<Field> = Vec::new();
        proof { assert(chain_ends(*schema, index, schema.structs@.len())); }
        self.read_struct_fields(schema, index, &mut fields, depth, Ghost(schema.structs@.len()))?;
        proof {
            match ss_struct_fields(*schema, self.version, old(self).data(), old(self).pos(), index, depth as int,
                schema.structs@.len()) {
                Ok((fs, q)) => { assert(fields_view(fields@) =~= fs); },
                Err(e) => {},
            }
        }
        Ok(Struct { fields })
    }

    fn read_struct_fields(
        &mut self,
        schema: &SchemaDef,
        index: u16,
        fields: &mut Vec<Field>,
        depth: usize,
        Ghost(fuel): Ghost<nat>,
    ) -> (r: Result<(), Error>)
        requires
            old(self).pos() <= old(self).data().len(),
            bases_acyclic(*schema),
            chain_ends(*schema, index, fuel),
            depth <= DEFAULT_MAX_DEPTH,
        ensures
            final(self).spec_version() == old(self).spec_version(),
            final(self).data() == old(self).data(),
            final(self).pos() <= final(self).data().len(),
            match ss_struct_fields(*schema, old(self).spec_version(), old(self).data(), old(self).pos(), index,
                depth as int, fuel) {
                Ok((fs, q)) => r is Ok && fields_view(final(fields)@) == fields_view(old(fields)@) + fs
                    && final(self).pos() == q,
                Err(e) => r matches Err(x) && x@ == e,
            },
        decreases 257 - depth as int, 2int, fuel,
    {
        let ghost ver = self.version;
        let ghost d = self.data();
        let ghost p0 = self.pos();
        let sd = match schema.struct_def(index) {
            Some(sd) => sd,
            None => {
                return Err(no_struct_error(index));
            },
        };
        let ghost acc0 = fields_view(fields@);
        match &sd.base_def {
            Some(base) => {
                self.read_struct_fields(schema, base.struct_def, fields, depth, Ghost((fuel - 1) as nat))?;
            },
            None => {
                proof { assert(acc0 + Seq::<FieldV>::empty() =~= acc0); }
            },
        }
        let ghost p1 = self.pos();
        let ghost acc1 = fields_view(fields@);
        let ghost fds = sd.fields@;
        let ghost bf = acc1.subrange(acc0.len() as int, acc1.len() as int);
        proof {
            assert(schema_struct(*schema, index) == Some(*sd));
            let ghost sdv = *sd;
            match sdv.base_def {
                Some(b) => {
                    assert(fuel > 0);
                    match ss_struct_fields(*schema, ver, d, p0, b.struct_def, depth as int, (fuel - 1) as nat) {
                        Ok((fs, q)) => {
                            assert(bf =~= fs);
                        },
                        Err(e) => {},
                    }
                },
                None => {
                    assert(bf =~= Seq::<FieldV>::empty());
                },
            }
            assert(acc1 =~= acc0 + bf);
            assert(ss_struct_fields(*schema, ver, d, p0, index, depth as int, fuel) == after(bf,
                ss_fdefs(*schema, ver, d, p1, fds, depth as int)));
        }
        proof {
            assert(fields_view(fields@).subrange(acc1.len() as int, fields_view(fields@).len() as int)
                =~= Seq::<FieldV>::empty());
            assert(fields_view(fields@).subrange(0, acc1.len() as int) =~= acc1);
            assert(fds.subrange(0, fds.len() as int) =~= fds);
            lemma_after_empty(ss_fdefs(*schema, ver, d, p1, fds, depth as int));
        }
        let mut i: usize = 0;
        while i < sd.fields.len()
            invariant
                self.spec_version() == ver,
                self.data() == d,
                old(self).spec_version() == ver,
                old(self).data() == d,
                old(self).pos() == p0,
                self.pos() <= d.len(),
                bases_acyclic(*schema),
                depth <= DEFAULT_MAX_DEPTH,
                fds == sd.fields@,
                i <= fds.len(),
                ss_fdefs(*schema, ver, d, p1, fds, depth as int) == after(
                    fields_view(fields@).subrange(acc1.len() as int, fields_view(fields@).len() as int),
                    ss_fdefs(*schema, ver, d, self.pos(), fds.subrange(i as int, fds.len() as int), depth as int),
                ),
                fields_view(fields@).subrange(0, acc1.len() as int) == acc1,
                acc1.len() <= fields_view(fields@).len(),
                ss_struct_fields(*schema, ver, d, p0, index, depth as int, fuel) == after(bf,
                    ss_fdefs(*schema, ver, d, p1, fds, depth as int)),
            decreases fds.len() - i,
        {
            let fd = &sd.fields[i];
            let ghost rest = fds.subrange(i as int, fds.len() as int);
            proof {
                assert(rest[0] == fds[i as int]);
                assert(rest.drop_first() =~= fds.subrange(i + 1, fds.len() as int));
            }
            let value = self.read_value(schema, &fd.type_def, depth + 1)?;
            let ghost before = fields_view(fields@);
            let ghost fv = FieldV { id: fd.id, name: Some(fd.metadata.name@), value: value@ };
            fields.push(Field { id: fd.id, name: Some(fd.metadata.name.clone()), value });
            proof {
                assert(fields_view(fields@) =~= before.push(fv));
                assert(fields_view(fields@).subrange(0, acc1.len() as int) =~= before.subrange(0, acc1.len() as int));
                let mid = before.subrange(acc1.len() as int, before.len() as int);
                assert(fields_view(fields@).subrange(acc1.len() as int, fields_view(fields@).len() as int) =~= mid.push(fv));
                match ss_fdefs(*schema, ver, d, self.pos(), fds.subrange(i + 1, fds.len() as int), depth as int) {
                    Ok((fs, q)) => {
                        assert(mid + (seq![fv] + fs) =~= mid.push(fv) + fs);
                    },
                    Err(e) => {},
                }
            }
            i = i + 1;
        }
        proof {
            assert(fds.subrange(i as int, fds.len() as int) =~= Seq::<FieldDef>::empty());
            let tail = fields_view(fields@).subrange(acc1.len() as int, fields_view(fields@).len() as int);
            assert(tail + Seq::<FieldV>::empty() =~= tail);
            assert(fields_view(fields@) =~= acc1 + tail);
            match ss_struct_fields(*schema, ver, d, p0, index, depth as int, fuel) {
                Ok((fs, q)) => {
                    assert(fields_view(fields@) =~= acc0 + fs);
                },
                Err(e) => {},
            }
        }
        Ok(())
    }

    fn read_value(&mut self, schema: &SchemaDef, td: &TypeDef, depth: usize) -> (r: Result<Value, Error>)
        requires
            old(self).pos() <= old(self).data().len(),
            bases_acyclic(*schema),
        ensures
            final(self).spec_version() == old(self).spec_version(),
            sreads(old(self).data(), final(self).data(), final(self).pos(), r,
                ss_read_value(*schema, old(self).spec_version(), old(self).data(), old(self).pos(), *td, depth as int)),
        decreases 257 - depth as int, 4int, 0int,
    {
        if depth > DEFAULT_MAX_DEPTH {
            return Err(Error::DepthLimitExceeded(DEFAULT_MAX_DEPTH));
        }
        match td.id {
            BondDataType::Bool => Ok(Value::Bool(self.reader.read_bool()?)),
            BondDataType::UInt8 => Ok(Value::UInt8(self.reader.read_u8()?)),
            BondDataType::UInt16 => Ok(Value::UInt16(self.reader.read_le_u16()?)),
            BondDataType::UInt32 => Ok(Value::UInt32(self.reader.read_le_u32()?)),
            BondDataType::UInt64 => Ok(Value::UInt64(self.reader.read_le_u64()?)),
            BondDataType::Int8 => Ok(Value::Int8(self.reader.read_i8()?)),
            BondDataType::Int16 => Ok(Value::Int16(self.reader.read_le_i16()?)),
            BondDataType::Int32 => Ok(Value::Int32(self.reader.read_le_i32()?)),
            BondDataType::Int64 => Ok(Value::Int64(self.reader.read_le_i64()?)),
            BondDataType::Float => Ok(Value::Float(self.reader.read_le_u32()?)),
            BondDataType::Double => Ok(Value::Double(self.reader.read_le_u64()?)),
            BondDataType::String => {
                let len = self.read_length()?;
                let s = self.reader.read_utf8(len)?;
                Ok(Value::Str(s.to_owned()))
            },
            BondDataType::WString => {
                let units = self.read_length()?;
                Ok(Value::WStr(self.reader.read_utf16(units)?))
            },
            BondDataType::Struct => {
                if td.bonded_type {
                    // bonded: always a fixed u32 length and a marshaled payload.
                    let len = self.reader.read_le_u32()? as usize;
                    let bytes = self.reader.read_bytes(len)?;
                    Ok(Value::Bonded(vstd::slice::slice_to_vec(bytes)))
                } else {
                    let s = self.read_struct(schema, td.struct_def, depth + 1)?;
                    proof { lemma_struct_value_view(s); }
                    Ok(Value::Struct(s))
                }
            },
            BondDataType::List => {
                let element = td.element_type()?;
                let count = self.read_length()?;
                match td.sub_type {
                    ListSubType::Blob => {
                        let bytes = self.reader.read_bytes(count)?;
                        Ok(Value::Blob(vstd::slice::slice_to_vec(bytes)))
                    },
                    ListSubType::Nullable => {
                        if count == 0 {
                            Ok(Value::Nullable { element: element.id, value: None })
                        } else {
                            // A nullable holds at most one value; of a longer list
                            // the last value read is kept.
                            let v = self.read_last(schema, element, count, depth)?;
                            Ok(Value::Nullable { element: element.id, value: Some(Box::new(v)) })
                        }
                    },
                    ListSubType::Plain => {
                        let items = self.read_elements(schema, element, count, depth)?;
                        proof { lemma_list_view(element.id, items); }
                        Ok(Value::List { element: element.id, items })
                    },
                }
            },
            BondDataType::SetType => {
                let element = td.element_type()?;
                let count = self.read_length()?;
                let items = self.read_elements(schema, element, count, depth)?;
                proof { lemma_list_view(element.id, items); }
                Ok(Value::SetOf { element: element.id, items })
            },
            BondDataType::MapType => {
                let key_td = td.key_type()?;
                let val_td = td.element_type()?;
                let count = self.read_length()?;
                let entries = self.read_entries(schema, key_td, val_td, count, depth)?;
                proof { lemma_map_view(key_td.id, val_td.id, entries); }
                Ok(Value::MapOf { key: key_td.id, value: val_td.id, entries })
            },
            _ => Err(unsupported_type_error(td.id)),
        }
    }

    fn read_last(&mut self, schema: &SchemaDef, element: &TypeDef, count: usize, depth: usize) -> (r: Result<Value, Error>)
        requires
            old(self).pos() <= old(self).data().len(),
            bases_acyclic(*schema),
            depth <= DEFAULT_MAX_DEPTH,
            count >= 1,
        ensures
            final(self).spec_version() == old(self).spec_version(),
            sreads(old(self).data(), final(self).data(), final(self).pos(), r,
                ss_read_last(*schema, old(self).spec_version(), old(self).data(), old(self).pos(), *element,
                    count as int, depth as int)),
        decreases 257 - depth as int, 1int, 0int,
    {
        let ghost ver = self.version;
        let ghost d = self.data();
        let ghost p0 = self.pos();
        let mut last = self.read_value(schema, element, depth + 1)?;
        let mut i: usize = 1;
        while i < count
            invariant
                self.spec_version() == ver,
                self.data() == d,
                old(self).spec_version() == ver,
                old(self).data() == d,
                old(self).pos() == p0,
                self.pos() <= d.len(),
                bases_acyclic(*schema),
                depth <= DEFAULT_MAX_DEPTH,
                1 <= i <= count,
                ss_read_last(*schema, ver, d, p0, *element, count as int, depth as int) == (if i == count {
                    Ok::<(ValueV, int), ErrorV>((last@, self.pos()))
                } else {
                    ss_read_last(*schema, ver, d, self.pos(), *element, count - i, depth as int)
                }),
            decreases count - i,
        {
            last = self.read_value(schema, element, depth + 1)?;
            i = i + 1;
        }
        Ok(last)
    }

    fn read_elements(&mut self, schema: &SchemaDef, element: &TypeDef, count: usize, depth: usize) -> (r: Result<
        Vec<Value>,
        Error,
    >)
        requires
            old(self).pos() <= old(self).data().len(),
            bases_acyclic(*schema),
            depth <= DEFAULT_MAX_DEPTH,
        ensures
            final(self).spec_version() == old(self).spec_version(),
            final(self).data() == old(self).data(),
            final(self).pos() <= final(self).data().len(),
            match ss_read_elems(*schema, old(self).spec_version(), old(self).data(), old(self).pos(), *element,
                count as int, depth as int) {
                Ok((vs, q)) => r matches Ok(x) && values_view(x@) == vs && final(self).pos() == q,
                Err(e) => r matches Err(x) && x@ == e,
            },
        decreases 257 - depth as int, 1int, 0int,
    {
        let ghost ver = self.version;
        let ghost d = self.data();
        let ghost p0 = self.pos();
        // Cap the pre-allocation so that a corrupt huge count cannot exhaust
        // memory before the reads fail at the end of the input.
        let mut items: Vec<Value> = Vec::with_capacity(if count < 4096 { count } else { 4096 });
        let mut i: usize = 0;
        while i < count
            invariant
                self.spec_version() == ver,
                self.data() == d,
                old(self).spec_version() == ver,
                old(self).data() == d,
                old(self).pos() == p0,
                self.pos() <= d.len(),
                bases_acyclic(*schema),
                depth <= DEFAULT_MAX_DEPTH,
                i <= count,
                ss_read_elems(*schema, ver, d, p0, *element, count as int, depth as int) == after(values_view(items@),
                    ss_read_elems(*schema, ver, d, self.pos(), *element, count - i, depth as int)),
            decreases count - i,
        {
            let v = self.read_value(schema, element, depth + 1)?;
            let ghost acc = values_view(items@);
            proof {
                match ss_read_elems(*schema, ver, d, self.pos(), *element, count - i - 1, depth as int) {
                    Ok((vs, q)) => {
                        assert(acc + (seq![v@] + vs) =~= acc.push(v@) + vs);
                    },
                    Err(e) => {},
                }
            }
            items.push(v);
            proof { assert(values_view(items@) =~= acc.push(v@)); }
            i = i + 1;
        }
        proof { assert(values_view(items@) + Seq::<ValueV>::empty() =~= values_view(items@)); }
        Ok(items)
    }

    fn read_entries(
        &mut self,
        schema: &SchemaDef,
        key: &TypeDef,
        value: &TypeDef,
        count: usize,
        depth: usize,
    ) -> (r: Result<Vec<(Value, Value)>, Error>)
        requires
            old(self).pos() <= old(self).data().len(),
            bases_acyclic(*schema),
            depth <= DEFAULT_MAX_DEPTH,
        ensures
            final(self).spec_version() == old(self).spec_version(),
            final(self).data() == old(self).data(),
            final(self).pos() <= final(self).data().len(),
            match ss_read_entries(*schema, old(self).spec_version(), old(self).data(), old(self).pos(), *key, *value,
                count as int, depth as int) {
                Ok((es, q)) => r matches Ok(x) && entries_view(x@) == es && final(self).pos() == q,
                Err(e) => r matches Err(x) && x@ == e,
            },
        decreases 257 - depth as int, 1int, 0int,
    {
        let ghost ver = self.version;
        let ghost d = self.data();
        let ghost p0 = self.pos();
        let mut entries: Vec<(Value, Value)> = Vec::with_capacity(if count < 4096 { count } else { 4096 });
        let mut i: usize = 0;
        while i < count
            invariant
                self.spec_version() == ver,
                self.data() == d,
                old(self).spec_version() == ver,
                old(self).data() == d,
                old(self).pos() == p0,
                self.pos() <= d.len(),
                bases_acyclic(*schema),
                depth <= DEFAULT_MAX_DEPTH,
                i <= count,
                ss_read_entries(*schema, ver, d, p0, *key, *value, count as int, depth as int) == after(
                    entries_view(entries@),
                    ss_read_entries(*schema, ver, d, self.pos(), *key, *value, count - i, depth as int),
                ),
            decreases count - i,
        {
            let a = self.read_value(schema, key, depth + 1)?;
            let b = self.read_value(schema, value, depth + 1)?;
            let ghost acc = entries_view(entries@);
            proof {
                match ss_read_entries(*schema, ver, d, self.pos(), *key, *value, count - i - 1, depth as int) {
                    Ok((es, q)) => {
                        assert(acc + (seq![(a@, b@)] + es) =~= acc.push((a@, b@)) + es);
                    },
                    Err(e) => {},
                }
            }
            entries.push((a, b));
            proof { assert(entries_view(entries@) =~= acc.push((a@, b@))); }
            i = i + 1;
        }
        proof { assert(entries_view(entries@) + Seq::<(ValueV, ValueV)>::empty() =~= entries_view(entries@)); }
        Ok(entries)
    }
}

/// Parses a Simple Binary payload using `schema`.
pub fn parse(buf: &[u8], schema: &SchemaDef, version: u16) -> (r: Result<Struct, Error>)
    requires
        bases_acyclic(*schema),
    ensures
        outcome(r, ss_parse(*schema, version, buf@)),
{
    let mut reader = SimpleReader::new(buf, version)?;
    reader.read_root(schema)
}


/// Whether every chain of base structs in `schema` ends, so that reading and
/// writing with it terminate.
pub fn bases_are_acyclic(schema: &SchemaDef) -> (r: bool)
    ensures
        r == bases_acyclic(*schema),
{
    let n = schema.structs.len();
    let limit: usize = if n < 65536 { n } else { 65536 };
    let mut i: usize = 0;
    while i < limit
        invariant
            n == schema.structs@.len(),
            limit <= 65536,
            limit <= n,
            i <= limit,
            forall|j: u16| (j as int) < i ==> #[trigger] chain_ends(*schema, j, n as nat),
        decreases limit - i,
    {
        let mut cur: u16 = i as u16;
        let mut fuel: usize = n;
        loop
            invariant
                n == schema.structs@.len(),
                i < limit <= 65536,
                fuel <= n,
                chain_ends(*schema, i as u16, n as nat) == chain_ends(*schema, cur, fuel as nat),
            ensures
                chain_ends(*schema, i as u16, n as nat),
            decreases fuel,
        {
            match schema.struct_def(cur) {
                None => break,
                Some(sd) => match &sd.base_def {
                    None => break,
                    Some(b) => {
                        if fuel == 0 {
                            return false;
                        }
                        cur = b.struct_def;
                        fuel = fuel - 1;
                    },
                },
            }
        }
        i = i + 1;
    }
    assert forall|j: u16| #[trigger] chain_ends(*schema, j, schema.structs@.len()) by {
        if (j as int) >= limit {
            assert(schema_struct(*schema, j) is None);
        }
    }
    true
}

// ---------------------------------------------------------------------------
// The writer
// ---------------------------------------------------------------------------

/// A Simple Binary serializer. Requires a schema to lay out fields.
pub struct SimpleWriter {
    version: u16,
}

impl SimpleWriter {
    /// The protocol version this writer was created with.
    pub closed spec fn spec_version(&self) -> u16 {
        self.version
    }

    /// Creates a Simple Binary writer for the given version (1 or 2), rejecting
    /// any other version with [`Error::UnsupportedVersion`].
    pub fn new(version: u16) -> (r: Result<Self, Error>)
        ensures
            version == V1 || version == V2 ==> (r matches Ok(w) && w.spec_version() == version),
            !(version == V1 || version == V2) ==> (r matches Err(e) && e@ == simple_version_error(version)),
    {
        if version != V1 && version != V2 {
            return Err(Error::UnsupportedVersion { protocol: ProtocolType::Simple, version });
        }
        Ok(SimpleWriter { version })
    }

    fn write_length(&self, out: &mut Writer, len: usize)
        ensures
            final(out)@ == old(out)@ + sw_len(self.spec_version(), len as int),
    {
        if self.version == V2 {
            out.write_varint_u32(len as u32);
        } else {
            out.write_le_u32(len as u32);
        }
    }

    /// Serializes the schema's root struct from `value`, appending to `out`.
    /// On an error, `out` keeps what was written before it.
    pub fn write_root(&self, out: &mut Writer, schema: &SchemaDef, value: &Struct) -> (r: Result<(), Error>)
        requires
            bases_acyclic(*schema),
        ensures
            wrote(old(out)@, final(out)@, r, sw_root(*schema, self.spec_version(), value@)),
    {
        let root = &schema.root;
        if root.id != BondDataType::Struct {
            assert(old(out)@ + Seq::<u8>::empty() =~= old(out)@);
            return Err(Error::SchemaError("Simple Binary root must be a struct".to_owned()));
        }
        proof { assert(chain_ends(*schema, root.struct_def, schema.structs@.len())); }
        self.write_struct_fields(out, schema, root.struct_def, value, 0, Ghost(schema.structs@.len()))
    }

    fn write_struct_fields(
        &self,
        out: &mut Writer,
        schema: &SchemaDef,
        index: u16,
        value: &Struct,
        depth: usize,
        Ghost(fuel): Ghost<nat>,
    ) -> (r: Result<(), Error>)
        requires
            bases_acyclic(*schema),
            chain_ends(*schema, index, fuel),
        ensures
            wrote(old(out)@, final(out)@, r, sw_struct_fields(*schema, self.spec_version(), index, value@, depth as int, fuel)),
        decreases value, 2int, fuel,
    {
        let ghost ver = self.version;
        let ghost o0 = out@;
        if depth > DEFAULT_MAX_DEPTH {
            assert(o0 + Seq::<u8>::empty() =~= o0);
            return Err(Error::DepthLimitExceeded(DEFAULT_MAX_DEPTH));
        }
        let sd = match schema.struct_def(index) {
            Some(sd) => sd,
            None => {
                assert(o0 + Seq::<u8>::empty() =~= o0);
                return Err(no_struct_error(index));
            },
        };
        proof { assert(schema_struct(*schema, index) == Some(*sd)); }
        let ghost sdv = *sd;
        match &sd.base_def {
            Some(base) => {
                self.write_struct_fields(out, schema, base.struct_def, value, depth, Ghost((fuel - 1) as nat))?;
            },
            None => {
                assert(o0 + Seq::<u8>::empty() =~= o0);
            },
        }
        let ghost base_w = match sdv.base_def {
            Some(b) => sw_struct_fields(*schema, ver, b.struct_def, value@, depth as int, (fuel - 1) as nat),
            None => emits(Seq::empty()),
        };
        let ghost o1 = out@;
        let ghost fds = sd.fields@;
        proof {
            assert(o1 == o0 + base_w.0);
            assert(base_w.1 is None);
            assert(sw_struct_fields(*schema, ver, index, value@, depth as int, fuel) == chain(base_w,
                sw_fdefs(*schema, ver, fds, value@, depth as int)));
            assert(fds.take(0) =~= Seq::<FieldDef>::empty());
            assert(o1 + Seq::<u8>::empty() =~= o1);
        }
        let mut i: usize = 0;
        while i < sd.fields.len()
            invariant
                self.spec_version() == ver,
                old(out)@ == o0,
                o1 == o0 + base_w.0,
                base_w.1 is None,
                sw_struct_fields(*schema, ver, index, value@, depth as int, fuel) == chain(base_w,
                    sw_fdefs(*schema, ver, fds, value@, depth as int)),
                bases_acyclic(*schema),
                depth <= DEFAULT_MAX_DEPTH,
                fds == sd.fields@,
                i <= fds.len(),
                out@ == o1 + sw_fdefs(*schema, ver, fds.take(i as int), value@, depth as int).0,
                sw_fdefs(*schema, ver, fds.take(i as int), value@, depth as int).1 is None,
            decreases fds.len() - i,
        {
            let fd = &sd.fields[i];
            proof {
                assert(fds.take(i + 1).drop_last() =~= fds.take(i as int));
                assert(fds.take(i + 1).last() == fds[i as int]);
            }
            let field_value = match value.get(fd.id) {
                Some(v) => v,
                None => {
                    let e = missing_field_error(fd.id, fd.metadata.name.as_str());
                    assert(out@ + Seq::<u8>::empty() =~= out@);
                    proof {
                        lemma_fdefs_stop(*schema, ver, fds, value@, depth as int, i as int);
                        assert(out@ =~= o0 + sw_struct_fields(*schema, ver, index, value@, depth as int, fuel).0);
                    }
                    return Err(e);
                },
            };
            proof { lemma_first_with_id_range(value@.fields, fd.id); }
            let ghost before = out@;
            let wr = self.write_value(out, schema, &fd.type_def, field_value, depth);
            match wr {
                Ok(()) => {},
                Err(e) => {
                    proof {
                        assert(out@ =~= o1 + sw_fdefs(*schema, ver, fds.take(i + 1), value@, depth as int).0);
                        lemma_fdefs_stop(*schema, ver, fds, value@, depth as int, i as int);
                        assert(out@ =~= o0 + sw_struct_fields(*schema, ver, index, value@, depth as int, fuel).0);
                    }
                    return Err(e);
                },
            }
            assert(out@ =~= o1 + sw_fdefs(*schema, ver, fds.take(i + 1), value@, depth as int).0);
            i = i + 1;
        }
        proof { assert(fds.take(i as int) =~= fds); }
        assert(out@ =~= o0 + sw_struct_fields(*schema, ver, index, value@, depth as int, fuel).0);
        Ok(())
    }

    #[verifier::rlimit(50)]
    fn write_value(&self, out: &mut Writer, schema: &SchemaDef, td: &TypeDef, value: &Value, depth: usize) -> (r: Result<
        (),
        Error,
    >)
        requires
            bases_acyclic(*schema),
        ensures
            wrote(old(out)@, final(out)@, r, sw_value(*schema, self.spec_version(), *td, value@, depth as int)),
        decreases value, 3int, 0int,
    {
        let ghost o0 = out@;
        match (td.id, value) {
            (BondDataType::Bool, Value::Bool(v)) => out.write_bool(*v),
            (BondDataType::UInt8, Value::UInt8(v)) => out.write_u8(*v),
            (BondDataType::UInt16, Value::UInt16(v)) => out.write_le_u16(*v),
            (BondDataType::UInt32, Value::UInt32(v)) => out.write_le_u32(*v),
            (BondDataType::UInt64, Value::UInt64(v)) => out.write_le_u64(*v),
            (BondDataType::Int8, Value::Int8(v)) => out.write_i8(*v),
            (BondDataType::Int16, Value::Int16(v)) => out.write_le_i16(*v),
            (BondDataType::Int32, Value::Int32(v)) => out.write_le_i32(*v),
            (BondDataType::Int64, Value::Int64(v)) => out.write_le_i64(*v),
            (BondDataType::Float, Value::Float(v)) => out.write_le_u32(*v),
            (BondDataType::Double, Value::Double(v)) => out.write_le_u64(*v),
            (BondDataType::String, Value::Str(s)) => {
                let b = s.as_str().as_bytes();
                self.write_length(out, b.len());
                out.write_bytes(b);
            },
            (BondDataType::WString, Value::WStr(s)) => {
                let units = str_utf16_units(s.as_str()).len();
                self.write_length(out, units);
                out.write_utf16(s.as_str());
            },
            (BondDataType::Struct, Value::Struct(s)) => {
                proof {
                    lemma_struct_value_view(*s);
                    assert(chain_ends(*schema, td.struct_def, schema.structs@.len()));
                }
                return self.write_struct_fields(out, schema, td.struct_def, s, depth.saturating_add(1), Ghost(schema.structs@.len()));
            },
            (BondDataType::Struct, Value::Bonded(payload)) => {
                out.write_le_u32(payload.len() as u32);
                out.write_bytes(payload.as_slice());
            },
            (BondDataType::List, Value::List { items, element }) => {
                let el = match td.element_type() {
                    Ok(el) => el,
                    Err(e) => {
                        assert(o0 + Seq::<u8>::empty() =~= o0);
                        return Err(e);
                    },
                };
                proof { lemma_list_view(*element, *items); }
                self.write_length(out, items.len());
                let ghost o1 = out@;
                let r = self.write_items(out, schema, el, items, depth);
                proof {
                    lemma_wrote_chain(o0, o1, out@, r, sw_len(self.spec_version(), items.len() as int),
                        sw_items(*schema, self.spec_version(), *el, values_view(items@), depth as int));
                }
                return r;
            },
            (BondDataType::List, Value::Blob(bytes)) => {
                self.write_length(out, bytes.len());
                out.write_bytes(bytes.as_slice());
            },
            (BondDataType::List, Value::Nullable { value: held, .. }) => {
                let el = match td.element_type() {
                    Ok(el) => el,
                    Err(e) => {
                        assert(o0 + Seq::<u8>::empty() =~= o0);
                        return Err(e);
                    },
                };
                match held {
                    None => self.write_length(out, 0),
                    Some(inner) => {
                        self.write_length(out, 1);
                        let ghost o1 = out@;
                        let r = self.write_value(out, schema, el, inner, depth.saturating_add(1));
                        proof {
                            lemma_wrote_chain(o0, o1, out@, r, sw_len(self.spec_version(), 1),
                                sw_value(*schema, self.spec_version(), *el, (**inner)@, next_depth(depth as int)));
                        }
                        return r;
                    },
                }
            },
            (BondDataType::SetType, Value::SetOf { items, element }) => {
                let el = match td.element_type() {
                    Ok(el) => el,
                    Err(e) => {
                        assert(o0 + Seq::<u8>::empty() =~= o0);
                        return Err(e);
                    },
                };
                proof { lemma_list_view(*element, *items); }
                self.write_length(out, items.len());
                let ghost o1 = out@;
                let r = self.write_items(out, schema, el, items, depth);
                proof {
                    lemma_wrote_chain(o0, o1, out@, r, sw_len(self.spec_version(), items.len() as int),
                        sw_items(*schema, self.spec_version(), *el, values_view(items@), depth as int));
                }
                return r;
            },
            (BondDataType::MapType, Value::MapOf { entries, key: kty, value: vty }) => {
                let key_td = match td.key_type() {
                    Ok(k) => k,
                    Err(e) => {
                        assert(o0 + Seq::<u8>::empty() =~= o0);
                        return Err(e);
                    },
                };
                let val_td = match td.element_type() {
                    Ok(v) => v,
                    Err(e) => {
                        assert(o0 + Seq::<u8>::empty() =~= o0);
                        return Err(e);
                    },
                };
                proof { lemma_map_view(*kty, *vty, *entries); }
                self.write_length(out, entries.len());
                let ghost o1 = out@;
                let r = self.write_entries(out, schema, key_td, val_td, entries, depth);
                proof {
                    lemma_wrote_chain(o0, o1, out@, r, sw_len(self.spec_version(), entries.len() as int),
                        sw_entries(*schema, self.spec_version(), *key_td, *val_td, entries_view(entries@), depth as int));
                }
                return r;
            },
            (expected, actual) => {
                assert(o0 + Seq::<u8>::empty() =~= o0);
                return Err(mismatch_error(expected, actual.type_of()));
            },
        }
        assert(out@ =~= o0 + sw_value(*schema, self.spec_version(), *td, value@, depth as int).0);
        Ok(())
    }

    fn write_items(&self, out: &mut Writer, schema: &SchemaDef, el: &TypeDef, items: &Vec<Value>, depth: usize) -> (r: Result<
        (),
        Error,
    >)
        requires
            bases_acyclic(*schema),
        ensures
            wrote(old(out)@, final(out)@, r, sw_items(*schema, self.spec_version(), *el, values_view(items@), depth as int)),
        decreases items, 0int, 0int,
    {
        let ghost ver = self.version;
        let ghost o0 = out@;
        let ghost vs = values_view(items@);
        proof {
            assert(vs.take(0) =~= Seq::<ValueV>::empty());
            assert(o0 + Seq::<u8>::empty() =~= o0);
        }
        let mut i: usize = 0;
        while i < items.len()
            invariant
                self.spec_version() == ver,
                old(out)@ == o0,
                bases_acyclic(*schema),
                vs == values_view(items@),
                i <= items@.len(),
                out@ == o0 + sw_items(*schema, ver, *el, vs.take(i as int), depth as int).0,
                sw_items(*schema, ver, *el, vs.take(i as int), depth as int).1 is None,
            decreases items@.len() - i,
        {
            proof {
                assert(vs.take(i + 1).drop_last() =~= vs.take(i as int));
                assert(vs.take(i + 1).last() == items@[i as int]@);
            }
            let wr = self.write_value(out, schema, el, &items[i], depth.saturating_add(1));
            assert(out@ =~= o0 + sw_items(*schema, ver, *el, vs.take(i + 1), depth as int).0);
            match wr {
                Ok(()) => {},
                Err(e) => {
                    proof { lemma_items_stop(*schema, ver, *el, vs, depth as int, i as int); }
                    return Err(e);
                },
            }
            i = i + 1;
        }
        proof { assert(vs.take(i as int) =~= vs); }
        Ok(())
    }

    fn write_entries(
        &self,
        out: &mut Writer,
        schema: &SchemaDef,
        kt: &TypeDef,
        vt: &TypeDef,
        entries: &Vec<(Value, Value)>,
        depth: usize,
    ) -> (r: Result<(), Error>)
        requires
            bases_acyclic(*schema),
        ensures
            wrote(old(out)@, final(out)@, r, sw_entries(*schema, self.spec_version(), *kt, *vt, entries_view(entries@),
                depth as int)),
        decreases entries, 0int, 0int,
    {
        let ghost ver = self.version;
        let ghost o0 = out@;
        let ghost es = entries_view(entries@);
        proof {
            assert(es.take(0) =~= Seq::<(ValueV, ValueV)>::empty());
            assert(o0 + Seq::<u8>::empty() =~= o0);
        }
        let mut i: usize = 0;
        while i < entries.len()
            invariant
                self.spec_version() == ver,
                old(out)@ == o0,
                bases_acyclic(*schema),
                es == entries_view(entries@),
                i <= entries@.len(),
                out@ == o0 + sw_entries(*schema, ver, *kt, *vt, es.take(i as int), depth as int).0,
                sw_entries(*schema, ver, *kt, *vt, es.take(i as int), depth as int).1 is None,
            decreases entries@.len() - i,
        {
            proof {
                assert(es.take(i + 1).drop_last() =~= es.take(i as int));
                assert(es.take(i + 1).last() == es[i as int]);
            }
            let wk = self.write_value(out, schema, kt, &entries[i].0, depth.saturating_add(1));
            match wk {
                Ok(()) => {},
                Err(e) => {
                    assert(out@ =~= o0 + sw_entries(*schema, ver, *kt, *vt, es.take(i + 1), depth as int).0);
                    proof { lemma_entries_stop(*schema, ver, *kt, *vt, es, depth as int, i as int); }
                    return Err(e);
                },
            }
            let wv = self.write_value(out, schema, vt, &entries[i].1, depth.saturating_add(1));
            assert(out@ =~= o0 + sw_entries(*schema, ver, *kt, *vt, es.take(i + 1), depth as int).0);
            match wv {
                Ok(()) => {},
                Err(e) => {
                    proof { lemma_entries_stop(*schema, ver, *kt, *vt, es, depth as int, i as int); }
                    return Err(e);
                },
            }
            i = i + 1;
        }
        proof { assert(es.take(i as int) =~= es); }
        Ok(())
    }
}

/// Serializes a struct to bytes using Simple Binary `version` and `schema`.
pub fn write(value: &Struct, schema: &SchemaDef, version: u16) -> (r: Result<Vec<u8>, Error>)
    requires
        bases_acyclic(*schema),
    ensures
        !(version == V1 || version == V2) ==> (r matches Err(e) && e@ == simple_version_error(version)),
        version == V1 || version == V2 ==> match sw_root(*schema, version, value@) {
            (b, None) => r matches Ok(x) && x@ == b,
            (_, Some(e)) => r matches Err(x) && x@ == e,
        },
{
    let writer = SimpleWriter::new(version)?;
    let mut out = Writer::new();
    writer.write_root(&mut out, schema, value)?;
    assert(out@ =~= sw_root(*schema, version, value@).0);
    Ok(out.into_bytes())
}

// ---------------------------------------------------------------------------
// Once a write stops on an error, what follows is not written
// ---------------------------------------------------------------------------

/// Writing `prefix` and then what `w` says is writing what `chain` says.
proof fn lemma_wrote_chain(o0: Seq<u8>, o1: Seq<u8>, out: Seq<u8>, r: Result<(), Error>, prefix: Seq<u8>, w: Written)
    requires
        o1 == o0 + prefix,
        wrote(o1, out, r, w),
    ensures
        wrote(o0, out, r, chain(emits(prefix), w)),
{
    assert(out =~= o0 + (prefix + w.0));
}

proof fn lemma_items_stop(schema: SchemaDef, version: u16, el: TypeDef, vs: Seq<ValueV>, depth: int, i: int)
    requires
        0 <= i < vs.len(),
        sw_items(schema, version, el, vs.take(i + 1), depth).1 is Some,
    ensures
        sw_items(schema, version, el, vs, depth) == sw_items(schema, version, el, vs.take(i + 1), depth),
    decreases vs.len(),
{
    if i + 1 < vs.len() {
        let t = vs.drop_last();
        assert(t.take(i + 1) =~= vs.take(i + 1));
        lemma_items_stop(schema, version, el, t, depth, i);
    } else {
        assert(vs.take(i + 1) =~= vs);
    }
}

proof fn lemma_entries_stop(
    schema: SchemaDef,
    version: u16,
    kt: TypeDef,
    vt: TypeDef,
    es: Seq<(ValueV, ValueV)>,
    depth: int,
    i: int,
)
    requires
        0 <= i < es.len(),
        sw_entries(schema, version, kt, vt, es.take(i + 1), depth).1 is Some,
    ensures
        sw_entries(schema, version, kt, vt, es, depth) == sw_entries(schema, version, kt, vt, es.take(i + 1), depth),
    decreases es.len(),
{
    if i + 1 < es.len() {
        let t = es.drop_last();
        assert(t.take(i + 1) =~= es.take(i + 1));
        lemma_entries_stop(schema, version, kt, vt, t, depth, i);
    } else {
        assert(es.take(i + 1) =~= es);
    }
}

proof fn lemma_fdefs_stop(schema: SchemaDef, version: u16, fds: Seq<FieldDef>, s: StructV, depth: int, i: int)
    requires
        0 <= i < fds.len(),
        sw_fdefs(schema, version, fds.take(i + 1), s, depth).1 is Some,
    ensures
        sw_fdefs(schema, version, fds, s, depth) == sw_fdefs(schema, version, fds.take(i + 1), s, depth),
    decreases fds.len(),
{
    if i + 1 < fds.len() {
        let t = fds.drop_last();
        assert(t.take(i + 1) =~= fds.take(i + 1));
        lemma_fdefs_stop(schema, version, t, s, depth, i);
    } else {
        assert(fds.take(i + 1) =~= fds);
    }
}

} // verus!
