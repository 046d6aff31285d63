//! Protocol implementations and the shared tagged-reader abstraction.
//!
//! The two tagged protocols (Compact Binary, Fast Binary) are self-describing
//! and share all of their structural parsing logic through the
//! [`TaggedReader`] trait plus the generic [`read_struct`] / [`read_value`] /
//! [`skip_value`] / [`validate`] functions here; each protocol supplies only its
//! leaf encodings. The untagged protocol ([`simple`]) is schema-driven.

pub mod compact;
pub mod fast;
pub mod roundtrip;
pub mod simple;
pub mod simple_json;
pub mod json_roundtrip;
pub mod simple_roundtrip;
pub mod validate_law;
pub mod prefix;

use vstd::prelude::*;
use crate::message::{data_type_name, push_str, string_from_chars};
use crate::constants::{kind_name, type_from_code, BondDataType, ProtocolType, DEFAULT_MAX_DEPTH};
use crate::error::{Error, ErrorV};
use crate::reader::{
    rd_bytes, rd_le_u16, rd_le_u32, rd_le_u64, rd_u8, rd_utf16, rd_utf8, rd_varint_u16, rd_varint_u32,
    rd_varint_u64, rd_zigzag_i16, rd_zigzag_i32, rd_zigzag_i64,
};
use crate::constants::type_code;
use crate::text::utf16_encode;
use crate::varint::{leb128_encode, zigzag};
use crate::writer::units_le_bytes;
use vstd::bytes::{spec_u16_to_le_bytes, spec_u32_to_le_bytes, spec_u64_to_le_bytes};
use vstd::utf8::encode_utf8;
use crate::value::{
    entries_view, fields_view, lemma_list_view, lemma_map_view, lemma_struct_value_view, values_view, Field, FieldV, Struct,
    StructV, Value, ValueV, type_of_v,
};

verus! {

// ---------------------------------------------------------------------------
// The leaf encodings of the tagged protocols
// ---------------------------------------------------------------------------

/// Which tagged wire format a reader or writer speaks.
#[derive(Clone, Copy, PartialEq, Eq, Debug, Structural)]
pub enum TaggedKind {
    /// Compact Binary version 1.
    CompactV1,
    /// Compact Binary version 2 (length-prefixed structs, packed small counts).
    CompactV2,
    /// Fast Binary version 1.
    Fast,
}

/// The protocol a tagged kind belongs to.
pub open spec fn kind_protocol(k: TaggedKind) -> ProtocolType {
    match k {
        TaggedKind::Fast => ProtocolType::Fast,
        _ => ProtocolType::Compact,
    }
}

/// Maps the value of a successful read, keeping errors and positions.
pub open spec fn lift<T, U>(r: Result<(T, int), ErrorV>, f: spec_fn(T) -> U) -> Result<(U, int), ErrorV> {
    match r {
        Ok((v, q)) => Ok((f(v), q)),
        Err(e) => Err(e),
    }
}

/// Reads a data type byte.
pub open spec fn sp_type_byte(d: Seq<u8>, p: int) -> Result<(BondDataType, int), ErrorV> {
    match rd_u8(d, p) {
        Ok((b, q)) => match type_from_code(b) {
            Some(t) => Ok((t, q)),
            None => Err(ErrorV::UnknownType(b)),
        },
        Err(e) => Err(e),
    }
}

/// The start of a struct: a (skipped) length prefix in Compact v2, nothing otherwise.
pub open spec fn sp_struct_begin(k: TaggedKind, d: Seq<u8>, p: int) -> Result<((), int), ErrorV> {
    if k == TaggedKind::CompactV2 {
        lift(rd_varint_u32(d, p), |x: u32| ())
    } else {
        Ok(((), p))
    }
}

/// A field header: its type and ordinal.
pub open spec fn sp_field_begin(k: TaggedKind, d: Seq<u8>, p: int) -> Result<((BondDataType, u16), int), ErrorV> {
    match rd_u8(d, p) {
        Err(e) => Err(e),
        Ok((raw, q)) => if k == TaggedKind::Fast {
            match type_from_code(raw) {
                None => Err(ErrorV::UnknownType(raw)),
                Some(ty) => if ty == BondDataType::Stop || ty == BondDataType::StopBase {
                    Ok(((ty, 0u16), q))
                } else {
                    lift(rd_le_u16(d, q), |id: u16| (ty, id))
                },
            }
        } else {
            match type_from_code(raw % 32) {
                None => Err(ErrorV::UnknownType(raw % 32)),
                Some(ty) => if raw / 32 == 7 {
                    lift(rd_le_u16(d, q), |id: u16| (ty, id))
                } else if raw / 32 == 6 {
                    lift(rd_u8(d, q), |b: u8| (ty, b as u16))
                } else {
                    Ok(((ty, (raw / 32) as u16), q))
                },
            }
        },
    }
}

/// The header of a `list`/`set`: element count and type.
pub open spec fn sp_container_begin(k: TaggedKind, d: Seq<u8>, p: int) -> Result<((usize, BondDataType), int), ErrorV> {
    match rd_u8(d, p) {
        Err(e) => Err(e),
        Ok((raw, q)) => {
            let code = if k == TaggedKind::Fast { raw } else { (raw % 32) as u8 };
            match type_from_code(code) {
                None => Err(ErrorV::UnknownType(code)),
                Some(ty) => if k == TaggedKind::CompactV2 && raw / 32 != 0 {
                    Ok((((raw / 32 - 1) as usize, ty), q))
                } else {
                    lift(rd_varint_u32(d, q), |n: u32| (n as usize, ty))
                },
            }
        },
    }
}

/// The header of a `map`: entry count, key type and value type.
pub open spec fn sp_map_begin(d: Seq<u8>, p: int) -> Result<((usize, BondDataType, BondDataType), int), ErrorV> {
    match sp_type_byte(d, p) {
        Err(e) => Err(e),
        Ok((key, q)) => match sp_type_byte(d, q) {
            Err(e) => Err(e),
            Ok((value, q2)) => lift(rd_varint_u32(d, q2), |n: u32| (n as usize, key, value)),
        },
    }
}

/// Skipping a whole struct by its length prefix, where the format has one.
pub open spec fn sp_fast_skip(k: TaggedKind, d: Seq<u8>, p: int) -> Result<(bool, int), ErrorV> {
    if k == TaggedKind::CompactV2 {
        match rd_varint_u32(d, p) {
            Err(e) => Err(e),
            Ok((n, q)) => lift(rd_bytes(d, q, n as int), |b: Seq<u8>| true),
        }
    } else {
        Ok((false, p))
    }
}

/// A `bool`.
pub open spec fn sp_bool(d: Seq<u8>, p: int) -> Result<(bool, int), ErrorV> {
    lift(rd_u8(d, p), |b: u8| b != 0)
}

/// An `int8`.
pub open spec fn sp_i8(d: Seq<u8>, p: int) -> Result<(i8, int), ErrorV> {
    lift(rd_u8(d, p), |b: u8| b as i8)
}

/// A `uint16`.
pub open spec fn sp_u16(k: TaggedKind, d: Seq<u8>, p: int) -> Result<(u16, int), ErrorV> {
    if k == TaggedKind::Fast { rd_le_u16(d, p) } else { rd_varint_u16(d, p) }
}

/// A `uint32`.
pub open spec fn sp_u32(k: TaggedKind, d: Seq<u8>, p: int) -> Result<(u32, int), ErrorV> {
    if k == TaggedKind::Fast { rd_le_u32(d, p) } else { rd_varint_u32(d, p) }
}

/// A `uint64`.
pub open spec fn sp_u64(k: TaggedKind, d: Seq<u8>, p: int) -> Result<(u64, int), ErrorV> {
    if k == TaggedKind::Fast { rd_le_u64(d, p) } else { rd_varint_u64(d, p) }
}

/// An `int16`.
pub open spec fn sp_i16(k: TaggedKind, d: Seq<u8>, p: int) -> Result<(i16, int), ErrorV> {
    if k == TaggedKind::Fast { lift(rd_le_u16(d, p), |v: u16| v as i16) } else { rd_zigzag_i16(d, p) }
}

/// An `int32`.
pub open spec fn sp_i32(k: TaggedKind, d: Seq<u8>, p: int) -> Result<(i32, int), ErrorV> {
    if k == TaggedKind::Fast { lift(rd_le_u32(d, p), |v: u32| v as i32) } else { rd_zigzag_i32(d, p) }
}

/// An `int64`.
pub open spec fn sp_i64(k: TaggedKind, d: Seq<u8>, p: int) -> Result<(i64, int), ErrorV> {
    if k == TaggedKind::Fast { lift(rd_le_u64(d, p), |v: u64| v as i64) } else { rd_zigzag_i64(d, p) }
}

/// A `string`: a LEB128 byte length, then UTF-8.
pub open spec fn sp_str(d: Seq<u8>, p: int) -> Result<(Seq<char>, int), ErrorV> {
    match rd_varint_u32(d, p) {
        Err(e) => Err(e),
        Ok((n, q)) => rd_utf8(d, q, n as int),
    }
}

/// A `wstring`: a LEB128 count of code units, then UTF-16LE.
pub open spec fn sp_wstr(d: Seq<u8>, p: int) -> Result<(Seq<char>, int), ErrorV> {
    match rd_varint_u32(d, p) {
        Err(e) => Err(e),
        Ok((n, q)) => rd_utf16(d, q, n as int),
    }
}

/// The message given when a control type stands where a value is expected.
pub open spec fn control_type_read_message(ty: BondDataType) -> Seq<char> {
    "unexpected control type "@ + kind_name(ty) + " where a value was expected"@
}

/// The message given when a control type stands where a value is to be skipped.
pub open spec fn control_type_skip_message(ty: BondDataType) -> Seq<char> {
    "unexpected control type "@ + kind_name(ty) + " while skipping"@
}

/// The message for a control type where a value was expected.
fn unexpected_value_type(ty: BondDataType) -> (r: String)
    ensures
        r@ == control_type_read_message(ty),
{
    let mut out: Vec<char> = Vec::new();
    push_str(&mut out, "unexpected control type ");
    push_str(&mut out, data_type_name(ty));
    push_str(&mut out, " where a value was expected");
    string_from_chars(out)
}

/// The message for a control type where a value was to be skipped.
fn unexpected_skip_type(ty: BondDataType) -> (r: String)
    ensures
        r@ == control_type_skip_message(ty),
{
    let mut out: Vec<char> = Vec::new();
    push_str(&mut out, "unexpected control type ");
    push_str(&mut out, data_type_name(ty));
    push_str(&mut out, " while skipping");
    string_from_chars(out)
}

// ---------------------------------------------------------------------------
// The tagged reader
// ---------------------------------------------------------------------------

/// One read of a tagged reader took it from kind `k` over input `d` to kind `k2`
/// over `d2` at position `p2`, returning `r`, as the model `s` of the read says.
pub open spec fn tstep<T>(
    k: TaggedKind,
    d: Seq<u8>,
    k2: TaggedKind,
    d2: Seq<u8>,
    p2: int,
    r: Result<T, Error>,
    s: Result<(T, int), ErrorV>,
) -> bool {
    &&& k2 == k
    &&& d2 == d
    &&& p2 <= d2.len()
    &&& match s {
        Ok((v, q)) => r == Ok::<T, Error>(v) && p2 == q,
        Err(e) => r matches Err(x) && x@ == e,
    }
}

/// A self-describing (tagged) Bond reader.
///
/// Implementors provide only leaf reads and struct/container framing; the generic
/// functions of this module supply the recursive structure.
pub trait TaggedReader<'de>: Sized {
    /// The wire format this reader speaks.
    spec fn kind(&self) -> TaggedKind;

    /// The whole input.
    spec fn data(&self) -> Seq<u8>;

    /// The current offset into the input.
    spec fn pos(&self) -> int;

    /// Which protocol this reader implements.
    fn protocol(&self) -> (r: ProtocolType)
        ensures
            r == kind_protocol(self.kind());

    /// Reads the start of a struct (consumes the length prefix in Compact v2).
    fn read_struct_begin(&mut self) -> (r: Result<(), Error>)
        ensures
            tstep(old(self).kind(), old(self).data(), final(self).kind(), final(self).data(), final(self).pos(), r, sp_struct_begin(old(self).kind(), old(self).data(), old(self).pos()));

    /// Reads a field header, returning its type and ordinal.
    fn read_field_begin(&mut self) -> (r: Result<(BondDataType, u16), Error>)
        ensures
            tstep(old(self).kind(), old(self).data(), final(self).kind(), final(self).data(), final(self).pos(), r, sp_field_begin(old(self).kind(), old(self).data(), old(self).pos()));

    /// Reads the header of a `list`/`set`, returning element count and type.
    fn read_container_begin(&mut self) -> (r: Result<(usize, BondDataType), Error>)
        ensures
            tstep(old(self).kind(), old(self).data(), final(self).kind(), final(self).data(), final(self).pos(), r, sp_container_begin(old(self).kind(), old(self).data(), old(self).pos()));

    /// Reads the header of a `map`, returning entry count and key/value types.
    fn read_map_begin(&mut self) -> (r: Result<(usize, BondDataType, BondDataType), Error>)
        ensures
            tstep(old(self).kind(), old(self).data(), final(self).kind(), final(self).data(), final(self).pos(), r, sp_map_begin(old(self).data(), old(self).pos()));

    /// Skips a whole struct through its length prefix where the protocol has one;
    /// `false` if the caller must skip field by field.
    fn try_fast_skip_struct(&mut self) -> (r: Result<bool, Error>)
        ensures
            tstep(old(self).kind(), old(self).data(), final(self).kind(), final(self).data(), final(self).pos(), r, sp_fast_skip(old(self).kind(), old(self).data(), old(self).pos()));

    /// Reads a `bool`.
    fn read_bool(&mut self) -> (r: Result<bool, Error>)
        ensures
            tstep(old(self).kind(), old(self).data(), final(self).kind(), final(self).data(), final(self).pos(), r, sp_bool(old(self).data(), old(self).pos()));

    /// Reads a `uint8`.
    fn read_uint8(&mut self) -> (r: Result<u8, Error>)
        ensures
            tstep(old(self).kind(), old(self).data(), final(self).kind(), final(self).data(), final(self).pos(), r, rd_u8(old(self).data(), old(self).pos()));

    /// Reads a `uint16`.
    fn read_uint16(&mut self) -> (r: Result<u16, Error>)
        ensures
            tstep(old(self).kind(), old(self).data(), final(self).kind(), final(self).data(), final(self).pos(), r, sp_u16(old(self).kind(), old(self).data(), old(self).pos()));

    /// Reads a `uint32`.
    fn read_uint32(&mut self) -> (r: Result<u32, Error>)
        ensures
            tstep(old(self).kind(), old(self).data(), final(self).kind(), final(self).data(), final(self).pos(), r, sp_u32(old(self).kind(), old(self).data(), old(self).pos()));

    /// Reads a `uint64`.
    fn read_uint64(&mut self) -> (r: Result<u64, Error>)
        ensures
            tstep(old(self).kind(), old(self).data(), final(self).kind(), final(self).data(), final(self).pos(), r, sp_u64(old(self).kind(), old(self).data(), old(self).pos()));

    /// Reads an `int8`.
    fn read_int8(&mut self) -> (r: Result<i8, Error>)
        ensures
            tstep(old(self).kind(), old(self).data(), final(self).kind(), final(self).data(), final(self).pos(), r, sp_i8(old(self).data(), old(self).pos()));

    /// Reads an `int16`.
    fn read_int16(&mut self) -> (r: Result<i16, Error>)
        ensures
            tstep(old(self).kind(), old(self).data(), final(self).kind(), final(self).data(), final(self).pos(), r, sp_i16(old(self).kind(), old(self).data(), old(self).pos()));

    /// Reads an `int32`.
    fn read_int32(&mut self) -> (r: Result<i32, Error>)
        ensures
            tstep(old(self).kind(), old(self).data(), final(self).kind(), final(self).data(), final(self).pos(), r, sp_i32(old(self).kind(), old(self).data(), old(self).pos()));

    /// Reads an `int64`.
    fn read_int64(&mut self) -> (r: Result<i64, Error>)
        ensures
            tstep(old(self).kind(), old(self).data(), final(self).kind(), final(self).data(), final(self).pos(), r, sp_i64(old(self).kind(), old(self).data(), old(self).pos()));

    /// Reads a `float`, as its bit pattern.
    fn read_float(&mut self) -> (r: Result<u32, Error>)
        ensures
            tstep(old(self).kind(), old(self).data(), final(self).kind(), final(self).data(), final(self).pos(), r, rd_le_u32(old(self).data(), old(self).pos()));

    /// Reads a `double`, as its bit pattern.
    fn read_double(&mut self) -> (r: Result<u64, Error>)
        ensures
            tstep(old(self).kind(), old(self).data(), final(self).kind(), final(self).data(), final(self).pos(), r, rd_le_u64(old(self).data(), old(self).pos()));

    /// Reads a `string`, borrowing from the input.
    fn read_str(&mut self) -> (r: Result<&'de str, Error>)
        ensures
            final(self).kind() == old(self).kind(),
            final(self).data() == old(self).data(),
            final(self).pos() <= final(self).data().len(),
            match sp_str(old(self).data(), old(self).pos()) {
                Ok((c, q)) => r matches Ok(s) && s@ == c && final(self).pos() == q,
                Err(e) => r matches Err(x) && x@ == e,
            };

    /// Reads a `wstring`, decoding UTF-16 into an owned `String`.
    fn read_wstring(&mut self) -> (r: Result<String, Error>)
        ensures
            final(self).kind() == old(self).kind(),
            final(self).data() == old(self).data(),
            final(self).pos() <= final(self).data().len(),
            match sp_wstr(old(self).data(), old(self).pos()) {
                Ok((c, q)) => r matches Ok(s) && s@ == c && final(self).pos() == q,
                Err(e) => r matches Err(x) && x@ == e,
            };
}

// ---------------------------------------------------------------------------
// The model of parsing a tagged payload
// ---------------------------------------------------------------------------

/// The error for nesting beyond [`DEFAULT_MAX_DEPTH`].
pub open spec fn depth_error() -> ErrorV {
    ErrorV::DepthLimitExceeded(DEFAULT_MAX_DEPTH)
}

/// The error the model gives where a read would not advance; it never arises
/// (see [`lemma_read_progress`]).
pub open spec fn stuck_error() -> ErrorV {
    ErrorV::Message(Seq::empty())
}

/// Reading a value of type `ty` at nesting `depth`.
pub open spec fn sp_read_value(k: TaggedKind, d: Seq<u8>, p: int, ty: BondDataType, depth: int) -> Result<(ValueV, int), ErrorV>
    decreases 257 - depth, 3int, 0int,
{
    if depth > DEFAULT_MAX_DEPTH {
        Err(depth_error())
    } else {
        match ty {
            BondDataType::Bool => lift(sp_bool(d, p), |v: bool| ValueV::Bool(v)),
            BondDataType::UInt8 => lift(rd_u8(d, p), |v: u8| ValueV::UInt8(v)),
            BondDataType::UInt16 => lift(sp_u16(k, d, p), |v: u16| ValueV::UInt16(v)),
            BondDataType::UInt32 => lift(sp_u32(k, d, p), |v: u32| ValueV::UInt32(v)),
            BondDataType::UInt64 => lift(sp_u64(k, d, p), |v: u64| ValueV::UInt64(v)),
            BondDataType::Int8 => lift(sp_i8(d, p), |v: i8| ValueV::Int8(v)),
            BondDataType::Int16 => lift(sp_i16(k, d, p), |v: i16| ValueV::Int16(v)),
            BondDataType::Int32 => lift(sp_i32(k, d, p), |v: i32| ValueV::Int32(v)),
            BondDataType::Int64 => lift(sp_i64(k, d, p), |v: i64| ValueV::Int64(v)),
            BondDataType::Float => lift(rd_le_u32(d, p), |v: u32| ValueV::Float(v)),
            BondDataType::Double => lift(rd_le_u64(d, p), |v: u64| ValueV::Double(v)),
            BondDataType::String => lift(sp_str(d, p), |v: Seq<char>| ValueV::Str(v)),
            BondDataType::WString => lift(sp_wstr(d, p), |v: Seq<char>| ValueV::WStr(v)),
            BondDataType::Struct => lift(sp_read_struct(k, d, p, depth + 1), |s: StructV| ValueV::Struct(s)),
            BondDataType::List => match sp_container_begin(k, d, p) {
                Err(e) => Err(e),
                Ok(((n, el), q)) => lift(
                    sp_read_elems(k, d, q, el, n as int, depth),
                    |items: Seq<ValueV>| ValueV::List { element: el, items },
                ),
            },
            BondDataType::SetType => match sp_container_begin(k, d, p) {
                Err(e) => Err(e),
                Ok(((n, el), q)) => lift(
                    sp_read_elems(k, d, q, el, n as int, depth),
                    |items: Seq<ValueV>| ValueV::SetOf { element: el, items },
                ),
            },
            BondDataType::MapType => match sp_map_begin(d, p) {
                Err(e) => Err(e),
                Ok(((n, kt, vt), q)) => lift(
                    sp_read_entries(k, d, q, kt, vt, n as int, depth),
                    |entries: Seq<(ValueV, ValueV)>| ValueV::MapOf { key: kt, value: vt, entries },
                ),
            },
            _ => Err(ErrorV::Message(control_type_read_message(ty))),
        }
    }
}

/// Reading a struct at nesting `depth`: its start, then its fields.
pub open spec fn sp_read_struct(k: TaggedKind, d: Seq<u8>, p: int, depth: int) -> Result<(StructV, int), ErrorV>
    decreases 257 - depth, 2int, 0int,
{
    if depth > DEFAULT_MAX_DEPTH {
        Err(depth_error())
    } else {
        match sp_struct_begin(k, d, p) {
            Err(e) => Err(e),
            Ok((_, q)) => lift(sp_read_fields(k, d, q, depth), |fs: Seq<FieldV>| StructV { fields: fs }),
        }
    }
}

/// Reading fields up to the `Stop` that ends a struct, passing over `StopBase`.
pub open spec fn sp_read_fields(k: TaggedKind, d: Seq<u8>, p: int, depth: int) -> Result<(Seq<FieldV>, int), ErrorV>
    decreases 257 - depth, 1int, d.len() - p,
{
    if depth > DEFAULT_MAX_DEPTH {
        Err(depth_error())
    } else {
        match sp_field_begin(k, d, p) {
            Err(e) => Err(e),
            Ok(((ty, id), q)) => if !(p < q <= d.len()) {
                Err(stuck_error())
            } else if ty == BondDataType::Stop {
                Ok((Seq::empty(), q))
            } else if ty == BondDataType::StopBase {
                sp_read_fields(k, d, q, depth)
            } else {
                match sp_read_value(k, d, q, ty, depth + 1) {
                    Err(e) => Err(e),
                    Ok((v, q2)) => if !(q <= q2 <= d.len()) {
                        Err(stuck_error())
                    } else {
                        lift(
                            sp_read_fields(k, d, q2, depth),
                            |fs: Seq<FieldV>| seq![FieldV { id, name: None, value: v }] + fs,
                        )
                    },
                }
            },
        }
    }
}

/// Reading `n` elements of type `ty`.
pub open spec fn sp_read_elems(k: TaggedKind, d: Seq<u8>, p: int, ty: BondDataType, n: int, depth: int) -> Result<(Seq<ValueV>, int), ErrorV>
    decreases 257 - depth, 1int, n,
{
    if depth > DEFAULT_MAX_DEPTH {
        Err(depth_error())
    } else if n <= 0 {
        Ok((Seq::empty(), p))
    } else {
        match sp_read_value(k, d, p, ty, depth + 1) {
            Err(e) => Err(e),
            Ok((v, q)) => lift(sp_read_elems(k, d, q, ty, n - 1, depth), |vs: Seq<ValueV>| seq![v] + vs),
        }
    }
}

/// Reading `n` map entries with key type `kt` and value type `vt`.
pub open spec fn sp_read_entries(
    k: TaggedKind,
    d: Seq<u8>,
    p: int,
    kt: BondDataType,
    vt: BondDataType,
    n: int,
    depth: int,
) -> Result<(Seq<(ValueV, ValueV)>, int), ErrorV>
    decreases 257 - depth, 1int, n,
{
    if depth > DEFAULT_MAX_DEPTH {
        Err(depth_error())
    } else if n <= 0 {
        Ok((Seq::empty(), p))
    } else {
        match sp_read_value(k, d, p, kt, depth + 1) {
            Err(e) => Err(e),
            Ok((key, q)) => match sp_read_value(k, d, q, vt, depth + 1) {
                Err(e) => Err(e),
                Ok((val, q2)) => lift(
                    sp_read_entries(k, d, q2, kt, vt, n - 1, depth),
                    |es: Seq<(ValueV, ValueV)>| seq![(key, val)] + es,
                ),
            },
        }
    }
}

/// `acc` followed by what `r` read.
pub open spec fn after<T>(acc: Seq<T>, r: Result<(Seq<T>, int), ErrorV>) -> Result<(Seq<T>, int), ErrorV> {
    match r {
        Ok((s, q)) => Ok((acc + s, q)),
        Err(e) => Err(e),
    }
}

// ---------------------------------------------------------------------------
// Reads never move backwards nor past the end of the input
// ---------------------------------------------------------------------------

/// A successful read from `p` ends at some `q` with `p <= q <= d.len()`.
pub open spec fn within<T>(d: Seq<u8>, p: int, r: Result<(T, int), ErrorV>) -> bool {
    r matches Ok((_, q)) ==> p <= q <= d.len()
}

proof fn lemma_varint_within(d: Seq<u8>, p: int)
    requires
        0 <= p <= d.len(),
    ensures
        within(d, p, rd_varint_u64(d, p)),
        within(d, p, rd_varint_u32(d, p)),
        within(d, p, rd_varint_u16(d, p)),
        rd_varint_u32(d, p) matches Ok((_, q)) ==> p < q,
{
    let s = d.subrange(p, d.len() as int);
    assert(s.len() == d.len() - p);
    crate::varint::lemma_terminator_range(s, 0);
}

/// Every leaf read stays within the input and moves forward.
pub proof fn lemma_leaf_within(k: TaggedKind, d: Seq<u8>, p: int)
    requires
        0 <= p <= d.len(),
    ensures
        within(d, p, rd_u8(d, p)),
        within(d, p, sp_bool(d, p)),
        within(d, p, sp_i8(d, p)),
        within(d, p, sp_u16(k, d, p)),
        within(d, p, sp_u32(k, d, p)),
        within(d, p, sp_u64(k, d, p)),
        within(d, p, sp_i16(k, d, p)),
        within(d, p, sp_i32(k, d, p)),
        within(d, p, sp_i64(k, d, p)),
        within(d, p, rd_le_u32(d, p)),
        within(d, p, rd_le_u64(d, p)),
        within(d, p, sp_str(d, p)),
        within(d, p, sp_wstr(d, p)),
        within(d, p, sp_struct_begin(k, d, p)),
        within(d, p, sp_container_begin(k, d, p)),
        within(d, p, sp_map_begin(d, p)),
        within(d, p, sp_fast_skip(k, d, p)),
        sp_field_begin(k, d, p) matches Ok((_, q)) ==> p < q <= d.len(),
{
    lemma_varint_within(d, p);
    if p + 1 <= d.len() {
        lemma_varint_within(d, p + 1);
        if p + 2 <= d.len() {
            lemma_varint_within(d, p + 2);
        }
    }
    if let Ok((_, q)) = rd_varint_u32(d, p) {
        lemma_varint_within(d, q);
    }
}

/// Reading a value stays within the input and never moves backwards.
pub proof fn lemma_read_progress(k: TaggedKind, d: Seq<u8>, p: int, ty: BondDataType, depth: int)
    requires
        0 <= p <= d.len(),
    ensures
        within(d, p, sp_read_value(k, d, p, ty, depth)),
    decreases 257 - depth, 3int, 0int,
{
    lemma_leaf_within(k, d, p);
    if depth <= DEFAULT_MAX_DEPTH {
        match ty {
            BondDataType::Struct => {
                lemma_read_progress_struct(k, d, p, depth + 1);
            },
            BondDataType::List | BondDataType::SetType => {
                if let Ok(((m, el), q)) = sp_container_begin(k, d, p) {
                    lemma_read_progress_elems(k, d, q, el, m as int, depth);
                }
            },
            BondDataType::MapType => {
                if let Ok(((m, a, b), q)) = sp_map_begin(d, p) {
                    lemma_read_progress_entries(k, d, q, a, b, m as int, depth);
                }
            },
            _ => {},
        }
    }
}

/// Reading a struct stays within the input and never moves backwards.
pub proof fn lemma_read_progress_struct(k: TaggedKind, d: Seq<u8>, p: int, depth: int)
    requires
        0 <= p <= d.len(),
    ensures
        within(d, p, sp_read_struct(k, d, p, depth)),
    decreases 257 - depth, 2int, 0int,
{
    lemma_leaf_within(k, d, p);
    if depth <= DEFAULT_MAX_DEPTH {
        if let Ok((_, q)) = sp_struct_begin(k, d, p) {
            lemma_read_progress_fields(k, d, q, depth);
        }
    }
}

/// Reading fields stays within the input and never moves backwards.
pub proof fn lemma_read_progress_fields(k: TaggedKind, d: Seq<u8>, p: int, depth: int)
    requires
        0 <= p <= d.len(),
    ensures
        within(d, p, sp_read_fields(k, d, p, depth)),
    decreases 257 - depth, 1int, d.len() - p,
{
    lemma_leaf_within(k, d, p);
    if depth <= DEFAULT_MAX_DEPTH {
        if let Ok(((ty, id), q)) = sp_field_begin(k, d, p) {
            if p < q <= d.len() && ty != BondDataType::Stop {
                if ty == BondDataType::StopBase {
                    lemma_read_progress_fields(k, d, q, depth);
                } else {
                    lemma_read_progress(k, d, q, ty, depth + 1);
                    if let Ok((v, q2)) = sp_read_value(k, d, q, ty, depth + 1) {
                        if q <= q2 <= d.len() {
                            lemma_read_progress_fields(k, d, q2, depth);
                        }
                    }
                }
            }
        }
    }
}

/// Reading elements stays within the input and never moves backwards.
pub proof fn lemma_read_progress_elems(k: TaggedKind, d: Seq<u8>, p: int, ty: BondDataType, n: int, depth: int)
    requires
        0 <= p <= d.len(),
    ensures
        within(d, p, sp_read_elems(k, d, p, ty, n, depth)),
    decreases 257 - depth, 1int, n,
{
    if depth <= DEFAULT_MAX_DEPTH && n > 0 {
        lemma_read_progress(k, d, p, ty, depth + 1);
        if let Ok((v, q)) = sp_read_value(k, d, p, ty, depth + 1) {
            lemma_read_progress_elems(k, d, q, ty, n - 1, depth);
        }
    }
}

/// Reading map entries stays within the input and never moves backwards.
pub proof fn lemma_read_progress_entries(k: TaggedKind, d: Seq<u8>, p: int, kt: BondDataType, vt: BondDataType, n: int, depth: int)
    requires
        0 <= p <= d.len(),
    ensures
        within(d, p, sp_read_entries(k, d, p, kt, vt, n, depth)),
    decreases 257 - depth, 1int, n,
{
    if depth <= DEFAULT_MAX_DEPTH && n > 0 {
        lemma_read_progress(k, d, p, kt, depth + 1);
        if let Ok((a, q)) = sp_read_value(k, d, p, kt, depth + 1) {
            lemma_read_progress(k, d, q, vt, depth + 1);
            if let Ok((b, q2)) = sp_read_value(k, d, q, vt, depth + 1) {
                lemma_read_progress_entries(k, d, q2, kt, vt, n - 1, depth);
            }
        }
    }
}

// ---------------------------------------------------------------------------
// Parsing a tagged payload into the DOM
// ---------------------------------------------------------------------------

/// A read took a tagged reader from kind `k` over input `d` to kind `k2` over
/// `d2` at position `p2`, returning `r` whose model is what `s` says.
pub open spec fn treads<T: View>(
    k: TaggedKind,
    d: Seq<u8>,
    k2: TaggedKind,
    d2: Seq<u8>,
    p2: int,
    r: Result<T, Error>,
    s: Result<(T::V, int), ErrorV>,
) -> bool {
    &&& k2 == k
    &&& d2 == d
    &&& p2 <= d2.len()
    &&& match s {
        Ok((v, q)) => r matches Ok(x) && x@ == v && p2 == q,
        Err(e) => r matches Err(x) && x@ == e,
    }
}

/// Reads a complete struct from the root of a tagged payload.
pub fn read_struct<'de, R: TaggedReader<'de>>(reader: &mut R) -> (r: Result<Struct, Error>)
    requires
        0 <= old(reader).pos() <= old(reader).data().len(),
    ensures
        treads(old(reader).kind(), old(reader).data(), final(reader).kind(), final(reader).data(),
            final(reader).pos(), r, sp_read_struct(old(reader).kind(), old(reader).data(), old(reader).pos(), 0)),
{
    read_struct_inner(reader, 0)
}

fn read_struct_inner<'de, R: TaggedReader<'de>>(reader: &mut R, depth: usize) -> (r: Result<Struct, Error>)
    requires
        0 <= old(reader).pos() <= old(reader).data().len(),
    ensures
        treads(old(reader).kind(), old(reader).data(), final(reader).kind(), final(reader).data(),
            final(reader).pos(), r, sp_read_struct(old(reader).kind(), old(reader).data(), old(reader).pos(), depth as int)),
    decreases 257 - depth as int, 2int, 0int,
{
    if depth > DEFAULT_MAX_DEPTH {
        return Err(Error::DepthLimitExceeded(DEFAULT_MAX_DEPTH));
    }
    let ghost k = reader.kind();
    let ghost d = reader.data();
    reader.read_struct_begin()?;
    let ghost p0 = reader.pos();
    proof { lemma_leaf_within(k, d, old(reader).pos()); }
    let mut fields: Vec<Field> = Vec::new();
    loop
        invariant_except_break
            reader.kind() == k,
            reader.data() == d,
            old(reader).kind() == k,
            old(reader).data() == d,
            sp_struct_begin(k, d, old(reader).pos()) == Ok::<((), int), ErrorV>(((), p0)),
            0 <= p0 <= reader.pos() <= d.len(),
            depth <= DEFAULT_MAX_DEPTH,
            sp_read_fields(k, d, p0, depth as int) == after(fields_view(fields@),
                sp_read_fields(k, d, reader.pos(), depth as int)),
        ensures
            reader.kind() == k,
            reader.data() == d,
            reader.pos() <= d.len(),
            sp_read_fields(k, d, p0, depth as int) == Ok::<(Seq<FieldV>, int), ErrorV>((fields_view(fields@), reader.pos())),
        decreases d.len() - reader.pos(),
    {
        let ghost p = reader.pos();
        proof { lemma_leaf_within(k, d, p); }
        let (ty, id) = reader.read_field_begin()?;
        let ghost q = reader.pos();
        match ty {
            BondDataType::Stop => {
                proof {
                    assert(fields_view(fields@) + Seq::<FieldV>::empty() =~= fields_view(fields@));
                }
                break;
            },
            BondDataType::StopBase => {
                continue;
            },
            _ => {
                proof { lemma_read_progress(k, d, q, ty, depth as int + 1); }
                let value = read_value(reader, ty, depth + 1)?;
                let ghost acc = fields_view(fields@);
                let ghost fv = FieldV { id, name: None, value: value@ };
                proof {
                    match sp_read_fields(k, d, reader.pos(), depth as int) {
                        Ok((fs, q3)) => {
                            assert(acc + (seq![fv] + fs) =~= acc.push(fv) + fs);
                        },
                        Err(e) => {},
                    }
                }
                fields.push(Field { id, name: None, value });
                proof {
                    assert(fields_view(fields@) =~= acc.push(fv));
                }
            },
        }
    }
    Ok(Struct { fields })
}

/// Reads a single value of the given (already known) type at nesting `depth`.
pub fn read_value<'de, R: TaggedReader<'de>>(reader: &mut R, ty: BondDataType, depth: usize) -> (r: Result<Value, Error>)
    requires
        0 <= old(reader).pos() <= old(reader).data().len(),
    ensures
        treads(old(reader).kind(), old(reader).data(), final(reader).kind(), final(reader).data(),
            final(reader).pos(), r, sp_read_value(old(reader).kind(), old(reader).data(), old(reader).pos(), ty, depth as int)),
    decreases 257 - depth as int, 3int, 0int,
{
    if depth > DEFAULT_MAX_DEPTH {
        return Err(Error::DepthLimitExceeded(DEFAULT_MAX_DEPTH));
    }
    match ty {
        BondDataType::Bool => Ok(Value::Bool(reader.read_bool()?)),
        BondDataType::UInt8 => Ok(Value::UInt8(reader.read_uint8()?)),
        BondDataType::UInt16 => Ok(Value::UInt16(reader.read_uint16()?)),
        BondDataType::UInt32 => Ok(Value::UInt32(reader.read_uint32()?)),
        BondDataType::UInt64 => Ok(Value::UInt64(reader.read_uint64()?)),
        BondDataType::Int8 => Ok(Value::Int8(reader.read_int8()?)),
        BondDataType::Int16 => Ok(Value::Int16(reader.read_int16()?)),
        BondDataType::Int32 => Ok(Value::Int32(reader.read_int32()?)),
        BondDataType::Int64 => Ok(Value::Int64(reader.read_int64()?)),
        BondDataType::Float => Ok(Value::Float(reader.read_float()?)),
        BondDataType::Double => Ok(Value::Double(reader.read_double()?)),
        BondDataType::String => {
            let s = reader.read_str()?;
            Ok(Value::Str(s.to_owned()))
        },
        BondDataType::WString => Ok(Value::WStr(reader.read_wstring()?)),
        BondDataType::Struct => {
            let s = read_struct_inner(reader, depth + 1)?;
            proof { lemma_struct_value_view(s); }
            Ok(Value::Struct(s))
        },
        BondDataType::List => {
            let (count, element) = reader.read_container_begin()?;
            let items = read_elements(reader, element, count, depth)?;
            proof { lemma_list_view(element, items); }
            Ok(Value::List { element, items })
        },
        BondDataType::SetType => {
            let (count, element) = reader.read_container_begin()?;
            let items = read_elements(reader, element, count, depth)?;
            proof { lemma_list_view(element, items); }
            Ok(Value::SetOf { element, items })
        },
        BondDataType::MapType => {
            let (count, key, value) = reader.read_map_begin()?;
            let entries = read_entries(reader, key, value, count, depth)?;
            proof { lemma_map_view(key, value, entries); }
            Ok(Value::MapOf { key, value, entries })
        },
        _ => Err(Error::Message(unexpected_value_type(ty))),
    }
}

fn read_elements<'de, R: TaggedReader<'de>>(
    reader: &mut R,
    element: BondDataType,
    count: usize,
    depth: usize,
) -> (r: Result<Vec<Value>, Error>)
    requires
        0 <= old(reader).pos() <= old(reader).data().len(),
        depth <= DEFAULT_MAX_DEPTH,
    ensures
        final(reader).kind() == old(reader).kind(),
        final(reader).data() == old(reader).data(),
        final(reader).pos() <= final(reader).data().len(),
        match sp_read_elems(old(reader).kind(), old(reader).data(), old(reader).pos(), element, count as int, depth as int) {
            Ok((vs, q)) => r matches Ok(x) && values_view(x@) == vs && final(reader).pos() == q,
            Err(e) => r matches Err(x) && x@ == e,
        },
    decreases 257 - depth as int, 1int, 0int,
{
    let ghost k = reader.kind();
    let ghost d = reader.data();
    let ghost p0 = reader.pos();
    // Cap the pre-allocation so that a corrupt huge count cannot exhaust memory
    // before the reads fail at the end of the input.
    let mut items: Vec<Value> = Vec::with_capacity(if count < 4096 { count } else { 4096 });
    let mut i: usize = 0;
    while i < count
        invariant
            reader.kind() == k,
            reader.data() == d,
            old(reader).kind() == k,
            old(reader).data() == d,
            old(reader).pos() == p0,
            0 <= p0 <= reader.pos() <= d.len(),
            depth <= DEFAULT_MAX_DEPTH,
            i <= count,
            sp_read_elems(k, d, p0, element, count as int, depth as int) == after(values_view(items@),
                sp_read_elems(k, d, reader.pos(), element, count - i, depth as int)),
        decreases count - i,
    {
        let ghost p = reader.pos();
        proof { lemma_read_progress(k, d, p, element, depth as int + 1); }
        let v = read_value(reader, element, depth + 1)?;
        let ghost acc = values_view(items@);
        proof {
            match sp_read_elems(k, d, reader.pos(), element, count - i - 1, depth as int) {
                Ok((vs, q)) => {
                    assert(acc + (seq![v@] + vs) =~= acc.push(v@) + vs);
                },
                Err(e) => {},
            }
        }
        items.push(v);
        proof { assert(values_view(items@) =~= acc.push(v@)); }
        i = i + 1;
    }
    proof { assert(values_view(items@) + Seq::<ValueV>::empty() =~= values_view(items@)); }
    Ok(items)
}

fn read_entries<'de, R: TaggedReader<'de>>(
    reader: &mut R,
    key: BondDataType,
    value: BondDataType,
    count: usize,
    depth: usize,
) -> (r: Result<Vec<(Value, Value)>, Error>)
    requires
        0 <= old(reader).pos() <= old(reader).data().len(),
        depth <= DEFAULT_MAX_DEPTH,
    ensures
        final(reader).kind() == old(reader).kind(),
        final(reader).data() == old(reader).data(),
        final(reader).pos() <= final(reader).data().len(),
        match sp_read_entries(old(reader).kind(), old(reader).data(), old(reader).pos(), key, value, count as int, depth as int) {
            Ok((es, q)) => r matches Ok(x) && entries_view(x@) == es && final(reader).pos() == q,
            Err(e) => r matches Err(x) && x@ == e,
        },
    decreases 257 - depth as int, 1int, 0int,
{
    let ghost k = reader.kind();
    let ghost d = reader.data();
    let ghost p0 = reader.pos();
    let mut entries: Vec<(Value, Value)> = Vec::with_capacity(if count < 4096 { count } else { 4096 });
    let mut i: usize = 0;
    while i < count
        invariant
            reader.kind() == k,
            reader.data() == d,
            old(reader).kind() == k,
            old(reader).data() == d,
            old(reader).pos() == p0,
            0 <= p0 <= reader.pos() <= d.len(),
            depth <= DEFAULT_MAX_DEPTH,
            i <= count,
            sp_read_entries(k, d, p0, key, value, count as int, depth as int) == after(entries_view(entries@),
                sp_read_entries(k, d, reader.pos(), key, value, count - i, depth as int)),
        decreases count - i,
    {
        let ghost p = reader.pos();
        proof { lemma_read_progress(k, d, p, key, depth as int + 1); }
        let a = read_value(reader, key, depth + 1)?;
        let ghost p1 = reader.pos();
        proof { lemma_read_progress(k, d, p1, value, depth as int + 1); }
        let b = read_value(reader, value, depth + 1)?;
        let ghost acc = entries_view(entries@);
        proof {
            match sp_read_entries(k, d, reader.pos(), key, value, count - i - 1, depth as int) {
                Ok((es, q)) => {
                    assert(acc + (seq![(a@, b@)] + es) =~= acc.push((a@, b@)) + es);
                },
                Err(e) => {},
            }
        }
        entries.push((a, b));
        proof { assert(entries_view(entries@) =~= acc.push((a@, b@))); }
        i = i + 1;
    }
    proof { assert(entries_view(entries@) + Seq::<(ValueV, ValueV)>::empty() =~= entries_view(entries@)); }
    Ok(entries)
}

// ---------------------------------------------------------------------------
// Skipping and validating without building the DOM
// ---------------------------------------------------------------------------

/// The position after a successful read, or its error.
pub open spec fn pos_of<T>(r: Result<(T, int), ErrorV>) -> Result<int, ErrorV> {
    match r {
        Ok((_, q)) => Ok(q),
        Err(e) => Err(e),
    }
}

/// Skipping a value of type `ty` at nesting `depth`; where `fast` holds, structs
/// are skipped through their length prefix when the format has one.
pub open spec fn sp_skip(k: TaggedKind, d: Seq<u8>, p: int, ty: BondDataType, depth: int, fast: bool) -> Result<int, ErrorV>
    decreases 257 - depth, 3int, 0int,
{
    if depth > DEFAULT_MAX_DEPTH {
        Err(depth_error())
    } else {
        match ty {
            BondDataType::Bool | BondDataType::UInt8 | BondDataType::Int8 => pos_of(rd_u8(d, p)),
            BondDataType::UInt16 => pos_of(sp_u16(k, d, p)),
            BondDataType::UInt32 => pos_of(sp_u32(k, d, p)),
            BondDataType::UInt64 => pos_of(sp_u64(k, d, p)),
            BondDataType::Int16 => pos_of(sp_i16(k, d, p)),
            BondDataType::Int32 => pos_of(sp_i32(k, d, p)),
            BondDataType::Int64 => pos_of(sp_i64(k, d, p)),
            BondDataType::Float => pos_of(rd_le_u32(d, p)),
            BondDataType::Double => pos_of(rd_le_u64(d, p)),
            BondDataType::String => pos_of(sp_str(d, p)),
            BondDataType::WString => pos_of(sp_wstr(d, p)),
            BondDataType::Struct => if fast {
                match sp_fast_skip(k, d, p) {
                    Err(e) => Err(e),
                    Ok((skipped, q)) => if skipped { Ok(q) } else { sp_skip_struct_body(k, d, q, depth, fast) },
                }
            } else {
                sp_skip_struct_body(k, d, p, depth, fast)
            },
            BondDataType::List | BondDataType::SetType => match sp_container_begin(k, d, p) {
                Err(e) => Err(e),
                Ok(((n, el), q)) => sp_skip_elems(k, d, q, el, n as int, depth, fast),
            },
            BondDataType::MapType => match sp_map_begin(d, p) {
                Err(e) => Err(e),
                Ok(((n, kt, vt), q)) => sp_skip_entries(k, d, q, kt, vt, n as int, depth, fast),
            },
            _ => Err(ErrorV::Message(control_type_skip_message(ty))),
        }
    }
}

/// Skipping a struct's start and fields.
pub open spec fn sp_skip_struct_body(k: TaggedKind, d: Seq<u8>, p: int, depth: int, fast: bool) -> Result<int, ErrorV>
    decreases 257 - depth, 2int, 0int,
{
    if depth > DEFAULT_MAX_DEPTH {
        Err(depth_error())
    } else {
        match sp_struct_begin(k, d, p) {
            Err(e) => Err(e),
            Ok((_, q)) => sp_skip_fields(k, d, q, depth, fast),
        }
    }
}

/// Skipping fields up to the `Stop` that ends a struct.
pub open spec fn sp_skip_fields(k: TaggedKind, d: Seq<u8>, p: int, depth: int, fast: bool) -> Result<int, ErrorV>
    decreases 257 - depth, 1int, d.len() - p,
{
    if depth > DEFAULT_MAX_DEPTH {
        Err(depth_error())
    } else {
        match sp_field_begin(k, d, p) {
            Err(e) => Err(e),
            Ok(((ty, _), q)) => if !(p < q <= d.len()) {
                Err(stuck_error())
            } else if ty == BondDataType::Stop {
                Ok(q)
            } else if ty == BondDataType::StopBase {
                sp_skip_fields(k, d, q, depth, fast)
            } else {
                match sp_skip(k, d, q, ty, depth + 1, fast) {
                    Err(e) => Err(e),
                    Ok(q2) => if !(q <= q2 <= d.len()) {
                        Err(stuck_error())
                    } else {
                        sp_skip_fields(k, d, q2, depth, fast)
                    },
                }
            },
        }
    }
}

/// Skipping `n` elements of type `ty`.
pub open spec fn sp_skip_elems(k: TaggedKind, d: Seq<u8>, p: int, ty: BondDataType, n: int, depth: int, fast: bool) -> Result<int, ErrorV>
    decreases 257 - depth, 1int, n,
{
    if depth > DEFAULT_MAX_DEPTH {
        Err(depth_error())
    } else if n <= 0 {
        Ok(p)
    } else {
        match sp_skip(k, d, p, ty, depth + 1, fast) {
            Err(e) => Err(e),
            Ok(q) => sp_skip_elems(k, d, q, ty, n - 1, depth, fast),
        }
    }
}

/// Skipping `n` map entries.
pub open spec fn sp_skip_entries(
    k: TaggedKind,
    d: Seq<u8>,
    p: int,
    kt: BondDataType,
    vt: BondDataType,
    n: int,
    depth: int,
    fast: bool,
) -> Result<int, ErrorV>
    decreases 257 - depth, 1int, n,
{
    if depth > DEFAULT_MAX_DEPTH {
        Err(depth_error())
    } else if n <= 0 {
        Ok(p)
    } else {
        match sp_skip(k, d, p, kt, depth + 1, fast) {
            Err(e) => Err(e),
            Ok(q) => match sp_skip(k, d, q, vt, depth + 1, fast) {
                Err(e) => Err(e),
                Ok(q2) => sp_skip_entries(k, d, q2, kt, vt, n - 1, depth, fast),
            },
        }
    }
}

/// A successful skip from `p` ends at some `q` with `p <= q <= d.len()`.
pub open spec fn skip_within(d: Seq<u8>, p: int, r: Result<int, ErrorV>) -> bool {
    r matches Ok(q) ==> p <= q <= d.len()
}

/// Skipping a value stays within the input and never moves backwards.
pub proof fn lemma_skip_progress(k: TaggedKind, d: Seq<u8>, p: int, ty: BondDataType, depth: int, fast: bool)
    requires
        0 <= p <= d.len(),
    ensures
        skip_within(d, p, sp_skip(k, d, p, ty, depth, fast)),
    decreases 257 - depth, 3int, 0int,
{
    lemma_leaf_within(k, d, p);
    if depth <= DEFAULT_MAX_DEPTH {
        match ty {
            BondDataType::Struct => {
                if fast {
                    if let Ok((skipped, q)) = sp_fast_skip(k, d, p) {
                        lemma_skip_progress_struct(k, d, q, depth, fast);
                    }
                } else {
                    lemma_skip_progress_struct(k, d, p, depth, fast);
                }
            },
            BondDataType::List | BondDataType::SetType => {
                if let Ok(((m, el), q)) = sp_container_begin(k, d, p) {
                    lemma_skip_progress_elems(k, d, q, el, m as int, depth, fast);
                }
            },
            BondDataType::MapType => {
                if let Ok(((m, a, b), q)) = sp_map_begin(d, p) {
                    lemma_skip_progress_entries(k, d, q, a, b, m as int, depth, fast);
                }
            },
            _ => {},
        }
    }
}

proof fn lemma_skip_progress_struct(k: TaggedKind, d: Seq<u8>, p: int, depth: int, fast: bool)
    requires
        0 <= p <= d.len(),
    ensures
        skip_within(d, p, sp_skip_struct_body(k, d, p, depth, fast)),
    decreases 257 - depth, 2int, 0int,
{
    lemma_leaf_within(k, d, p);
    if depth <= DEFAULT_MAX_DEPTH {
        if let Ok((_, q)) = sp_struct_begin(k, d, p) {
            lemma_skip_progress_fields(k, d, q, depth, fast);
        }
    }
}

proof fn lemma_skip_progress_fields(k: TaggedKind, d: Seq<u8>, p: int, depth: int, fast: bool)
    requires
        0 <= p <= d.len(),
    ensures
        skip_within(d, p, sp_skip_fields(k, d, p, depth, fast)),
    decreases 257 - depth, 1int, d.len() - p,
{
    lemma_leaf_within(k, d, p);
    if depth <= DEFAULT_MAX_DEPTH {
        if let Ok(((ty, _), q)) = sp_field_begin(k, d, p) {
            if p < q <= d.len() && ty != BondDataType::Stop {
                if ty == BondDataType::StopBase {
                    lemma_skip_progress_fields(k, d, q, depth, fast);
                } else {
                    lemma_skip_progress(k, d, q, ty, depth + 1, fast);
                    if let Ok(q2) = sp_skip(k, d, q, ty, depth + 1, fast) {
                        if q <= q2 <= d.len() {
                            lemma_skip_progress_fields(k, d, q2, depth, fast);
                        }
                    }
                }
            }
        }
    }
}

proof fn lemma_skip_progress_elems(k: TaggedKind, d: Seq<u8>, p: int, ty: BondDataType, n: int, depth: int, fast: bool)
    requires
        0 <= p <= d.len(),
    ensures
        skip_within(d, p, sp_skip_elems(k, d, p, ty, n, depth, fast)),
    decreases 257 - depth, 1int, n,
{
    if depth <= DEFAULT_MAX_DEPTH && n > 0 {
        lemma_skip_progress(k, d, p, ty, depth + 1, fast);
        if let Ok(q) = sp_skip(k, d, p, ty, depth + 1, fast) {
            lemma_skip_progress_elems(k, d, q, ty, n - 1, depth, fast);
        }
    }
}

proof fn lemma_skip_progress_entries(
    k: TaggedKind,
    d: Seq<u8>,
    p: int,
    kt: BondDataType,
    vt: BondDataType,
    n: int,
    depth: int,
    fast: bool,
)
    requires
        0 <= p <= d.len(),
    ensures
        skip_within(d, p, sp_skip_entries(k, d, p, kt, vt, n, depth, fast)),
    decreases 257 - depth, 1int, n,
{
    if depth <= DEFAULT_MAX_DEPTH && n > 0 {
        lemma_skip_progress(k, d, p, kt, depth + 1, fast);
        if let Ok(q) = sp_skip(k, d, p, kt, depth + 1, fast) {
            lemma_skip_progress(k, d, q, vt, depth + 1, fast);
            if let Ok(q2) = sp_skip(k, d, q, vt, depth + 1, fast) {
                lemma_skip_progress_entries(k, d, q2, kt, vt, n - 1, depth, fast);
            }
        }
    }
}

/// A skip took a tagged reader from kind `k` over `d` to kind `k2` over `d2` at
/// `p2`, returning `r`, as `s` says.
pub open spec fn tskip(k: TaggedKind, d: Seq<u8>, k2: TaggedKind, d2: Seq<u8>, p2: int, r: Result<(), Error>, s: Result<int, ErrorV>) -> bool {
    &&& k2 == k
    &&& d2 == d
    &&& p2 <= d2.len()
    &&& match s {
        Ok(q) => r is Ok && p2 == q,
        Err(e) => r matches Err(x) && x@ == e,
    }
}

/// Fully traverses (validates) a struct at the current position without building
/// a DOM: every byte is read and bounds-checked, and `Ok(())` comes back exactly
/// when the whole struct is well-formed.
pub fn validate<'de, R: TaggedReader<'de>>(reader: &mut R) -> (r: Result<(), Error>)
    requires
        0 <= old(reader).pos() <= old(reader).data().len(),
    ensures
        tskip(old(reader).kind(), old(reader).data(), final(reader).kind(), final(reader).data(),
            final(reader).pos(), r, sp_skip(old(reader).kind(), old(reader).data(), old(reader).pos(), BondDataType::Struct, 0, false)),
{
    skip_value_inner(reader, BondDataType::Struct, 0, false)
}

/// Skips a value of the given type without building it, using the protocol's
/// length prefix to pass over structs where it has one.
pub fn skip_value<'de, R: TaggedReader<'de>>(reader: &mut R, ty: BondDataType, depth: usize) -> (r: Result<(), Error>)
    requires
        0 <= old(reader).pos() <= old(reader).data().len(),
    ensures
        tskip(old(reader).kind(), old(reader).data(), final(reader).kind(), final(reader).data(),
            final(reader).pos(), r, sp_skip(old(reader).kind(), old(reader).data(), old(reader).pos(), ty, depth as int, true)),
{
    skip_value_inner(reader, ty, depth, true)
}

fn skip_value_inner<'de, R: TaggedReader<'de>>(reader: &mut R, ty: BondDataType, depth: usize, fast: bool) -> (r: Result<(), Error>)
    requires
        0 <= old(reader).pos() <= old(reader).data().len(),
    ensures
        tskip(old(reader).kind(), old(reader).data(), final(reader).kind(), final(reader).data(),
            final(reader).pos(), r, sp_skip(old(reader).kind(), old(reader).data(), old(reader).pos(), ty, depth as int, fast)),
    decreases 257 - depth as int, 3int, 0int,
{
    if depth > DEFAULT_MAX_DEPTH {
        return Err(Error::DepthLimitExceeded(DEFAULT_MAX_DEPTH));
    }
    match ty {
        BondDataType::Bool | BondDataType::UInt8 | BondDataType::Int8 => {
            reader.read_uint8()?;
        },
        BondDataType::UInt16 => {
            reader.read_uint16()?;
        },
        BondDataType::UInt32 => {
            reader.read_uint32()?;
        },
        BondDataType::UInt64 => {
            reader.read_uint64()?;
        },
        BondDataType::Int16 => {
            reader.read_int16()?;
        },
        BondDataType::Int32 => {
            reader.read_int32()?;
        },
        BondDataType::Int64 => {
            reader.read_int64()?;
        },
        BondDataType::Float => {
            reader.read_float()?;
        },
        BondDataType::Double => {
            reader.read_double()?;
        },
        BondDataType::String => {
            reader.read_str()?;
        },
        BondDataType::WString => {
            reader.read_wstring()?;
        },
        BondDataType::Struct => {
            // Fast-skip only when allowed; validation always descends.
            if fast {
                let skipped = reader.try_fast_skip_struct()?;
                if skipped {
                    return Ok(());
                }
            }
            skip_struct_body(reader, depth, fast)?;
        },
        BondDataType::List | BondDataType::SetType => {
            let (count, element) = reader.read_container_begin()?;
            skip_elements(reader, element, count, depth, fast)?;
        },
        BondDataType::MapType => {
            let (count, key, value) = reader.read_map_begin()?;
            skip_entries(reader, key, value, count, depth, fast)?;
        },
        _ => {
            return Err(Error::Message(unexpected_skip_type(ty)));
        },
    }
    Ok(())
}

fn skip_struct_body<'de, R: TaggedReader<'de>>(reader: &mut R, depth: usize, fast: bool) -> (r: Result<(), Error>)
    requires
        0 <= old(reader).pos() <= old(reader).data().len(),
        depth <= DEFAULT_MAX_DEPTH,
    ensures
        tskip(old(reader).kind(), old(reader).data(), final(reader).kind(), final(reader).data(),
            final(reader).pos(), r, sp_skip_struct_body(old(reader).kind(), old(reader).data(), old(reader).pos(), depth as int, fast)),
    decreases 257 - depth as int, 2int, 0int,
{
    let ghost k = reader.kind();
    let ghost d = reader.data();
    reader.read_struct_begin()?;
    let ghost p0 = reader.pos();
    proof { lemma_leaf_within(k, d, old(reader).pos()); }
    loop
        invariant_except_break
            reader.kind() == k,
            reader.data() == d,
            old(reader).kind() == k,
            old(reader).data() == d,
            sp_struct_begin(k, d, old(reader).pos()) == Ok::<((), int), ErrorV>(((), p0)),
            0 <= p0 <= reader.pos() <= d.len(),
            depth <= DEFAULT_MAX_DEPTH,
            sp_skip_fields(k, d, p0, depth as int, fast) == sp_skip_fields(k, d, reader.pos(), depth as int, fast),
        ensures
            reader.kind() == k,
            reader.data() == d,
            reader.pos() <= d.len(),
            sp_skip_fields(k, d, p0, depth as int, fast) == Ok::<int, ErrorV>(reader.pos()),
        decreases d.len() - reader.pos(),
    {
        let ghost p = reader.pos();
        proof { lemma_leaf_within(k, d, p); }
        let (fty, _id) = reader.read_field_begin()?;
        let ghost q = reader.pos();
        match fty {
            BondDataType::Stop => break,
            BondDataType::StopBase => continue,
            _ => {
                proof { lemma_skip_progress(k, d, q, fty, depth as int + 1, fast); }
                skip_value_inner(reader, fty, depth + 1, fast)?;
            },
        }
    }
    Ok(())
}

fn skip_elements<'de, R: TaggedReader<'de>>(
    reader: &mut R,
    element: BondDataType,
    count: usize,
    depth: usize,
    fast: bool,
) -> (r: Result<(), Error>)
    requires
        0 <= old(reader).pos() <= old(reader).data().len(),
        depth <= DEFAULT_MAX_DEPTH,
    ensures
        tskip(old(reader).kind(), old(reader).data(), final(reader).kind(), final(reader).data(),
            final(reader).pos(), r, sp_skip_elems(old(reader).kind(), old(reader).data(), old(reader).pos(), element, count as int, depth as int, fast)),
    decreases 257 - depth as int, 1int, 0int,
{
    let ghost k = reader.kind();
    let ghost d = reader.data();
    let ghost p0 = reader.pos();
    let mut i: usize = 0;
    while i < count
        invariant
            reader.kind() == k,
            reader.data() == d,
            old(reader).kind() == k,
            old(reader).data() == d,
            old(reader).pos() == p0,
            0 <= p0 <= reader.pos() <= d.len(),
            depth <= DEFAULT_MAX_DEPTH,
            i <= count,
            sp_skip_elems(k, d, p0, element, count as int, depth as int, fast)
                == sp_skip_elems(k, d, reader.pos(), element, count - i, depth as int, fast),
        decreases count - i,
    {
        let ghost p = reader.pos();
        proof { lemma_skip_progress(k, d, p, element, depth as int + 1, fast); }
        skip_value_inner(reader, element, depth + 1, fast)?;
        i = i + 1;
    }
    Ok(())
}

fn skip_entries<'de, R: TaggedReader<'de>>(
    reader: &mut R,
    key: BondDataType,
    value: BondDataType,
    count: usize,
    depth: usize,
    fast: bool,
) -> (r: Result<(), Error>)
    requires
        0 <= old(reader).pos() <= old(reader).data().len(),
        depth <= DEFAULT_MAX_DEPTH,
    ensures
        tskip(old(reader).kind(), old(reader).data(), final(reader).kind(), final(reader).data(),
            final(reader).pos(), r, sp_skip_entries(old(reader).kind(), old(reader).data(), old(reader).pos(), key, value, count as int, depth as int, fast)),
    decreases 257 - depth as int, 1int, 0int,
{
    let ghost k = reader.kind();
    let ghost d = reader.data();
    let ghost p0 = reader.pos();
    let mut i: usize = 0;
    while i < count
        invariant
            reader.kind() == k,
            reader.data() == d,
            old(reader).kind() == k,
            old(reader).data() == d,
            old(reader).pos() == p0,
            0 <= p0 <= reader.pos() <= d.len(),
            depth <= DEFAULT_MAX_DEPTH,
            i <= count,
            sp_skip_entries(k, d, p0, key, value, count as int, depth as int, fast)
                == sp_skip_entries(k, d, reader.pos(), key, value, count - i, depth as int, fast),
        decreases count - i,
    {
        let ghost p = reader.pos();
        proof { lemma_skip_progress(k, d, p, key, depth as int + 1, fast); }
        skip_value_inner(reader, key, depth + 1, fast)?;
        let ghost p1 = reader.pos();
        proof { lemma_skip_progress(k, d, p1, value, depth as int + 1, fast); }
        skip_value_inner(reader, value, depth + 1, fast)?;
        i = i + 1;
    }
    Ok(())
}

// ---------------------------------------------------------------------------
// The model of writing a tagged payload
// ---------------------------------------------------------------------------

/// The LEB128 encoding of a 32-bit length, as the writers emit it.
pub open spec fn leb_len(n: int) -> Seq<u8> {
    leb128_encode((n as u32) as nat)
}

/// A field header.
pub open spec fn enc_field_header(k: TaggedKind, ty: BondDataType, id: u16) -> Seq<u8> {
    let t = type_code(ty);
    if k == TaggedKind::Fast {
        seq![t] + spec_u16_to_le_bytes(id)
    } else if id <= 5 {
        seq![t | ((id as u8) << 5u8)]
    } else if id <= 0xff {
        seq![t | 0xc0u8, id as u8]
    } else {
        seq![t | 0xe0u8] + spec_u16_to_le_bytes(id)
    }
}

/// The header of a `list`/`set` of `size` elements of type `element`.
pub open spec fn enc_container_begin(k: TaggedKind, size: int, element: BondDataType) -> Seq<u8> {
    if k == TaggedKind::CompactV2 && size < 7 {
        seq![type_code(element) | (((size as u8) + 1) as u8) << 5u8]
    } else {
        seq![type_code(element)] + leb_len(size)
    }
}

/// The encoding of a value.
pub open spec fn enc_value(k: TaggedKind, v: ValueV) -> Seq<u8>
    decreases v,
{
    match v {
        ValueV::Bool(b) => seq![if b { 1u8 } else { 0u8 }],
        ValueV::UInt8(x) => seq![x],
        ValueV::UInt16(x) => if k == TaggedKind::Fast { spec_u16_to_le_bytes(x) } else { leb128_encode(x as nat) },
        ValueV::UInt32(x) => if k == TaggedKind::Fast { spec_u32_to_le_bytes(x) } else { leb128_encode(x as nat) },
        ValueV::UInt64(x) => if k == TaggedKind::Fast { spec_u64_to_le_bytes(x) } else { leb128_encode(x as nat) },
        ValueV::Int8(x) => seq![x as u8],
        ValueV::Int16(x) => if k == TaggedKind::Fast {
            spec_u16_to_le_bytes(x as u16)
        } else {
            leb128_encode(zigzag(x as int) as nat)
        },
        ValueV::Int32(x) => if k == TaggedKind::Fast {
            spec_u32_to_le_bytes(x as u32)
        } else {
            leb128_encode(zigzag(x as int) as nat)
        },
        ValueV::Int64(x) => if k == TaggedKind::Fast {
            spec_u64_to_le_bytes(x as u64)
        } else {
            leb128_encode(zigzag(x as int) as nat)
        },
        ValueV::Float(x) => spec_u32_to_le_bytes(x),
        ValueV::Double(x) => spec_u64_to_le_bytes(x),
        ValueV::Str(c) => leb_len(encode_utf8(c).len() as int) + encode_utf8(c),
        ValueV::WStr(c) => leb_len(utf16_encode(c).len() as int) + units_le_bytes(utf16_encode(c)),
        ValueV::Struct(s) => enc_struct(k, s),
        ValueV::List { element, items } => enc_container_begin(k, items.len() as int, element) + enc_items(k, items),
        ValueV::SetOf { element, items } => enc_container_begin(k, items.len() as int, element) + enc_items(k, items),
        ValueV::MapOf { key, value, entries } => seq![type_code(key), type_code(value)] + leb_len(entries.len() as int)
            + enc_entries(k, entries),
        ValueV::Nullable { element, value } => match value {
            Some(b) => enc_container_begin(k, 1, element) + enc_value(k, *b),
            None => enc_container_begin(k, 0, element),
        },
        ValueV::Blob(b) => enc_container_begin(k, b.len() as int, BondDataType::Int8) + b,
        ValueV::Bonded(b) => b,
    }
}

/// The encodings of a sequence of values, one after the other.
pub open spec fn enc_items(k: TaggedKind, s: Seq<ValueV>) -> Seq<u8>
    decreases s,
{
    if s.len() == 0 {
        Seq::empty()
    } else {
        enc_items(k, s.drop_last()) + enc_value(k, s.last())
    }
}

/// The encodings of map entries, key then value.
pub open spec fn enc_entries(k: TaggedKind, s: Seq<(ValueV, ValueV)>) -> Seq<u8>
    decreases s,
{
    if s.len() == 0 {
        Seq::empty()
    } else {
        enc_entries(k, s.drop_last()) + enc_value(k, s.last().0) + enc_value(k, s.last().1)
    }
}

/// The encodings of fields, each a header then the value.
pub open spec fn enc_fields(k: TaggedKind, s: Seq<FieldV>) -> Seq<u8>
    decreases s,
{
    if s.len() == 0 {
        Seq::empty()
    } else {
        enc_fields(k, s.drop_last()) + enc_field_header(k, type_of_v(s.last().value), s.last().id)
            + enc_value(k, s.last().value)
    }
}

/// The encoding of a struct: in Compact v2 its body prefixed with the body's
/// length, otherwise the body alone.
pub open spec fn enc_struct(k: TaggedKind, s: StructV) -> Seq<u8>
    decreases s,
{
    let body = enc_fields(k, s.fields) + seq![0u8];
    if k == TaggedKind::CompactV2 {
        leb_len(body.len() as int) + body
    } else {
        body
    }
}

/// What parsing a whole tagged payload `d` of kind `k` yields: the root struct, or
/// the error. Bytes after the root struct are not looked at.
pub open spec fn spec_parse(k: TaggedKind, d: Seq<u8>) -> Result<StructV, ErrorV> {
    match sp_read_struct(k, d, 0, 0) {
        Ok((s, _)) => Ok(s),
        Err(e) => Err(e),
    }
}

/// What validating a whole tagged payload `d` of kind `k` yields.
pub open spec fn spec_validate(k: TaggedKind, d: Seq<u8>) -> Result<(), ErrorV> {
    match sp_skip(k, d, 0, BondDataType::Struct, 0, false) {
        Ok(_) => Ok(()),
        Err(e) => Err(e),
    }
}

/// `r` carries what the model `s` says: a value with the same model, or the error.
pub open spec fn outcome<T: View>(r: Result<T, Error>, s: Result<T::V, ErrorV>) -> bool {
    match s {
        Ok(v) => r matches Ok(x) && x@ == v,
        Err(e) => r matches Err(x) && x@ == e,
    }
}

/// `r` succeeds or fails as the model `s` says.
pub open spec fn outcome_unit(r: Result<(), Error>, s: Result<(), ErrorV>) -> bool {
    match s {
        Ok(_) => r is Ok,
        Err(e) => r matches Err(x) && x@ == e,
    }
}

} // verus!
