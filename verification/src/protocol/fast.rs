//! Fast Binary protocol, version 1.
//!
//! * A field header is a 1-byte type followed (for real fields) by a 2-byte
//!   little-endian id; `BT_STOP` / `BT_STOP_BASE` are a lone type byte.
//! * All integers are fixed-width little-endian: no varint, no zig-zag.
//! * `string`/`wstring` lengths and container counts are LEB128 varints.
//! * Structs have no length prefix.

use vstd::prelude::*;
use crate::constants::{BondDataType, ProtocolType};
use crate::error::Error;
use crate::reader::Reader;
use crate::text::str_utf16_units;
use crate::value::{lemma_list_view, lemma_map_view, lemma_struct_value_view, values_view, entries_view, type_of_v, Struct, Value};
use crate::writer::Writer;
use super::{
    enc_container_begin, enc_entries, enc_field_header, enc_fields, enc_items, enc_struct, enc_value,
    outcome, outcome_unit, spec_parse, spec_validate, TaggedKind, TaggedReader,
};

verus! {

/// A Fast Binary reader over a byte slice.
pub struct FastReader<'a> {
    reader: Reader<'a>,
}

impl<'a> FastReader<'a> {
    /// Creates a Fast Binary reader.
    pub fn new(buf: &'a [u8]) -> (r: Self)
        ensures
            r.kind() == TaggedKind::Fast,
            r.data() == buf@,
            r.pos() == 0,
    {
        FastReader { reader: Reader::new(buf) }
    }

    /// Borrows the underlying cursor.
    pub fn cursor(&self) -> (r: &Reader<'a>)
        ensures
            r.data() == self.data(),
            r.pos() == self.pos(),
    {
        &self.reader
    }
}

impl<'a> TaggedReader<'a> for FastReader<'a> {
    closed spec fn kind(&self) -> TaggedKind {
        TaggedKind::Fast
    }

    closed spec fn data(&self) -> Seq<u8> {
        self.reader.data()
    }

    closed spec fn pos(&self) -> int {
        self.reader.pos()
    }

    fn protocol(&self) -> (r: ProtocolType) {
        ProtocolType::Fast
    }

    fn read_struct_begin(&mut self) -> (r: Result<(), Error>) {
        let _ = self.reader.position();
        Ok(())
    }

    fn read_field_begin(&mut self) -> (r: Result<(BondDataType, u16), Error>) {
        let raw = self.reader.read_u8()?;
        let ty = BondDataType::from_u8(raw)?;
        match ty {
            BondDataType::Stop | BondDataType::StopBase => Ok((ty, 0)),
            _ => {
                let id = self.reader.read_le_u16()?;
                Ok((ty, id))
            },
        }
    }

    fn read_container_begin(&mut self) -> (r: Result<(usize, BondDataType), Error>) {
        let ty = BondDataType::from_u8(self.reader.read_u8()?)?;
        let count = self.reader.read_varint_u32()? as usize;
        Ok((count, ty))
    }

    fn read_map_begin(&mut self) -> (r: Result<(usize, BondDataType, BondDataType), Error>) {
        let key = BondDataType::from_u8(self.reader.read_u8()?)?;
        let value = BondDataType::from_u8(self.reader.read_u8()?)?;
        let count = self.reader.read_varint_u32()? as usize;
        Ok((count, key, value))
    }

    fn try_fast_skip_struct(&mut self) -> (r: Result<bool, Error>) {
        let _ = self.reader.position();
        Ok(false)
    }

    fn read_bool(&mut self) -> (r: Result<bool, Error>) {
        self.reader.read_bool()
    }

    fn read_uint8(&mut self) -> (r: Result<u8, Error>) {
        self.reader.read_u8()
    }

    fn read_uint16(&mut self) -> (r: Result<u16, Error>) {
        self.reader.read_le_u16()
    }

    fn read_uint32(&mut self) -> (r: Result<u32, Error>) {
        self.reader.read_le_u32()
    }

    fn read_uint64(&mut self) -> (r: Result<u64, Error>) {
        self.reader.read_le_u64()
    }

    fn read_int8(&mut self) -> (r: Result<i8, Error>) {
        self.reader.read_i8()
    }

    fn read_int16(&mut self) -> (r: Result<i16, Error>) {
        self.reader.read_le_i16()
    }

    fn read_int32(&mut self) -> (r: Result<i32, Error>) {
        self.reader.read_le_i32()
    }

    fn read_int64(&mut self) -> (r: Result<i64, Error>) {
        self.reader.read_le_i64()
    }

    fn read_float(&mut self) -> (r: Result<u32, Error>) {
        self.reader.read_le_u32()
    }

    fn read_double(&mut self) -> (r: Result<u64, Error>) {
        self.reader.read_le_u64()
    }

    fn read_str(&mut self) -> (r: Result<&'a str, Error>) {
        let len = self.reader.read_varint_u32()? as usize;
        self.reader.read_utf8(len)
    }

    fn read_wstring(&mut self) -> (r: Result<String, Error>) {
        let units = self.reader.read_varint_u32()? as usize;
        self.reader.read_utf16(units)
    }
}

/// Parses a Fast Binary struct into a [`Struct`].
pub fn parse(buf: &[u8]) -> (r: Result<Struct, Error>)
    ensures
        outcome(r, spec_parse(TaggedKind::Fast, buf@)),
{
    let mut reader = FastReader::new(buf);
    super::read_struct(&mut reader)
}

/// Validates a Fast Binary payload without building a DOM. Returns `Ok(())`
/// only if the whole struct is well-formed.
pub fn validate(buf: &[u8]) -> (r: Result<(), Error>)
    ensures
        outcome_unit(r, spec_validate(TaggedKind::Fast, buf@)),
{
    let mut reader = FastReader::new(buf);
    super::validate(&mut reader)
}

// ---------------------------------------------------------------------------
// Writer
// ---------------------------------------------------------------------------

/// A Fast Binary serializer.
#[derive(Default)]
pub struct FastWriter;

impl FastWriter {
    /// Creates a Fast Binary writer.
    pub fn new() -> (r: Self)
    {
        FastWriter
    }

    /// Serializes a struct, appending to `out`.
    pub fn write_struct(&self, out: &mut Writer, value: &Struct)
        ensures
            final(out)@ == old(out)@ + enc_struct(TaggedKind::Fast, value@),
        decreases value, 0int,
    {
        let ghost k = TaggedKind::Fast;
        let ghost fs = value@.fields;
        let mut i: usize = 0;
        while i < value.fields.len()
            invariant
                k == TaggedKind::Fast,
                fs == value@.fields,
                i <= value.fields@.len(),
                out@ == old(out)@ + enc_fields(k, fs.subrange(0, i as int)),
            decreases value.fields@.len() - i,
        {
            let field = &value.fields[i];
            proof {
                assert(fs.subrange(0, i + 1).drop_last() =~= fs.subrange(0, i as int));
                assert(fs[i as int] == field@);
            }
            let ghost before = out@;
            out.write_u8(field.value.type_of().as_u8());
            out.write_le_u16(field.id);
            assert(out@ =~= before + enc_field_header(k, type_of_v(field@.value), field.id));
            self.write_value(out, &field.value);
            i = i + 1;
        }
        proof { assert(fs.subrange(0, i as int) =~= fs); }
        out.write_u8(BondDataType::Stop.as_u8());
        assert(final(out)@ =~= old(out)@ + enc_struct(TaggedKind::Fast, value@));
    }

    fn write_container_begin(&self, out: &mut Writer, size: usize, element: BondDataType)
        ensures
            final(out)@ == old(out)@ + enc_container_begin(TaggedKind::Fast, size as int, element),
    {
        out.write_u8(element.as_u8());
        out.write_varint_u32(size as u32);
        assert(final(out)@ =~= old(out)@ + enc_container_begin(TaggedKind::Fast, size as int, element));
    }

    fn write_items(&self, out: &mut Writer, items: &Vec<Value>)
        ensures
            final(out)@ == old(out)@ + enc_items(TaggedKind::Fast, values_view(items@)),
        decreases items, 0int,
    {
        let ghost k = TaggedKind::Fast;
        let ghost vs = values_view(items@);
        let mut i: usize = 0;
        while i < items.len()
            invariant
                k == TaggedKind::Fast,
                vs == values_view(items@),
                i <= items@.len(),
                out@ == old(out)@ + enc_items(k, vs.subrange(0, i as int)),
            decreases items@.len() - i,
        {
            proof { assert(vs.subrange(0, i + 1).drop_last() =~= vs.subrange(0, i as int)); }
            self.write_value(out, &items[i]);
            i = i + 1;
        }
        proof { assert(vs.subrange(0, i as int) =~= vs); }
    }

    fn write_entries(&self, out: &mut Writer, entries: &Vec<(Value, Value)>)
        ensures
            final(out)@ == old(out)@ + enc_entries(TaggedKind::Fast, entries_view(entries@)),
        decreases entries, 0int,
    {
        let ghost k = TaggedKind::Fast;
        let ghost es = entries_view(entries@);
        let mut i: usize = 0;
        while i < entries.len()
            invariant
                k == TaggedKind::Fast,
                es == entries_view(entries@),
                i <= entries@.len(),
                out@ == old(out)@ + enc_entries(k, es.subrange(0, i as int)),
            decreases entries@.len() - i,
        {
            proof { assert(es.subrange(0, i + 1).drop_last() =~= es.subrange(0, i as int)); }
            self.write_value(out, &entries[i].0);
            self.write_value(out, &entries[i].1);
            i = i + 1;
        }
        proof { assert(es.subrange(0, i as int) =~= es); }
    }

    #[verifier::rlimit(40)]
    fn write_value(&self, out: &mut Writer, value: &Value)
        ensures
            final(out)@ == old(out)@ + enc_value(TaggedKind::Fast, value@),
        decreases value, 2int,
    {
        match value {
            Value::Bool(v) => out.write_bool(*v),
            Value::UInt8(v) => out.write_u8(*v),
            Value::UInt16(v) => out.write_le_u16(*v),
            Value::UInt32(v) => out.write_le_u32(*v),
            Value::UInt64(v) => out.write_le_u64(*v),
            Value::Int8(v) => out.write_i8(*v),
            Value::Int16(v) => out.write_le_i16(*v),
            Value::Int32(v) => out.write_le_i32(*v),
            Value::Int64(v) => out.write_le_i64(*v),
            Value::Float(v) => out.write_le_u32(*v),
            Value::Double(v) => out.write_le_u64(*v),
            Value::Str(s) => {
                let b = s.as_str().as_bytes();
                let ghost before = out@;
                out.write_varint_u32(b.len() as u32);
                out.write_bytes(b);
                assert(out@ =~= before + enc_value(TaggedKind::Fast, value@));
            },
            Value::WStr(s) => {
                let units = str_utf16_units(s.as_str()).len();
                let ghost before = out@;
                out.write_varint_u32(units as u32);
                out.write_utf16(s.as_str());
                assert(out@ =~= before + enc_value(TaggedKind::Fast, value@));
            },
            Value::Struct(s) => {
                proof { lemma_struct_value_view(*s); }
                self.write_struct(out, s);
            },
            Value::List { element, items } => {
                proof { lemma_list_view(*element, *items); }
                self.write_container_begin(out, items.len(), *element);
                self.write_items(out, items);
            },
            Value::SetOf { element, items } => {
                proof { lemma_list_view(*element, *items); }
                self.write_container_begin(out, items.len(), *element);
                self.write_items(out, items);
            },
            Value::MapOf { key, value, entries } => {
                proof { lemma_map_view(*key, *value, *entries); }
                out.write_u8(key.as_u8());
                out.write_u8(value.as_u8());
                out.write_varint_u32(entries.len() as u32);
                self.write_entries(out, entries);
            },
            Value::Nullable { element, value } => {
                let n: usize = if value.is_some() { 1 } else { 0 };
                self.write_container_begin(out, n, *element);
                match value {
                    Some(inner) => self.write_value(out, inner),
                    None => {},
                }
            },
            Value::Blob(bytes) => {
                self.write_container_begin(out, bytes.len(), BondDataType::Int8);
                out.write_bytes(bytes.as_slice());
            },
            Value::Bonded(payload) => {
                out.write_bytes(payload.as_slice());
            },
        }
        assert(final(out)@ =~= old(out)@ + enc_value(TaggedKind::Fast, value@));
    }
}

/// Serializes a struct to a fresh byte vector using Fast Binary.
pub fn write(value: &Struct) -> (r: Result<Vec<u8>, Error>)
    ensures
        r matches Ok(b) && b@ == enc_struct(TaggedKind::Fast, value@),
{
    let writer = FastWriter::new();
    let mut out = Writer::new();
    writer.write_struct(&mut out, value);
    assert(out@ =~= enc_struct(TaggedKind::Fast, value@));
    Ok(out.into_bytes())
}

} // verus!
