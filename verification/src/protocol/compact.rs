//! Compact Binary protocol, versions 1 and 2.
//!
//! * A field header packs the 5-bit type with the id using a 3-bit marker in
//!   the top bits: ids 0..=5 inline, ids 6..=255 add one byte, larger ids add a
//!   little-endian `u16`.
//! * In v2 every struct is prefixed with a varint length covering its body and
//!   terminating `BT_STOP`.
//! * `uint16/32/64` are LEB128 varints; `int16/32/64` are zig-zag varints;
//!   `bool`/`int8`/`uint8` are one byte; `float`/`double` are fixed LE.
//! * In v2 a `list`/`set` with fewer than 7 elements packs the count into the
//!   type byte (`(count + 1) << 5`).

use vstd::prelude::*;
use crate::constants::{BondDataType, ProtocolType, V1, V2};
use crate::error::{Error, ErrorV};
use crate::reader::Reader;
use crate::text::str_utf16_units;
use crate::value::{lemma_list_view, lemma_map_view, lemma_struct_value_view, values_view, entries_view, Struct, Value, ValueV};
use crate::writer::Writer;
use super::{
    enc_container_begin, enc_entries, enc_field_header, enc_fields, enc_items, enc_struct, enc_value,
    outcome, outcome_unit, read_struct, spec_parse, spec_validate, TaggedKind, TaggedReader,
};

verus! {

/// A Compact Binary reader over a byte slice.
pub struct CompactReader<'a> {
    reader: Reader<'a>,
    version: u16,
}

/// The tagged kind of a Compact Binary version.
pub open spec fn compact_kind(version: u16) -> TaggedKind {
    if version == V2 { TaggedKind::CompactV2 } else { TaggedKind::CompactV1 }
}

/// The error for an unsupported Compact Binary version.
pub open spec fn compact_version_error(version: u16) -> ErrorV {
    ErrorV::UnsupportedVersion { protocol: ProtocolType::Compact, version }
}

impl<'a> CompactReader<'a> {
    /// Creates a reader for the given protocol `version` (1 or 2), rejecting any
    /// other version with [`Error::UnsupportedVersion`].
    pub fn new(buf: &'a [u8], version: u16) -> (r: Result<Self, Error>)
        ensures
            version == V1 || version == V2 ==> (r matches Ok(c) && c.kind() == compact_kind(version)
                && c.data() == buf@ && c.pos() == 0 && c.spec_version() == version),
            !(version == V1 || version == V2) ==> (r matches Err(e) && e@ == compact_version_error(version)),
    {
        if version != V1 && version != V2 {
            return Err(Error::UnsupportedVersion { protocol: ProtocolType::Compact, version });
        }
        Ok(CompactReader { reader: Reader::new(buf), version })
    }

    /// The protocol version this reader was created with.
    pub closed spec fn spec_version(&self) -> u16 {
        self.version
    }

    /// The protocol version (1 or 2).
    pub fn version(&self) -> (r: u16)
        ensures
            r == self.spec_version(),
    {
        self.version
    }

    /// Borrows the underlying cursor (e.g. to check for trailing bytes).
    pub fn cursor(&self) -> (r: &Reader<'a>)
        ensures
            r.data() == self.data(),
            r.pos() == self.pos(),
    {
        &self.reader
    }
}

impl<'a> TaggedReader<'a> for CompactReader<'a> {
    closed spec fn kind(&self) -> TaggedKind {
        compact_kind(self.version)
    }

    closed spec fn data(&self) -> Seq<u8> {
        self.reader.data()
    }

    closed spec fn pos(&self) -> int {
        self.reader.pos()
    }

    fn protocol(&self) -> (r: ProtocolType) {
        ProtocolType::Compact
    }

    fn read_struct_begin(&mut self) -> (r: Result<(), Error>) {
        if self.version == V2 {
            // Length prefix: not needed for forward reading but must be consumed.
            self.reader.read_varint_u32()?;
        }
        let _ = self.reader.position();
        Ok(())
    }

    fn read_field_begin(&mut self) -> (r: Result<(BondDataType, u16), Error>) {
        let raw = self.reader.read_u8()?;
        proof {
            assert(raw & 0x1f == raw % 32) by (bit_vector);
            assert(raw & 0xe0 == 0xe0 <==> raw / 32 == 7) by (bit_vector);
            assert(raw & 0xe0 == 0xc0 <==> raw / 32 == 6) by (bit_vector);
            assert((raw & 0xe0) >> 5 == raw / 32) by (bit_vector);
        }
        let ty = BondDataType::from_u8(raw & 0x1f)?;
        let id_marker = raw & 0xe0;
        let id = if id_marker == 0xe0 {
            self.reader.read_le_u16()?
        } else if id_marker == 0xc0 {
            self.reader.read_u8()? as u16
        } else {
            (id_marker >> 5) as u16
        };
        Ok((ty, id))
    }

    fn read_container_begin(&mut self) -> (r: Result<(usize, BondDataType), Error>) {
        let raw = self.reader.read_u8()?;
        proof {
            assert(raw & 0x1f == raw % 32) by (bit_vector);
            assert(raw & 0xe0 == 0 <==> raw / 32 == 0) by (bit_vector);
            assert(raw >> 5 == raw / 32) by (bit_vector);
        }
        let ty = BondDataType::from_u8(raw & 0x1f)?;
        let count = if self.version == V2 && (raw & 0xe0) != 0 {
            ((raw >> 5) - 1) as usize
        } else {
            self.reader.read_varint_u32()? as usize
        };
        Ok((count, ty))
    }

    fn read_map_begin(&mut self) -> (r: Result<(usize, BondDataType, BondDataType), Error>) {
        let key = BondDataType::from_u8(self.reader.read_u8()?)?;
        let value = BondDataType::from_u8(self.reader.read_u8()?)?;
        let count = self.reader.read_varint_u32()? as usize;
        Ok((count, key, value))
    }

    fn try_fast_skip_struct(&mut self) -> (r: Result<bool, Error>) {
        if self.version == V2 {
            let len = self.reader.read_varint_u32()? as usize;
            self.reader.skip_bytes(len)?;
            Ok(true)
        } else {
            let _ = self.reader.position();
            Ok(false)
        }
    }

    fn read_bool(&mut self) -> (r: Result<bool, Error>) {
        self.reader.read_bool()
    }

    fn read_uint8(&mut self) -> (r: Result<u8, Error>) {
        self.reader.read_u8()
    }

    fn read_uint16(&mut self) -> (r: Result<u16, Error>) {
        self.reader.read_varint_u16()
    }

    fn read_uint32(&mut self) -> (r: Result<u32, Error>) {
        self.reader.read_varint_u32()
    }

    fn read_uint64(&mut self) -> (r: Result<u64, Error>) {
        self.reader.read_varint_u64()
    }

    fn read_int8(&mut self) -> (r: Result<i8, Error>) {
        self.reader.read_i8()
    }

    fn read_int16(&mut self) -> (r: Result<i16, Error>) {
        self.reader.read_zigzag_i16()
    }

    fn read_int32(&mut self) -> (r: Result<i32, Error>) {
        self.reader.read_zigzag_i32()
    }

    fn read_int64(&mut self) -> (r: Result<i64, Error>) {
        self.reader.read_zigzag_i64()
    }

    fn read_float(&mut self) -> (r: Result<u32, Error>) {
        self.reader.read_le_u32()
    }

    fn read_double(&mut self) -> (r: Result<u64, Error>) {
        self.reader.read_le_u64()
    }

    fn read_str(&mut self) -> (r: Result<&'a str, Error>) {
        let len = self.reader.read_varint_u32()? as usize;
        self.reader.read_utf8(len)
    }

    fn read_wstring(&mut self) -> (r: Result<String, Error>) {
        let units = self.reader.read_varint_u32()? as usize;
        self.reader.read_utf16(units)
    }
}

/// Parses a Compact Binary struct of the given version into a [`Struct`].
pub fn parse(buf: &[u8], version: u16) -> (r: Result<Struct, Error>)
    ensures
        version == V1 || version == V2 ==> outcome(r, spec_parse(compact_kind(version), buf@)),
        !(version == V1 || version == V2) ==> (r matches Err(e) && e@ == compact_version_error(version)),
{
    let mut reader = CompactReader::new(buf, version)?;
    super::read_struct(&mut reader)
}

/// Validates a Compact Binary payload without building a DOM. Returns `Ok(())`
/// only if the whole struct is well-formed.
pub fn validate(buf: &[u8], version: u16) -> (r: Result<(), Error>)
    ensures
        version == V1 || version == V2 ==> outcome_unit(r, spec_validate(compact_kind(version), buf@)),
        !(version == V1 || version == V2) ==> (r matches Err(e) && e@ == compact_version_error(version)),
{
    let mut reader = CompactReader::new(buf, version)?;
    super::validate(&mut reader)
}

// ---------------------------------------------------------------------------
// Writer
// ---------------------------------------------------------------------------

/// A Compact Binary serializer.
pub struct CompactWriter {
    version: u16,
}

impl CompactWriter {
    /// The tagged kind this writer produces.
    pub closed spec fn kind(&self) -> TaggedKind {
        compact_kind(self.version)
    }

    /// Creates a writer for the given version (1 or 2), rejecting any other
    /// version with [`Error::UnsupportedVersion`].
    pub fn new(version: u16) -> (r: Result<Self, Error>)
        ensures
            version == V1 || version == V2 ==> (r matches Ok(w) && w.kind() == compact_kind(version)),
            !(version == V1 || version == V2) ==> (r matches Err(e) && e@ == compact_version_error(version)),
    {
        if version != V1 && version != V2 {
            return Err(Error::UnsupportedVersion { protocol: ProtocolType::Compact, version });
        }
        Ok(CompactWriter { version })
    }

    /// Serializes a struct, appending to `out`.
    pub fn write_struct(&self, out: &mut Writer, value: &Struct)
        ensures
            final(out)@ == old(out)@ + enc_struct(self.kind(), value@),
        decreases value, 1int,
    {
        if self.version == V2 {
            // Serialize the body to a temporary buffer to learn its length.
            let mut body = Writer::new();
            self.write_struct_body(&mut body, value);
            out.write_varint_u32(body.len() as u32);
            out.write_bytes(body.as_bytes());
            proof {
                assert(body@ == Seq::<u8>::empty() + enc_fields(self.kind(), value@.fields) + seq![0u8]);
            }
        } else {
            self.write_struct_body(out, value);
            assert(final(out)@ =~= old(out)@ + (enc_fields(self.kind(), value@.fields) + seq![0u8]));
        }
    }

    fn write_struct_body(&self, out: &mut Writer, value: &Struct)
        ensures
            final(out)@ == old(out)@ + enc_fields(self.kind(), value@.fields) + seq![0u8],
        decreases value, 0int,
    {
        let ghost k = self.kind();
        let ghost fs = value@.fields;
        let mut i: usize = 0;
        while i < value.fields.len()
            invariant
                k == self.kind(),
                fs == value@.fields,
                i <= value.fields@.len(),
                out@ == old(out)@ + enc_fields(k, fs.subrange(0, i as int)),
            decreases value.fields@.len() - i,
        {
            let field = &value.fields[i];
            proof {
                assert(fs.subrange(0, i + 1).drop_last() =~= fs.subrange(0, i as int));
                assert(fs[i as int] == field@);
            }
            self.write_field_begin(out, field.value.type_of(), field.id);
            self.write_value(out, &field.value);
            i = i + 1;
        }
        proof { assert(fs.subrange(0, i as int) =~= fs); }
        out.write_u8(BondDataType::Stop.as_u8());
    }

    fn write_field_begin(&self, out: &mut Writer, ty: BondDataType, id: u16)
        ensures
            final(out)@ == old(out)@ + enc_field_header(self.kind(), ty, id),
    {
        let t = ty.as_u8();
        if id <= 5 {
            out.write_u8(t | ((id as u8) << 5u8));
        } else if id <= 0xff {
            out.write_u8(t | 0xc0u8);
            out.write_u8(id as u8);
        } else {
            out.write_u8(t | 0xe0u8);
            out.write_le_u16(id);
        }
        assert(final(out)@ =~= old(out)@ + enc_field_header(self.kind(), ty, id));
    }

    fn write_container_begin(&self, out: &mut Writer, size: usize, element: BondDataType)
        ensures
            final(out)@ == old(out)@ + enc_container_begin(self.kind(), size as int, element),
    {
        if self.version == V2 && size < 7 {
            out.write_u8(element.as_u8() | (((size as u8) + 1) << 5u8));
        } else {
            out.write_u8(element.as_u8());
            out.write_varint_u32(size as u32);
        }
        assert(final(out)@ =~= old(out)@ + enc_container_begin(self.kind(), size as int, element));
    }

    fn write_items(&self, out: &mut Writer, items: &Vec<Value>)
        ensures
            final(out)@ == old(out)@ + enc_items(self.kind(), values_view(items@)),
        decreases items, 0int,
    {
        let ghost k = self.kind();
        let ghost vs = values_view(items@);
        let mut i: usize = 0;
        while i < items.len()
            invariant
                k == self.kind(),
                vs == values_view(items@),
                i <= items@.len(),
                out@ == old(out)@ + enc_items(k, vs.subrange(0, i as int)),
            decreases items@.len() - i,
        {
            proof { assert(vs.subrange(0, i + 1).drop_last() =~= vs.subrange(0, i as int)); }
            self.write_value(out, &items[i]);
            i = i + 1;
        }
        proof { assert(vs.subrange(0, i as int) =~= vs); }
    }

    fn write_entries(&self, out: &mut Writer, entries: &Vec<(Value, Value)>)
        ensures
            final(out)@ == old(out)@ + enc_entries(self.kind(), entries_view(entries@)),
        decreases entries, 0int,
    {
        let ghost k = self.kind();
        let ghost es = entries_view(entries@);
        let mut i: usize = 0;
        while i < entries.len()
            invariant
                k == self.kind(),
                es == entries_view(entries@),
                i <= entries@.len(),
                out@ == old(out)@ + enc_entries(k, es.subrange(0, i as int)),
            decreases entries@.len() - i,
        {
            proof { assert(es.subrange(0, i + 1).drop_last() =~= es.subrange(0, i as int)); }
            self.write_value(out, &entries[i].0);
            self.write_value(out, &entries[i].1);
            i = i + 1;
        }
        proof { assert(es.subrange(0, i as int) =~= es); }
    }

    #[verifier::rlimit(40)]
    fn write_value(&self, out: &mut Writer, value: &Value)
        ensures
            final(out)@ == old(out)@ + enc_value(self.kind(), value@),
        decreases value, 2int,
    {
        match value {
            Value::Bool(v) => out.write_bool(*v),
            Value::UInt8(v) => out.write_u8(*v),
            Value::UInt16(v) => out.write_varint_u16(*v),
            Value::UInt32(v) => out.write_varint_u32(*v),
            Value::UInt64(v) => out.write_varint_u64(*v),
            Value::Int8(v) => out.write_i8(*v),
            Value::Int16(v) => out.write_zigzag_i16(*v),
            Value::Int32(v) => out.write_zigzag_i32(*v),
            Value::Int64(v) => out.write_zigzag_i64(*v),
            Value::Float(v) => out.write_le_u32(*v),
            Value::Double(v) => out.write_le_u64(*v),
            Value::Str(s) => {
                let b = s.as_str().as_bytes();
                let ghost before = out@;
                out.write_varint_u32(b.len() as u32);
                out.write_bytes(b);
                assert(out@ =~= before + enc_value(self.kind(), value@));
            },
            Value::WStr(s) => {
                // The length is in UTF-16 code units.
                let units = str_utf16_units(s.as_str()).len();
                let ghost before = out@;
                out.write_varint_u32(units as u32);
                out.write_utf16(s.as_str());
                assert(out@ =~= before + enc_value(self.kind(), value@));
            },
            Value::Struct(s) => {
                proof { lemma_struct_value_view(*s); }
                self.write_struct(out, s);
            },
            Value::List { element, items } => {
                proof { lemma_list_view(*element, *items); }
                self.write_container_begin(out, items.len(), *element);
                self.write_items(out, items);
            },
            Value::SetOf { element, items } => {
                proof { lemma_list_view(*element, *items); }
                self.write_container_begin(out, items.len(), *element);
                self.write_items(out, items);
            },
            Value::MapOf { key, value, entries } => {
                proof { lemma_map_view(*key, *value, *entries); }
                out.write_u8(key.as_u8());
                out.write_u8(value.as_u8());
                out.write_varint_u32(entries.len() as u32);
                self.write_entries(out, entries);
            },
            Value::Nullable { element, value } => {
                let n: usize = if value.is_some() { 1 } else { 0 };
                self.write_container_begin(out, n, *element);
                match value {
                    Some(inner) => self.write_value(out, inner),
                    None => {},
                }
            },
            Value::Blob(bytes) => {
                self.write_container_begin(out, bytes.len(), BondDataType::Int8);
                out.write_bytes(bytes.as_slice());
            },
            Value::Bonded(payload) => {
                // bonded<T> inline is just the struct payload bytes.
                out.write_bytes(payload.as_slice());
            },
        }
        assert(final(out)@ =~= old(out)@ + enc_value(self.kind(), value@));
    }
}

/// Serializes a struct to a fresh byte vector using Compact Binary `version`;
/// [`Error::UnsupportedVersion`] for a version other than 1 or 2.
pub fn write(value: &Struct, version: u16) -> (r: Result<Vec<u8>, Error>)
    ensures
        version == V1 || version == V2 ==> (r matches Ok(b) && b@ == enc_struct(compact_kind(version), value@)),
        !(version == V1 || version == V2) ==> (r matches Err(e) && e@ == compact_version_error(version)),
{
    let writer = CompactWriter::new(version)?;
    let mut out = Writer::new();
    writer.write_struct(&mut out, value);
    assert(out@ =~= enc_struct(compact_kind(version), value@));
    Ok(out.into_bytes())
}

} // verus!
