//! Append-only output buffer with primitive writes, the mirror of the reader.

use vstd::prelude::*;
use vstd::bytes::*;
use crate::text::{str_utf16_units, utf16_encode};
use crate::varint::{
    encode_u16, encode_u32, encode_u64, leb128_encode, zigzag, zigzag_encode_i16,
    zigzag_encode_i32, zigzag_encode_i64,
};

verus! {

/// The little-endian bytes of a sequence of `u16` code units.
pub open spec fn units_le_bytes(u: Seq<u16>) -> Seq<u8>
    decreases u.len(),
{
    if u.len() == 0 {
        Seq::empty()
    } else {
        units_le_bytes(u.drop_last()) + spec_u16_to_le_bytes(u.last())
    }
}

/// A growable byte buffer for serializing Bond payloads.
#[derive(Clone, Debug, Default)]
pub struct Writer {
    buf: Vec<u8>,
}

impl View for Writer {
    type V = Seq<u8>;

    closed spec fn view(&self) -> Seq<u8> {
        self.buf@
    }
}

impl Writer {
    /// Creates an empty writer.
    pub fn new() -> (r: Self)
        ensures
            r@ == Seq::<u8>::empty(),
    {
        Writer { buf: Vec::new() }
    }

    /// Creates an empty writer with pre-allocated capacity.
    pub fn with_capacity(cap: usize) -> (r: Self)
        ensures
            r@ == Seq::<u8>::empty(),
    {
        Writer { buf: Vec::with_capacity(cap) }
    }

    /// Consumes the writer, returning the serialized bytes.
    pub fn into_bytes(self) -> (r: Vec<u8>)
        ensures
            r@ == self@,
    {
        self.buf
    }

    /// Borrows the bytes written so far.
    pub fn as_bytes(&self) -> (r: &[u8])
        ensures
            r@ == self@,
    {
        self.buf.as_slice()
    }

    /// Current length in bytes.
    pub fn len(&self) -> (r: usize)
        ensures
            r == self@.len(),
    {
        self.buf.len()
    }

    /// True if nothing has been written.
    pub fn is_empty(&self) -> (r: bool)
        ensures
            r == (self@.len() == 0),
    {
        self.buf.len() == 0
    }

    /// Writes a single byte.
    pub fn write_u8(&mut self, v: u8)
        ensures
            final(self)@ == old(self)@.push(v),
    {
        self.buf.push(v);
    }

    /// Writes a signed byte.
    pub fn write_i8(&mut self, v: i8)
        ensures
            final(self)@ == old(self)@.push(v as u8),
    {
        self.buf.push(v as u8);
    }

    /// Writes a `bool` as `0x01`/`0x00`.
    pub fn write_bool(&mut self, v: bool)
        ensures
            final(self)@ == old(self)@.push(if v { 1u8 } else { 0u8 }),
    {
        self.buf.push(if v { 1 } else { 0 });
    }

    /// Appends a raw byte slice.
    pub fn write_bytes(&mut self, bytes: &[u8])
        ensures
            final(self)@ == old(self)@ + bytes@,
    {
        let mut i: usize = 0;
        while i < bytes.len()
            invariant
                i <= bytes@.len(),
                self.buf@ == old(self)@ + bytes@.subrange(0, i as int),
            decreases bytes@.len() - i,
        {
            self.buf.push(bytes[i]);
            i = i + 1;
            assert(self.buf@ =~= old(self)@ + bytes@.subrange(0, i as int));
        }
        assert(bytes@.subrange(0, bytes@.len() as int) =~= bytes@);
    }

    /// Writes a LEB128 `u64`.
    pub fn write_varint_u64(&mut self, v: u64)
        ensures
            final(self)@ == old(self)@ + leb128_encode(v as nat),
    {
        encode_u64(v, &mut self.buf);
    }

    /// Writes a LEB128 `u32`.
    pub fn write_varint_u32(&mut self, v: u32)
        ensures
            final(self)@ == old(self)@ + leb128_encode(v as nat),
    {
        encode_u32(v, &mut self.buf);
    }

    /// Writes a LEB128 `u16`.
    pub fn write_varint_u16(&mut self, v: u16)
        ensures
            final(self)@ == old(self)@ + leb128_encode(v as nat),
    {
        encode_u16(v, &mut self.buf);
    }

    /// Writes a zig-zag LEB128 `i64`.
    pub fn write_zigzag_i64(&mut self, v: i64)
        ensures
            final(self)@ == old(self)@ + leb128_encode(zigzag(v as int) as nat),
    {
        self.write_varint_u64(zigzag_encode_i64(v));
    }

    /// Writes a zig-zag LEB128 `i32`.
    pub fn write_zigzag_i32(&mut self, v: i32)
        ensures
            final(self)@ == old(self)@ + leb128_encode(zigzag(v as int) as nat),
    {
        self.write_varint_u32(zigzag_encode_i32(v));
    }

    /// Writes a zig-zag LEB128 `i16`.
    pub fn write_zigzag_i16(&mut self, v: i16)
        ensures
            final(self)@ == old(self)@ + leb128_encode(zigzag(v as int) as nat),
    {
        self.write_varint_u16(zigzag_encode_i16(v));
    }

    /// Reserves space for at least `additional` more bytes.
    pub fn reserve(&mut self, additional: usize)
        ensures
            final(self)@ == old(self)@,
    {
        self.buf.reserve(additional);
    }

    /// Overwrites bytes starting at `offset` (used for back-patching lengths).
    pub fn patch(&mut self, offset: usize, bytes: &[u8])
        requires
            offset + bytes@.len() <= old(self)@.len(),
        ensures
            final(self)@ == old(self)@.subrange(0, offset as int) + bytes@ + old(self)@.subrange(
                offset + bytes@.len(),
                old(self)@.len() as int,
            ),
    {
        let n = self.buf.len();
        let mut i: usize = 0;
        while i < bytes.len()
            invariant
                n == old(self)@.len(),
                offset + bytes@.len() <= old(self)@.len(),
                i <= bytes@.len(),
                self.buf@.len() == old(self)@.len(),
                forall|j: int| 0 <= j < self.buf@.len() ==> self.buf@[j] == if offset <= j < offset + i {
                    bytes@[j - offset]
                } else {
                    old(self)@[j]
                },
            decreases bytes@.len() - i,
        {
            self.buf.set(offset + i, bytes[i]);
            i = i + 1;
        }
        assert(self.buf@ =~= old(self)@.subrange(0, offset as int) + bytes@ + old(self)@.subrange(
            offset + bytes@.len(),
            old(self)@.len() as int,
        ));
    }

    /// Writes a little-endian `u16`.
    pub fn write_le_u16(&mut self, v: u16)
        ensures
            final(self)@ == old(self)@ + spec_u16_to_le_bytes(v),
    {
        let mut b = u16_to_le_bytes(v);
        self.buf.append(&mut b);
    }

    /// Writes a little-endian `u32`.
    pub fn write_le_u32(&mut self, v: u32)
        ensures
            final(self)@ == old(self)@ + spec_u32_to_le_bytes(v),
    {
        let mut b = u32_to_le_bytes(v);
        self.buf.append(&mut b);
    }

    /// Writes a little-endian `u64`.
    pub fn write_le_u64(&mut self, v: u64)
        ensures
            final(self)@ == old(self)@ + spec_u64_to_le_bytes(v),
    {
        let mut b = u64_to_le_bytes(v);
        self.buf.append(&mut b);
    }

    /// Writes a little-endian `i16`.
    pub fn write_le_i16(&mut self, v: i16)
        ensures
            final(self)@ == old(self)@ + spec_u16_to_le_bytes(v as u16),
    {
        self.write_le_u16(v as u16);
    }

    /// Writes a little-endian `i32`.
    pub fn write_le_i32(&mut self, v: i32)
        ensures
            final(self)@ == old(self)@ + spec_u32_to_le_bytes(v as u32),
    {
        self.write_le_u32(v as u32);
    }

    /// Writes a little-endian `i64`.
    pub fn write_le_i64(&mut self, v: i64)
        ensures
            final(self)@ == old(self)@ + spec_u64_to_le_bytes(v as u64),
    {
        self.write_le_u64(v as u64);
    }

    /// Writes UTF-16LE code units for `s`, returning how many code units were
    /// written (which may exceed the number of characters for astral characters).
    pub fn write_utf16(&mut self, s: &str) -> (r: usize)
        ensures
            final(self)@ == old(self)@ + units_le_bytes(utf16_encode(s@)),
            r == utf16_encode(s@).len(),
    {
        let units = str_utf16_units(s);
        let mut i: usize = 0;
        while i < units.len()
            invariant
                i <= units@.len(),
                units@ == utf16_encode(s@),
                self@ == old(self)@ + units_le_bytes(units@.subrange(0, i as int)),
            decreases units@.len() - i,
        {
            let ghost before = self@;
            self.write_le_u16(units[i]);
            proof {
                let t = units@.subrange(0, i + 1);
                assert(t.drop_last() =~= units@.subrange(0, i as int));
                assert(self@ =~= old(self)@ + units_le_bytes(t));
            }
            i = i + 1;
        }
        assert(units@.subrange(0, units@.len() as int) =~= units@);
        units.len()
    }
}

} // verus!
