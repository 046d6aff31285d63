//! Byte cursor with bounds-checked primitive reads.
//!
//! Every read validates bounds and returns [`Error::UnexpectedEof`] on
//! underflow, so no malformed input can cause a panic. Fixed-width integers are
//! little-endian.

use vstd::prelude::*;
use vstd::bytes::*;
use vstd::slice::slice_subrange;
use vstd::utf8::{decode_utf8, valid_utf8};
use crate::error::{eof_v, Error, ErrorV};
use crate::text::{str_from_utf8, string_from_utf16_units, utf16_decode};
use crate::varint::{
    decode_u16, decode_u32, decode_u64, spec_decode_u16, spec_decode_u32, spec_decode_u64,
    unzigzag, zigzag_decode_i16, zigzag_decode_i32, zigzag_decode_i64,
};

verus! {

// ---------------------------------------------------------------------------
// The model of each read: from the input `d` and position `p`, the value read and
// the position after it, or the error.
// ---------------------------------------------------------------------------

/// Reading one byte.
pub open spec fn rd_u8(d: Seq<u8>, p: int) -> Result<(u8, int), ErrorV> {
    if d.len() - p < 1 { Err(eof_v(1, d.len() - p)) } else { Ok((d[p], p + 1)) }
}

/// Reading `n` bytes.
pub open spec fn rd_bytes(d: Seq<u8>, p: int, n: int) -> Result<(Seq<u8>, int), ErrorV> {
    if d.len() - p < n { Err(eof_v(n, d.len() - p)) } else { Ok((d.subrange(p, p + n), p + n)) }
}

/// Reading a little-endian `u16`.
pub open spec fn rd_le_u16(d: Seq<u8>, p: int) -> Result<(u16, int), ErrorV> {
    match rd_bytes(d, p, 2) {
        Ok((b, q)) => Ok((spec_u16_from_le_bytes(b), q)),
        Err(e) => Err(e),
    }
}

/// Reading a little-endian `u32`.
pub open spec fn rd_le_u32(d: Seq<u8>, p: int) -> Result<(u32, int), ErrorV> {
    match rd_bytes(d, p, 4) {
        Ok((b, q)) => Ok((spec_u32_from_le_bytes(b), q)),
        Err(e) => Err(e),
    }
}

/// Reading a little-endian `u64`.
pub open spec fn rd_le_u64(d: Seq<u8>, p: int) -> Result<(u64, int), ErrorV> {
    match rd_bytes(d, p, 8) {
        Ok((b, q)) => Ok((spec_u64_from_le_bytes(b), q)),
        Err(e) => Err(e),
    }
}

/// Reading a LEB128 `u64`.
pub open spec fn rd_varint_u64(d: Seq<u8>, p: int) -> Result<(u64, int), ErrorV> {
    match spec_decode_u64(d.subrange(p, d.len() as int)) {
        Ok((v, n)) => Ok((v, p + n)),
        Err(e) => Err(e),
    }
}

/// Reading a LEB128 `u32`.
pub open spec fn rd_varint_u32(d: Seq<u8>, p: int) -> Result<(u32, int), ErrorV> {
    match spec_decode_u32(d.subrange(p, d.len() as int)) {
        Ok((v, n)) => Ok((v, p + n)),
        Err(e) => Err(e),
    }
}

/// Reading a LEB128 `u16`.
pub open spec fn rd_varint_u16(d: Seq<u8>, p: int) -> Result<(u16, int), ErrorV> {
    match spec_decode_u16(d.subrange(p, d.len() as int)) {
        Ok((v, n)) => Ok((v, p + n)),
        Err(e) => Err(e),
    }
}

/// Reading a zig-zag LEB128 `i64`.
pub open spec fn rd_zigzag_i64(d: Seq<u8>, p: int) -> Result<(i64, int), ErrorV> {
    match rd_varint_u64(d, p) {
        Ok((v, q)) => Ok((unzigzag(v as int) as i64, q)),
        Err(e) => Err(e),
    }
}

/// Reading a zig-zag LEB128 `i32`.
pub open spec fn rd_zigzag_i32(d: Seq<u8>, p: int) -> Result<(i32, int), ErrorV> {
    match rd_varint_u32(d, p) {
        Ok((v, q)) => Ok((unzigzag(v as int) as i32, q)),
        Err(e) => Err(e),
    }
}

/// Reading a zig-zag LEB128 `i16`.
pub open spec fn rd_zigzag_i16(d: Seq<u8>, p: int) -> Result<(i16, int), ErrorV> {
    match rd_varint_u16(d, p) {
        Ok((v, q)) => Ok((unzigzag(v as int) as i16, q)),
        Err(e) => Err(e),
    }
}

/// Reading `len` bytes of UTF-8 text.
pub open spec fn rd_utf8(d: Seq<u8>, p: int, len: int) -> Result<(Seq<char>, int), ErrorV> {
    match rd_bytes(d, p, len) {
        Ok((b, q)) => if valid_utf8(b) { Ok((decode_utf8(b), q)) } else { Err(ErrorV::InvalidUtf8) },
        Err(e) => Err(e),
    }
}

/// The little-endian `u16` code units held by `b`.
pub open spec fn le_units(b: Seq<u8>) -> Seq<u16> {
    Seq::new(b.len() / 2, |i: int| spec_u16_from_le_bytes(b.subrange(2 * i, 2 * i + 2)))
}

/// Reading `units` UTF-16LE code units of text.
pub open spec fn rd_utf16(d: Seq<u8>, p: int, units: int) -> Result<(Seq<char>, int), ErrorV> {
    if units * 2 > usize::MAX {
        Err(ErrorV::LengthOutOfBounds { declared: units as usize, available: (d.len() - p) as usize })
    } else {
        match rd_bytes(d, p, 2 * units) {
            Ok((b, q)) => match utf16_decode(le_units(b)) {
                Some(c) => Ok((c, q)),
                None => Err(ErrorV::InvalidUtf16),
            },
            Err(e) => Err(e),
        }
    }
}

/// A cursor over an immutable byte slice.
#[derive(Debug)]
pub struct Reader<'a> {
    buf: &'a [u8],
    pos: usize,
}

/// A read took the cursor from `old` to `new` as `s` says, returning `r`; a
/// failed read leaves the cursor where it was.
pub open spec fn read_step<'a, T>(
    old: Reader<'a>,
    new: Reader<'a>,
    r: Result<T, Error>,
    s: Result<(T, int), ErrorV>,
) -> bool {
    &&& new.data() == old.data()
    &&& new.pos() <= new.data().len()
    &&& match s {
        Ok((v, q)) => r == Ok::<T, Error>(v) && new.pos() == q,
        Err(e) => r matches Err(x) && x@ == e && new.pos() == old.pos(),
    }
}

impl<'a> Reader<'a> {
    #[verifier::type_invariant]
    spec fn inv(self) -> bool {
        self.pos <= self.buf@.len()
    }

    /// A copy of this cursor, at the same position over the same input.
    pub fn clone(&self) -> (r: Self)
        ensures
            r.data() == self.data(),
            r.pos() == self.pos(),
    {
        proof { use_type_invariant(self); }
        Reader { buf: self.buf, pos: self.pos }
    }

    /// The whole input.
    pub closed spec fn data(&self) -> Seq<u8> {
        self.buf@
    }

    /// The current offset into the input.
    pub closed spec fn pos(&self) -> int {
        self.pos as int
    }

    /// Creates a reader over `buf`, positioned at the start.
    pub fn new(buf: &'a [u8]) -> (r: Self)
        ensures
            r.data() == buf@,
            r.pos() == 0,
    {
        Reader { buf, pos: 0 }
    }

    /// The current byte offset.
    pub fn position(&self) -> (r: usize)
        ensures
            r == self.pos(),
            r <= self.data().len(),
    {
        proof { use_type_invariant(self); }
        self.pos
    }

    /// Number of bytes not yet consumed.
    pub fn remaining(&self) -> (r: usize)
        ensures
            r == self.data().len() - self.pos(),
    {
        proof { use_type_invariant(self); }
        self.buf.len() - self.pos
    }

    /// True if all input has been consumed.
    pub fn is_empty(&self) -> (r: bool)
        ensures
            r == (self.pos() >= self.data().len()),
    {
        self.pos >= self.buf.len()
    }

    /// The not-yet-consumed tail of the buffer.
    pub fn rest(&self) -> (r: &'a [u8])
        ensures
            r@ == self.data().subrange(self.pos(), self.data().len() as int),
    {
        proof { use_type_invariant(self); }
        slice_subrange(self.buf, self.pos, self.buf.len())
    }

    fn ensure(&self, n: usize) -> (r: Result<(), Error>)
        ensures
            self.data().len() - self.pos() >= n ==> r is Ok,
            self.data().len() - self.pos() < n ==> (r matches Err(e)
                && e@ == eof_v(n as int, self.data().len() - self.pos())),
    {
        proof { use_type_invariant(self); }
        if self.remaining() < n {
            Err(Error::eof(n, self.remaining()))
        } else {
            Ok(())
        }
    }

    /// Reads a single byte.
    pub fn read_u8(&mut self) -> (r: Result<u8, Error>)
        ensures
            read_step(*old(self), *final(self), r, rd_u8(old(self).data(), old(self).pos())),
    {
        proof { use_type_invariant(&*self); }
        self.ensure(1)?;
        let b = self.buf[self.pos];
        self.pos = self.pos + 1;
        Ok(b)
    }

    /// Returns the next byte without consuming it.
    pub fn peek_u8(&self) -> (r: Result<u8, Error>)
        ensures
            match rd_u8(self.data(), self.pos()) {
                Ok((b, _)) => r == Ok::<u8, Error>(b),
                Err(e) => r matches Err(x) && x@ == e,
            },
    {
        proof { use_type_invariant(self); }
        self.ensure(1)?;
        Ok(self.buf[self.pos])
    }

    /// Reads `n` bytes as a zero-copy slice.
    pub fn read_bytes(&mut self, n: usize) -> (r: Result<&'a [u8], Error>)
        ensures
            final(self).data() == old(self).data(),
            final(self).pos() <= final(self).data().len(),
            match rd_bytes(old(self).data(), old(self).pos(), n as int) {
                Ok((b, q)) => r matches Ok(s) && s@ == b && final(self).pos() == q,
                Err(e) => r matches Err(x) && x@ == e && final(self).pos() == old(self).pos(),
            },
    {
        proof { use_type_invariant(&*self); }
        self.ensure(n)?;
        let _len = self.buf.len();
        let s = slice_subrange(self.buf, self.pos, self.pos + n);
        self.pos = self.pos + n;
        Ok(s)
    }

    /// Advances the cursor by `n` bytes without returning them.
    pub fn skip_bytes(&mut self, n: usize) -> (r: Result<(), Error>)
        ensures
            final(self).data() == old(self).data(),
            final(self).pos() <= final(self).data().len(),
            match rd_bytes(old(self).data(), old(self).pos(), n as int) {
                Ok((_, q)) => r is Ok && final(self).pos() == q,
                Err(e) => r matches Err(x) && x@ == e && final(self).pos() == old(self).pos(),
            },
    {
        proof { use_type_invariant(&*self); }
        self.ensure(n)?;
        let _len = self.buf.len();
        self.pos = self.pos + n;
        Ok(())
    }

    /// Reads a `bool` (any non-zero byte is `true`).
    pub fn read_bool(&mut self) -> (r: Result<bool, Error>)
        ensures
            read_step(*old(self), *final(self), r, match rd_u8(old(self).data(), old(self).pos()) {
                Ok((b, q)) => Ok((b != 0, q)),
                Err(e) => Err(e),
            }),
    {
        Ok(self.read_u8()? != 0)
    }

    /// Reads a signed byte.
    pub fn read_i8(&mut self) -> (r: Result<i8, Error>)
        ensures
            read_step(*old(self), *final(self), r, match rd_u8(old(self).data(), old(self).pos()) {
                Ok((b, q)) => Ok((b as i8, q)),
                Err(e) => Err(e),
            }),
    {
        Ok(self.read_u8()? as i8)
    }

    /// Reads a little-endian `u16`.
    pub fn read_le_u16(&mut self) -> (r: Result<u16, Error>)
        ensures
            read_step(*old(self), *final(self), r, rd_le_u16(old(self).data(), old(self).pos())),
    {
        let b = self.read_bytes(2)?;
        Ok(u16_from_le_bytes(b))
    }

    /// Reads a little-endian `u32`.
    pub fn read_le_u32(&mut self) -> (r: Result<u32, Error>)
        ensures
            read_step(*old(self), *final(self), r, rd_le_u32(old(self).data(), old(self).pos())),
    {
        let b = self.read_bytes(4)?;
        Ok(u32_from_le_bytes(b))
    }

    /// Reads a little-endian `u64`.
    pub fn read_le_u64(&mut self) -> (r: Result<u64, Error>)
        ensures
            read_step(*old(self), *final(self), r, rd_le_u64(old(self).data(), old(self).pos())),
    {
        let b = self.read_bytes(8)?;
        Ok(u64_from_le_bytes(b))
    }

    /// Reads a little-endian `i16`.
    pub fn read_le_i16(&mut self) -> (r: Result<i16, Error>)
        ensures
            read_step(*old(self), *final(self), r, match rd_le_u16(old(self).data(), old(self).pos()) {
                Ok((v, q)) => Ok((v as i16, q)),
                Err(e) => Err(e),
            }),
    {
        Ok(self.read_le_u16()? as i16)
    }

    /// Reads a little-endian `i32`.
    pub fn read_le_i32(&mut self) -> (r: Result<i32, Error>)
        ensures
            read_step(*old(self), *final(self), r, match rd_le_u32(old(self).data(), old(self).pos()) {
                Ok((v, q)) => Ok((v as i32, q)),
                Err(e) => Err(e),
            }),
    {
        Ok(self.read_le_u32()? as i32)
    }

    /// Reads a little-endian `i64`.
    pub fn read_le_i64(&mut self) -> (r: Result<i64, Error>)
        ensures
            read_step(*old(self), *final(self), r, match rd_le_u64(old(self).data(), old(self).pos()) {
                Ok((v, q)) => Ok((v as i64, q)),
                Err(e) => Err(e),
            }),
    {
        Ok(self.read_le_u64()? as i64)
    }

    /// Reads a LEB128 `u64`.
    pub fn read_varint_u64(&mut self) -> (r: Result<u64, Error>)
        ensures
            read_step(*old(self), *final(self), r, rd_varint_u64(old(self).data(), old(self).pos())),
    {
        proof { use_type_invariant(&*self); }
        let (v, n) = decode_u64(self.rest())?;
        proof { lemma_decoded_within(self.data(), self.pos()); }
        let _len = self.buf.len();
        self.pos = self.pos + n;
        Ok(v)
    }

    /// Reads a LEB128 `u32`.
    pub fn read_varint_u32(&mut self) -> (r: Result<u32, Error>)
        ensures
            read_step(*old(self), *final(self), r, rd_varint_u32(old(self).data(), old(self).pos())),
    {
        proof { use_type_invariant(&*self); }
        let (v, n) = decode_u32(self.rest())?;
        proof { lemma_decoded_within(self.data(), self.pos()); }
        let _len = self.buf.len();
        self.pos = self.pos + n;
        Ok(v)
    }

    /// Reads a LEB128 `u16`.
    pub fn read_varint_u16(&mut self) -> (r: Result<u16, Error>)
        ensures
            read_step(*old(self), *final(self), r, rd_varint_u16(old(self).data(), old(self).pos())),
    {
        proof { use_type_invariant(&*self); }
        let (v, n) = decode_u16(self.rest())?;
        proof { lemma_decoded_within(self.data(), self.pos()); }
        let _len = self.buf.len();
        self.pos = self.pos + n;
        Ok(v)
    }

    /// Reads a zig-zag LEB128 `i64`.
    pub fn read_zigzag_i64(&mut self) -> (r: Result<i64, Error>)
        ensures
            read_step(*old(self), *final(self), r, rd_zigzag_i64(old(self).data(), old(self).pos())),
    {
        Ok(zigzag_decode_i64(self.read_varint_u64()?))
    }

    /// Reads a zig-zag LEB128 `i32`.
    pub fn read_zigzag_i32(&mut self) -> (r: Result<i32, Error>)
        ensures
            read_step(*old(self), *final(self), r, rd_zigzag_i32(old(self).data(), old(self).pos())),
    {
        Ok(zigzag_decode_i32(self.read_varint_u32()?))
    }

    /// Reads a zig-zag LEB128 `i16`.
    pub fn read_zigzag_i16(&mut self) -> (r: Result<i16, Error>)
        ensures
            read_step(*old(self), *final(self), r, rd_zigzag_i16(old(self).data(), old(self).pos())),
    {
        Ok(zigzag_decode_i16(self.read_varint_u16()?))
    }

    /// Reads `len` bytes and validates them as UTF-8, returning a borrowed `&str`.
    pub fn read_utf8(&mut self, len: usize) -> (r: Result<&'a str, Error>)
        ensures
            final(self).data() == old(self).data(),
            final(self).pos() <= final(self).data().len(),
            match rd_utf8(old(self).data(), old(self).pos(), len as int) {
                Ok((c, q)) => r matches Ok(s) && s@ == c && final(self).pos() == q,
                Err(e) => r matches Err(x) && x@ == e && final(self).pos() == (if e is InvalidUtf8 {
                    old(self).pos() + len
                } else {
                    old(self).pos()
                }),
            },
    {
        let bytes = self.read_bytes(len)?;
        match str_from_utf8(bytes) {
            Some(s) => Ok(s),
            None => Err(Error::InvalidUtf8),
        }
    }

    /// Reads `code_units` UTF-16LE code units (`2 * code_units` bytes) and decodes
    /// them to a `String`.
    pub fn read_utf16(&mut self, code_units: usize) -> (r: Result<String, Error>)
        ensures
            final(self).data() == old(self).data(),
            final(self).pos() <= final(self).data().len(),
            match rd_utf16(old(self).data(), old(self).pos(), code_units as int) {
                Ok((c, q)) => r matches Ok(s) && s@ == c && final(self).pos() == q,
                Err(e) => r matches Err(x) && x@ == e && final(self).pos() == (if e is InvalidUtf16 {
                    old(self).pos() + 2 * code_units
                } else {
                    old(self).pos()
                }),
            },
    {
        proof { use_type_invariant(&*self); }
        let byte_len = match code_units.checked_mul(2) {
            Some(b) => b,
            None => {
                return Err(Error::LengthOutOfBounds {
                    declared: code_units,
                    available: self.remaining(),
                });
            },
        };
        let bytes = self.read_bytes(byte_len)?;
        let units = le_units_of(bytes);
        match string_from_utf16_units(units.as_slice()) {
            Some(s) => Ok(s),
            None => Err(Error::InvalidUtf16),
        }
    }
}

/// Pairs up little-endian bytes into `u16` code units.
fn le_units_of(bytes: &[u8]) -> (r: Vec<u16>)
    requires
        bytes@.len() % 2 == 0,
    ensures
        r@ == le_units(bytes@),
{
    let mut out: Vec<u16> = Vec::new();
    let n = bytes.len() / 2;
    let mut i: usize = 0;
    while i < n
        invariant
            n == bytes@.len() / 2,
            bytes@.len() <= usize::MAX,
            i <= n,
            out@.len() == i,
            forall|j: int| 0 <= j < i ==> out@[j] == le_units(bytes@)[j],
        decreases n - i,
    {
        let pair = slice_subrange(bytes, 2 * i, 2 * i + 2);
        out.push(u16_from_le_bytes(pair));
        i = i + 1;
    }
    assert(out@ =~= le_units(bytes@));
    out
}

/// A decoded varint never extends past the input.
proof fn lemma_decoded_within(d: Seq<u8>, p: int)
    requires
        0 <= p <= d.len(),
    ensures
        spec_decode_u64(d.subrange(p, d.len() as int)) matches Ok((_, n)) ==> p + n <= d.len(),
{
    let s = d.subrange(p, d.len() as int);
    assert(s.len() == d.len() - p);
    if let Ok((_, n)) = spec_decode_u64(s) {
        crate::varint::lemma_terminator_range(s, 0);
    }
}


} // verus!
