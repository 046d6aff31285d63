//! Character encodings used on the wire: UTF-8 for `string`, UTF-16LE for
//! `wstring`, and the calls into the libraries that validate and convert them.

use vstd::prelude::*;
use vstd::utf8::{decode_utf8, valid_utf8};

verus! {

broadcast use vstd::utf8::group_utf8_lib;

/// The decimal digits of `n`, as `Display` prints an unsigned integer.
pub open spec fn decimal(n: nat) -> Seq<char>
    decreases n,
{
    if n < 10 {
        seq![(48 + n) as char]
    } else {
        decimal(n / 10) + seq![(48 + n % 10) as char]
    }
}

/// The UTF-16 code units of one character: one unit inside the basic plane, a
/// surrogate pair above it.
pub open spec fn utf16_encode_char(c: char) -> Seq<u16> {
    let cp = (c as u32) as int;
    if cp < 0x10000 {
        seq![cp as u16]
    } else {
        seq![(0xD800 + (cp - 0x10000) / 1024) as u16, (0xDC00 + (cp - 0x10000) % 1024) as u16]
    }
}

/// The UTF-16 code units of a character sequence.
pub open spec fn utf16_encode(s: Seq<char>) -> Seq<u16>
    decreases s.len(),
{
    if s.len() == 0 {
        Seq::empty()
    } else {
        utf16_encode_char(s[0]) + utf16_encode(s.drop_first())
    }
}

/// The characters that a sequence of UTF-16 code units stands for, or `None` when
/// it holds an unpaired surrogate.
pub open spec fn utf16_decode(u: Seq<u16>) -> Option<Seq<char>>
    decreases u.len(),
{
    if u.len() == 0 {
        Some(Seq::empty())
    } else if u[0] < 0xD800 || u[0] >= 0xE000 {
        match utf16_decode(u.drop_first()) {
            Some(r) => Some(seq![(u[0] as u32) as char] + r),
            None => None,
        }
    } else if u[0] < 0xDC00 && u.len() >= 2 && 0xDC00 <= u[1] && u[1] < 0xE000 {
        let cp = 0x10000 + (u[0] - 0xD800) * 1024 + (u[1] - 0xDC00);
        match utf16_decode(u.subrange(2, u.len() as int)) {
            Some(r) => Some(seq![(cp as u32) as char] + r),
            None => None,
        }
    } else {
        None
    }
}

/// Decoding the UTF-16 encoding of a character sequence gives it back.
pub proof fn lemma_utf16_roundtrip(s: Seq<char>)
    ensures
        utf16_decode(utf16_encode(s)) == Some(s),
    decreases s.len(),
{
    if s.len() > 0 {
        let c = s[0];
        let rest = s.drop_first();
        lemma_utf16_roundtrip(rest);
        let cp = (c as u32) as int;
        let e = utf16_encode(s);
        let ec = utf16_encode_char(c);
        let er = utf16_encode(rest);
        assert(e == ec + er);
        vstd::utf8::char_is_scalar(c);
        vstd::utf8::char_u32_cast(c, c as u32);
        if cp < 0x10000 {
            assert((e.drop_first()) =~= er);
            assert(e[0] == cp);
            assert((cp as u16) as u32 == c as u32);
            assert(((cp as u16) as u32) as char == c);
            assert(seq![c] + rest =~= s);
        } else {
            let hi = (0xD800 + (cp - 0x10000) / 1024) as u16;
            let lo = (0xDC00 + (cp - 0x10000) % 1024) as u16;
            assert(e[0] == hi);
            assert(e[1] == lo);
            assert(e.subrange(2, e.len() as int) =~= er);
            assert(0x10000 + (hi - 0xD800) * 1024 + (lo - 0xDC00) == cp);
            assert(((cp as u32) as u32) as char == c);
            assert(seq![c] + rest =~= s);
        }
    }
}

/// Encoding one more character appends its code units.
proof fn lemma_utf16_encode_push(s: Seq<char>, c: char)
    ensures
        utf16_encode(s.push(c)) == utf16_encode(s) + utf16_encode_char(c),
    decreases s.len(),
{
    if s.len() == 0 {
        assert(s.push(c).drop_first() =~= Seq::<char>::empty());
        assert(utf16_encode(Seq::<char>::empty()) =~= Seq::<u16>::empty());
        assert(utf16_encode(s.push(c)) =~= utf16_encode_char(c));
    } else {
        lemma_utf16_encode_push(s.drop_first(), c);
        assert(s.push(c).drop_first() =~= s.drop_first().push(c));
        assert(s.push(c)[0] == s[0]);
        assert(utf16_encode(s.push(c)) =~= utf16_encode(s) + utf16_encode_char(c));
    }
}

/// The UTF-16 code units of `s`, in order: one unit for a character inside the
/// basic plane, a surrogate pair for one above it.
pub(crate) fn str_utf16_units(s: &str) -> (r: Vec<u16>)
    ensures
        r@ == utf16_encode(s@),
{
    let mut out: Vec<u16> = Vec::new();
    for c in it: s.chars()
        invariant
            it.seq() == s@,
            out@ == utf16_encode(s@.take(it.index() as int)),
    {
        let cp: u32 = c as u32;
        proof {
            vstd::utf8::char_is_scalar(c);
            vstd::utf8::char_u32_cast(c, cp);
        }
        if cp < 0x10000 {
            out.push(cp as u16);
        } else {
            let v: u32 = cp - 0x10000;
            out.push((0xD800 + v / 1024) as u16);
            out.push((0xDC00 + v % 1024) as u16);
        }
        proof {
            let done = s@.take(it.index() as int);
            lemma_utf16_encode_push(done, c);
            assert(s@.take(it.index() + 1) =~= done.push(c));
        }
    }
    proof {
        assert(s@.take(s@.len() as int) =~= s@);
    }
    out
}

/// Decodes UTF-16 code units to a `String` (`char::decode_utf16`, collected into a
/// `String`); `None` when the units hold an unpaired surrogate.
#[verifier::external_body]
pub(crate) fn string_from_utf16_units(units: &[u16]) -> (r: Option<String>)
    ensures
        match utf16_decode(units@) {
            Some(c) => r matches Some(s) && s@ == c,
            None => r is None,
        },
{
    char::decode_utf16(units.iter().copied()).collect::<Result<String, _>>().ok()
}

/// Validates `bytes` as UTF-8 (`simdutf8::basic::from_utf8`): `Some` exactly when
/// they are valid UTF-8, holding the characters they encode.
#[verifier::external_body]
pub(crate) fn str_from_utf8<'a>(bytes: &'a [u8]) -> (r: Option<&'a str>)
    ensures
        r is Some <==> valid_utf8(bytes@),
        r matches Some(s) ==> s@ == decode_utf8(bytes@),
{
    match simdutf8::basic::from_utf8(bytes) {
        Ok(s) => Some(s),
        Err(_) => None,
    }
}

} // verus!
