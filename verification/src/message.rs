//! Building the text of error messages: literal pieces, unsigned integers in
//! decimal and in hexadecimal, and the names of the library's enums.

use vstd::prelude::*;
use crate::constants::{kind_name, BondDataType, ProtocolType};
use crate::text::decimal;

verus! {

/// One hexadecimal digit, lower case, for `0 <= d < 16`.
pub open spec fn hex_digit(d: int) -> char {
    if d < 10 {
        (48 + d) as char
    } else {
        (87 + d) as char
    }
}

/// A `u16` as four lower-case hexadecimal digits, zero-padded (`{:04x}`).
pub open spec fn hex4(m: u16) -> Seq<char> {
    seq![
        hex_digit(m as int / 4096),
        hex_digit((m as int / 256) % 16),
        hex_digit((m as int / 16) % 16),
        hex_digit(m as int % 16),
    ]
}

/// The name of a protocol as its derived `Debug` form prints it.
pub open spec fn protocol_debug_name(p: ProtocolType) -> Seq<char> {
    match p {
        ProtocolType::Marshaled => "Marshaled"@,
        ProtocolType::Fast => "Fast"@,
        ProtocolType::Compact => "Compact"@,
        ProtocolType::SimpleJson => "SimpleJson"@,
        ProtocolType::Simple => "Simple"@,
    }
}

/// Appends the characters of `s`.
pub(crate) fn push_str(out: &mut Vec<char>, s: &str)
    ensures
        final(out)@ == old(out)@ + s@,
{
    let n = s.unicode_len();
    let mut i: usize = 0;
    while i < n
        invariant
            n == s@.len(),
            i <= n,
            out@ == old(out)@ + s@.subrange(0, i as int),
        decreases n - i,
    {
        let c = s.get_char(i);
        out.push(c);
        i = i + 1;
        assert(s@.subrange(0, i as int) =~= s@.subrange(0, i - 1) + seq![c]);
    }
    assert(s@.subrange(0, n as int) =~= s@);
}

/// The character of a decimal digit.
fn digit_char(d: u64) -> (c: char)
    requires
        d < 10,
    ensures
        c == (48 + d) as char,
{
    match d {
        0 => '0',
        1 => '1',
        2 => '2',
        3 => '3',
        4 => '4',
        5 => '5',
        6 => '6',
        7 => '7',
        8 => '8',
        _ => '9',
    }
}

/// Appends `n` in decimal.
pub(crate) fn push_decimal(out: &mut Vec<char>, n: u64)
    ensures
        final(out)@ == old(out)@ + decimal(n as nat),
    decreases n,
{
    if n >= 10 {
        push_decimal(out, n / 10);
    }
    let c = digit_char(n % 10);
    out.push(c);
    if n >= 10 {
        assert(decimal(n as nat) == decimal((n / 10) as nat) + seq![c]);
    } else {
        assert(decimal(n as nat) == seq![c]);
    }
}

/// The character of a hexadecimal digit, lower case.
fn hex_char(d: u16) -> (c: char)
    requires
        d < 16,
    ensures
        c == hex_digit(d as int),
{
    match d {
        0 => '0',
        1 => '1',
        2 => '2',
        3 => '3',
        4 => '4',
        5 => '5',
        6 => '6',
        7 => '7',
        8 => '8',
        9 => '9',
        10 => 'a',
        11 => 'b',
        12 => 'c',
        13 => 'd',
        14 => 'e',
        _ => 'f',
    }
}

/// Appends `m` as four hexadecimal digits.
pub(crate) fn push_hex4(out: &mut Vec<char>, m: u16)
    ensures
        final(out)@ == old(out)@ + hex4(m),
{
    let a = hex_char(m / 4096);
    let b = hex_char((m / 256) % 16);
    let c = hex_char((m / 16) % 16);
    let d = hex_char(m % 16);
    out.push(a);
    out.push(b);
    out.push(c);
    out.push(d);
    assert(hex4(m) =~= seq![a, b, c, d]);
}

/// The name a data type is shown under in messages.
pub(crate) fn data_type_name(t: BondDataType) -> (r: &'static str)
    ensures
        r@ == kind_name(t),
{
    match t {
        BondDataType::Stop => "Stop",
        BondDataType::StopBase => "StopBase",
        BondDataType::Bool => "Bool",
        BondDataType::UInt8 => "UInt8",
        BondDataType::UInt16 => "UInt16",
        BondDataType::UInt32 => "UInt32",
        BondDataType::UInt64 => "UInt64",
        BondDataType::Float => "Float",
        BondDataType::Double => "Double",
        BondDataType::String => "String",
        BondDataType::Struct => "Struct",
        BondDataType::List => "List",
        BondDataType::SetType => "Set",
        BondDataType::MapType => "Map",
        BondDataType::Int8 => "Int8",
        BondDataType::Int16 => "Int16",
        BondDataType::Int32 => "Int32",
        BondDataType::Int64 => "Int64",
        BondDataType::WString => "WString",
        BondDataType::Unavailable => "Unavailable",
    }
}

/// The `Debug` name of a protocol.
pub(crate) fn protocol_name(p: ProtocolType) -> (r: &'static str)
    ensures
        r@ == protocol_debug_name(p),
{
    match p {
        ProtocolType::Marshaled => "Marshaled",
        ProtocolType::Fast => "Fast",
        ProtocolType::Compact => "Compact",
        ProtocolType::SimpleJson => "SimpleJson",
        ProtocolType::Simple => "Simple",
    }
}

/// Collects characters into a `String` (`FromIterator<char>` for `String`, through
/// `Iterator::collect`): the string holds exactly those characters, in order.
#[verifier::external_body]
pub(crate) fn string_from_chars(chars: Vec<char>) -> (r: String)
    ensures
        r@ == chars@,
{
    chars.into_iter().collect()
}

} // verus!
