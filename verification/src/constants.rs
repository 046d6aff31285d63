//! Wire-format constants: data types, protocol magic numbers, versions.

use vstd::prelude::*;
use crate::error::Error;

verus! {

/// The on-wire type tag of every Bond value.
///
/// Each variant's wire byte is given by [`BondDataType::as_u8`] (and `type_code` in specs).
#[derive(Clone, Copy, PartialEq, Eq, Debug, Hash, Structural)]
pub enum BondDataType {
    /// Marks the end of a struct (0).
    Stop,
    /// Marks the end of a base struct within an inheritance chain (1).
    StopBase,
    /// `bool` (2).
    Bool,
    /// `uint8` (3).
    UInt8,
    /// `uint16` (4).
    UInt16,
    /// `uint32` (5).
    UInt32,
    /// `uint64` (6).
    UInt64,
    /// `float` (7).
    Float,
    /// `double` (8).
    Double,
    /// `string`, UTF-8 (9).
    String,
    /// A nested struct (10).
    Struct,
    /// `list<T>` / `vector<T>`, also `nullable<T>` and `blob` (11).
    List,
    /// `set<T>` (12).
    SetType,
    /// `map<K, V>` (13).
    MapType,
    /// `int8` (14).
    Int8,
    /// `int16` (15).
    Int16,
    /// `int32` (16).
    Int32,
    /// `int64` (17).
    Int64,
    /// `wstring`, UTF-16LE (18).
    WString,
    /// Sentinel for "type not available" (127).
    Unavailable,
}

/// The name a data type is shown under in messages: its variant's name, with
/// sets and maps shown as `Set` and `Map`.
pub open spec fn kind_name(t: BondDataType) -> Seq<char> {
    match t {
        BondDataType::Stop => "Stop"@,
        BondDataType::StopBase => "StopBase"@,
        BondDataType::Bool => "Bool"@,
        BondDataType::UInt8 => "UInt8"@,
        BondDataType::UInt16 => "UInt16"@,
        BondDataType::UInt32 => "UInt32"@,
        BondDataType::UInt64 => "UInt64"@,
        BondDataType::Float => "Float"@,
        BondDataType::Double => "Double"@,
        BondDataType::String => "String"@,
        BondDataType::Struct => "Struct"@,
        BondDataType::List => "List"@,
        BondDataType::SetType => "Set"@,
        BondDataType::MapType => "Map"@,
        BondDataType::Int8 => "Int8"@,
        BondDataType::Int16 => "Int16"@,
        BondDataType::Int32 => "Int32"@,
        BondDataType::Int64 => "Int64"@,
        BondDataType::WString => "WString"@,
        BondDataType::Unavailable => "Unavailable"@,
    }
}

/// The wire byte of a data type.
pub open spec fn type_code(t: BondDataType) -> u8 {
    match t {
        BondDataType::Stop => 0,
        BondDataType::StopBase => 1,
        BondDataType::Bool => 2,
        BondDataType::UInt8 => 3,
        BondDataType::UInt16 => 4,
        BondDataType::UInt32 => 5,
        BondDataType::UInt64 => 6,
        BondDataType::Float => 7,
        BondDataType::Double => 8,
        BondDataType::String => 9,
        BondDataType::Struct => 10,
        BondDataType::List => 11,
        BondDataType::SetType => 12,
        BondDataType::MapType => 13,
        BondDataType::Int8 => 14,
        BondDataType::Int16 => 15,
        BondDataType::Int32 => 16,
        BondDataType::Int64 => 17,
        BondDataType::WString => 18,
        BondDataType::Unavailable => 127,
    }
}

/// The data type whose wire byte is `b`, if any.
pub open spec fn type_from_code(b: u8) -> Option<BondDataType> {
    if b == 0 { Some(BondDataType::Stop) }
    else if b == 1 { Some(BondDataType::StopBase) }
    else if b == 2 { Some(BondDataType::Bool) }
    else if b == 3 { Some(BondDataType::UInt8) }
    else if b == 4 { Some(BondDataType::UInt16) }
    else if b == 5 { Some(BondDataType::UInt32) }
    else if b == 6 { Some(BondDataType::UInt64) }
    else if b == 7 { Some(BondDataType::Float) }
    else if b == 8 { Some(BondDataType::Double) }
    else if b == 9 { Some(BondDataType::String) }
    else if b == 10 { Some(BondDataType::Struct) }
    else if b == 11 { Some(BondDataType::List) }
    else if b == 12 { Some(BondDataType::SetType) }
    else if b == 13 { Some(BondDataType::MapType) }
    else if b == 14 { Some(BondDataType::Int8) }
    else if b == 15 { Some(BondDataType::Int16) }
    else if b == 16 { Some(BondDataType::Int32) }
    else if b == 17 { Some(BondDataType::Int64) }
    else if b == 18 { Some(BondDataType::WString) }
    else if b == 127 { Some(BondDataType::Unavailable) }
    else { None }
}

/// The result of decoding the wire byte `b` as a data type.
pub open spec fn spec_type_from_u8(b: u8) -> Result<BondDataType, Error> {
    match type_from_code(b) {
        Some(t) => Ok(t),
        None => Err(Error::UnknownType(b)),
    }
}

/// Decoding a type's wire byte gives the type back, and a byte decodes to a type
/// exactly when it is that type's wire byte.
pub proof fn lemma_type_code_roundtrip(t: BondDataType, b: u8)
    ensures
        type_from_code(type_code(t)) == Some(t),
        type_from_code(b) == Some(t) <==> type_code(t) == b,
{
}

/// True for fixed-size scalar types.
pub open spec fn spec_is_basic(t: BondDataType) -> bool {
    match t {
        BondDataType::Bool | BondDataType::UInt8 | BondDataType::UInt16 | BondDataType::UInt32
        | BondDataType::UInt64 | BondDataType::Int8 | BondDataType::Int16 | BondDataType::Int32
        | BondDataType::Int64 | BondDataType::Float | BondDataType::Double => true,
        _ => false,
    }
}

impl BondDataType {
    /// Maps a raw wire byte to a data type, rejecting unknown values with
    /// [`Error::UnknownType`].
    pub fn from_u8(value: u8) -> (r: Result<Self, Error>)
        ensures
            r == spec_type_from_u8(value),
    {
        match value {
            0 => Ok(BondDataType::Stop),
            1 => Ok(BondDataType::StopBase),
            2 => Ok(BondDataType::Bool),
            3 => Ok(BondDataType::UInt8),
            4 => Ok(BondDataType::UInt16),
            5 => Ok(BondDataType::UInt32),
            6 => Ok(BondDataType::UInt64),
            7 => Ok(BondDataType::Float),
            8 => Ok(BondDataType::Double),
            9 => Ok(BondDataType::String),
            10 => Ok(BondDataType::Struct),
            11 => Ok(BondDataType::List),
            12 => Ok(BondDataType::SetType),
            13 => Ok(BondDataType::MapType),
            14 => Ok(BondDataType::Int8),
            15 => Ok(BondDataType::Int16),
            16 => Ok(BondDataType::Int32),
            17 => Ok(BondDataType::Int64),
            18 => Ok(BondDataType::WString),
            127 => Ok(BondDataType::Unavailable),
            other => Err(Error::UnknownType(other)),
        }
    }

    /// The raw wire byte for this type.
    pub fn as_u8(self) -> (r: u8)
        ensures
            r == type_code(self),
    {
        match self {
            BondDataType::Stop => 0,
            BondDataType::StopBase => 1,
            BondDataType::Bool => 2,
            BondDataType::UInt8 => 3,
            BondDataType::UInt16 => 4,
            BondDataType::UInt32 => 5,
            BondDataType::UInt64 => 6,
            BondDataType::Float => 7,
            BondDataType::Double => 8,
            BondDataType::String => 9,
            BondDataType::Struct => 10,
            BondDataType::List => 11,
            BondDataType::SetType => 12,
            BondDataType::MapType => 13,
            BondDataType::Int8 => 14,
            BondDataType::Int16 => 15,
            BondDataType::Int32 => 16,
            BondDataType::Int64 => 17,
            BondDataType::WString => 18,
            BondDataType::Unavailable => 127,
        }
    }

    /// True for fixed-size scalar types (`bool`, integers, `float`, `double`).
    pub fn is_basic(self) -> (r: bool)
        ensures
            r == spec_is_basic(self),
    {
        match self {
            BondDataType::Bool | BondDataType::UInt8 | BondDataType::UInt16
            | BondDataType::UInt32 | BondDataType::UInt64 | BondDataType::Int8
            | BondDataType::Int16 | BondDataType::Int32 | BondDataType::Int64
            | BondDataType::Float | BondDataType::Double => true,
            _ => false,
        }
    }

    /// True for the container types (`list`, `set`, `map`).
    pub fn is_container(self) -> (r: bool)
        ensures
            r == (self == BondDataType::List || self == BondDataType::SetType
                || self == BondDataType::MapType),
    {
        match self {
            BondDataType::List | BondDataType::SetType | BondDataType::MapType => true,
            _ => false,
        }
    }

    /// True for the string types (`string`, `wstring`).
    pub fn is_string(self) -> (r: bool)
        ensures
            r == (self == BondDataType::String || self == BondDataType::WString),
    {
        match self {
            BondDataType::String | BondDataType::WString => true,
            _ => false,
        }
    }
}

/// Distinguishes the sub-kinds of `BT_LIST`: on the wire a `nullable<T>` and a
/// `blob` are both encoded as a list; this records the intent in a schema.
#[derive(Clone, Copy, PartialEq, Eq, Debug, Hash, Structural)]
pub enum ListSubType {
    /// Ordinary `list` / `vector`.
    Plain,
    /// `nullable<T>`.
    Nullable,
    /// `blob`.
    Blob,
}

/// The protocol magic numbers.
#[derive(Clone, Copy, PartialEq, Eq, Debug, Hash, Structural)]
pub enum ProtocolType {
    /// The actual protocol is encoded in the marshaled payload header (0x0000).
    Marshaled,
    /// Fast Binary protocol (0x464d).
    Fast,
    /// Compact Binary protocol (0x4243).
    Compact,
    /// Simple JSON protocol (0x4a53).
    SimpleJson,
    /// Simple Binary protocol (0x5053).
    Simple,
}

/// The 2-byte magic of a protocol.
pub open spec fn protocol_magic(p: ProtocolType) -> u16 {
    match p {
        ProtocolType::Marshaled => 0x0000,
        ProtocolType::Fast => 0x464d,
        ProtocolType::Compact => 0x4243,
        ProtocolType::SimpleJson => 0x4a53,
        ProtocolType::Simple => 0x5053,
    }
}

/// The protocol whose magic is `m`, if any.
pub open spec fn protocol_from_magic(m: u16) -> Option<ProtocolType> {
    if m == 0x0000 { Some(ProtocolType::Marshaled) }
    else if m == 0x464d { Some(ProtocolType::Fast) }
    else if m == 0x4243 { Some(ProtocolType::Compact) }
    else if m == 0x4a53 { Some(ProtocolType::SimpleJson) }
    else if m == 0x5053 { Some(ProtocolType::Simple) }
    else { None }
}

/// Decoding a protocol's magic gives the protocol back, and a magic decodes to a
/// protocol exactly when it is that protocol's magic.
pub proof fn lemma_protocol_magic_roundtrip(p: ProtocolType, m: u16)
    ensures
        protocol_from_magic(protocol_magic(p)) == Some(p),
        protocol_from_magic(m) == Some(p) <==> protocol_magic(p) == m,
{
}

impl ProtocolType {
    /// Maps a 2-byte magic number to a protocol, rejecting unknown values with
    /// [`Error::UnknownProtocol`].
    pub fn from_u16(value: u16) -> (r: Result<Self, Error>)
        ensures
            r == match protocol_from_magic(value) {
                Some(p) => Ok::<ProtocolType, Error>(p),
                None => Err(Error::UnknownProtocol(value)),
            },
    {
        match value {
            0x0000 => Ok(ProtocolType::Marshaled),
            0x464d => Ok(ProtocolType::Fast),
            0x4243 => Ok(ProtocolType::Compact),
            0x4a53 => Ok(ProtocolType::SimpleJson),
            0x5053 => Ok(ProtocolType::Simple),
            other => Err(Error::UnknownProtocol(other)),
        }
    }

    /// The 2-byte magic for this protocol.
    pub fn magic(self) -> (r: u16)
        ensures
            r == protocol_magic(self),
    {
        match self {
            ProtocolType::Marshaled => 0x0000,
            ProtocolType::Fast => 0x464d,
            ProtocolType::Compact => 0x4243,
            ProtocolType::SimpleJson => 0x4a53,
            ProtocolType::Simple => 0x5053,
        }
    }
}

/// Protocol version `1`.
pub const V1: u16 = 1;

/// Protocol version `2`.
pub const V2: u16 = 2;

/// Default maximum recursion depth, guarding against malicious nesting.
pub const DEFAULT_MAX_DEPTH: usize = 256;

} // verus!
