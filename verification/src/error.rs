//! Error type for Bond parsing and serialization.

use vstd::prelude::*;
use crate::constants::{kind_name, BondDataType, ProtocolType};
use crate::message::{
    data_type_name, hex4, protocol_debug_name, protocol_name, push_decimal, push_hex4, push_str,
    string_from_chars,
};
use crate::text::decimal;

verus! {

/// All errors that can occur while reading or writing Bond payloads.
///
/// Reading a broken Bond payload always surfaces as one of these variants, never
/// as a panic.
#[derive(Debug, Clone, PartialEq, Eq)]
pub enum Error {
    /// The input ended before a complete value could be read.
    UnexpectedEof {
        /// How many more bytes were required.
        needed: usize,
        /// How many bytes were actually available.
        available: usize,
    },
    /// A type byte on the wire did not correspond to any known `BondDataType`.
    UnknownType(u8),
    /// The 2-byte protocol magic did not match any known protocol.
    UnknownProtocol(u16),
    /// The protocol is recognized but the version is not supported.
    UnsupportedVersion {
        /// The protocol whose version is unsupported.
        protocol: ProtocolType,
        /// The version found on the wire.
        version: u16,
    },
    /// A variable-length integer was longer than its type allows.
    VarintOverflow,
    /// A `string` payload was not valid UTF-8.
    InvalidUtf8,
    /// A `wstring` payload was not valid UTF-16.
    InvalidUtf16,
    /// Recursion exceeded the configured depth limit.
    DepthLimitExceeded(usize),
    /// A declared length exceeds what is available or representable.
    LengthOutOfBounds {
        /// The length declared on the wire.
        declared: usize,
        /// The number of bytes actually remaining.
        available: usize,
    },
    /// The operation requires a schema but none was supplied.
    SchemaRequired,
    /// The supplied schema was inconsistent, or the value did not match it.
    SchemaError(String),
    /// A value did not have the type the schema or context required.
    TypeMismatch {
        /// The type that was expected.
        expected: BondDataType,
        /// The type that was actually found.
        actual: BondDataType,
    },
    /// A Simple JSON document could not be parsed or did not match the mapping.
    Json(String),
    /// Any other error with a human-readable message.
    Message(String),
}

/// The mathematical model of an [`Error`]: messages are seen as character sequences.
pub enum ErrorV {
    UnexpectedEof { needed: usize, available: usize },
    UnknownType(u8),
    UnknownProtocol(u16),
    UnsupportedVersion { protocol: ProtocolType, version: u16 },
    VarintOverflow,
    InvalidUtf8,
    InvalidUtf16,
    DepthLimitExceeded(usize),
    LengthOutOfBounds { declared: usize, available: usize },
    SchemaRequired,
    SchemaError(Seq<char>),
    TypeMismatch { expected: BondDataType, actual: BondDataType },
    Json(Seq<char>),
    Message(Seq<char>),
}

impl View for Error {
    type V = ErrorV;

    open spec fn view(&self) -> ErrorV {
        match self {
            Error::UnexpectedEof { needed, available } => ErrorV::UnexpectedEof {
                needed: *needed,
                available: *available,
            },
            Error::UnknownType(t) => ErrorV::UnknownType(*t),
            Error::UnknownProtocol(m) => ErrorV::UnknownProtocol(*m),
            Error::UnsupportedVersion { protocol, version } => ErrorV::UnsupportedVersion {
                protocol: *protocol,
                version: *version,
            },
            Error::VarintOverflow => ErrorV::VarintOverflow,
            Error::InvalidUtf8 => ErrorV::InvalidUtf8,
            Error::InvalidUtf16 => ErrorV::InvalidUtf16,
            Error::DepthLimitExceeded(d) => ErrorV::DepthLimitExceeded(*d),
            Error::LengthOutOfBounds { declared, available } => ErrorV::LengthOutOfBounds {
                declared: *declared,
                available: *available,
            },
            Error::SchemaRequired => ErrorV::SchemaRequired,
            Error::SchemaError(m) => ErrorV::SchemaError(m@),
            Error::TypeMismatch { expected, actual } => ErrorV::TypeMismatch {
                expected: *expected,
                actual: *actual,
            },
            Error::Json(m) => ErrorV::Json(m@),
            Error::Message(m) => ErrorV::Message(m@),
        }
    }
}

/// The model of an end-of-input error.
pub open spec fn eof_v(needed: int, available: int) -> ErrorV {
    ErrorV::UnexpectedEof { needed: needed as usize, available: available as usize }
}

impl Error {
    /// Builds an [`Error::UnexpectedEof`].
    pub(crate) fn eof(needed: usize, available: usize) -> (r: Self)
        ensures
            r == (Error::UnexpectedEof { needed, available }),
            r@ == eof_v(needed as int, available as int),
    {
        Error::UnexpectedEof { needed, available }
    }
}

/// The human-readable text of an error.
pub open spec fn message_of(e: ErrorV) -> Seq<char> {
    match e {
        ErrorV::UnexpectedEof { needed, available } => "unexpected end of input: needed "@
            + decimal(needed as nat) + " byte(s) but only "@ + decimal(available as nat)
            + " available"@,
        ErrorV::UnknownType(t) => "unknown Bond data type "@ + decimal(t as nat),
        ErrorV::UnknownProtocol(m) => "unknown protocol magic 0x"@ + hex4(m),
        ErrorV::UnsupportedVersion { protocol, version } => "unsupported version "@
            + decimal(version as nat) + " for protocol "@ + protocol_debug_name(protocol),
        ErrorV::VarintOverflow => "variable-length integer overflow (corrupt data)"@,
        ErrorV::InvalidUtf8 => "string is not valid UTF-8"@,
        ErrorV::InvalidUtf16 => "wstring is not valid UTF-16"@,
        ErrorV::DepthLimitExceeded(d) => "recursion depth limit ("@ + decimal(d as nat)
            + ") exceeded"@,
        ErrorV::LengthOutOfBounds { declared, available } => "declared length "@
            + decimal(declared as nat) + " exceeds "@ + decimal(available as nat)
            + " available byte(s)"@,
        ErrorV::SchemaRequired => "this operation requires a schema"@,
        ErrorV::SchemaError(m) => "schema error: "@ + m,
        ErrorV::TypeMismatch { expected, actual } => "type mismatch: expected "@
            + kind_name(expected) + ", found "@ + kind_name(actual),
        ErrorV::Json(m) => "Simple JSON error: "@ + m,
        ErrorV::Message(m) => m,
    }
}

impl Error {
    /// The human-readable text of this error, the form in which it is shown to
    /// a user; types appear under their names (sets and maps as `Set` and `Map`),
    /// protocols under their variant names.
    pub fn message(&self) -> (r: String)
        ensures
            r@ == message_of(self@),
    {
        let mut out: Vec<char> = Vec::new();
        match self {
            Error::UnexpectedEof { needed, available } => {
                push_str(&mut out, "unexpected end of input: needed ");
                push_decimal(&mut out, *needed as u64);
                push_str(&mut out, " byte(s) but only ");
                push_decimal(&mut out, *available as u64);
                push_str(&mut out, " available");
            },
            Error::UnknownType(t) => {
                push_str(&mut out, "unknown Bond data type ");
                push_decimal(&mut out, *t as u64);
            },
            Error::UnknownProtocol(m) => {
                push_str(&mut out, "unknown protocol magic 0x");
                push_hex4(&mut out, *m);
            },
            Error::UnsupportedVersion { protocol, version } => {
                push_str(&mut out, "unsupported version ");
                push_decimal(&mut out, *version as u64);
                push_str(&mut out, " for protocol ");
                push_str(&mut out, protocol_name(*protocol));
            },
            Error::VarintOverflow => {
                push_str(&mut out, "variable-length integer overflow (corrupt data)");
            },
            Error::InvalidUtf8 => {
                push_str(&mut out, "string is not valid UTF-8");
            },
            Error::InvalidUtf16 => {
                push_str(&mut out, "wstring is not valid UTF-16");
            },
            Error::DepthLimitExceeded(d) => {
                push_str(&mut out, "recursion depth limit (");
                push_decimal(&mut out, *d as u64);
                push_str(&mut out, ") exceeded");
            },
            Error::LengthOutOfBounds { declared, available } => {
                push_str(&mut out, "declared length ");
                push_decimal(&mut out, *declared as u64);
                push_str(&mut out, " exceeds ");
                push_decimal(&mut out, *available as u64);
                push_str(&mut out, " available byte(s)");
            },
            Error::SchemaRequired => {
                push_str(&mut out, "this operation requires a schema");
            },
            Error::SchemaError(m) => {
                push_str(&mut out, "schema error: ");
                push_str(&mut out, m.as_str());
            },
            Error::TypeMismatch { expected, actual } => {
                push_str(&mut out, "type mismatch: expected ");
                push_str(&mut out, data_type_name(*expected));
                push_str(&mut out, ", found ");
                push_str(&mut out, data_type_name(*actual));
            },
            Error::Json(m) => {
                push_str(&mut out, "Simple JSON error: ");
                push_str(&mut out, m.as_str());
            },
            Error::Message(m) => {
                push_str(&mut out, m.as_str());
            },
        }
        string_from_chars(out)
    }
}

} // verus!

verus! {

/// `r` is the executable counterpart of the modelled result `s`: the same value on
/// success, an error whose model is the modelled error on failure.
pub open spec fn agrees<T>(r: Result<T, Error>, s: Result<T, ErrorV>) -> bool {
    match (r, s) {
        (Ok(a), Ok(b)) => a == b,
        (Err(e), Err(f)) => e@ == f,
        _ => false,
    }
}

} // verus!
