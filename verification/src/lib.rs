//! A parser and writer for the Microsoft Bond serialization format.
//!
//! | Protocol       | Versions | Tagged? | Needs schema? |
//! |----------------|----------|---------|---------------|
//! | Compact Binary | v1, v2   | yes     | no            |
//! | Fast Binary    | v1       | yes     | no            |
//! | Simple Binary  | v1, v2   | no      | yes           |
//!
//! Every read is bounds-checked: a malformed payload yields an [`Error`],
//! never a panic, and nesting is limited to [`DEFAULT_MAX_DEPTH`].

pub mod constants;
pub mod error;
pub mod varint;
pub mod text;
pub mod message;
pub mod reader;
pub mod writer;
pub mod mirror;
pub mod value;
pub mod schema;
pub mod protocol;
pub mod marshal;
pub mod gen;

use vstd::prelude::*;

pub use constants::{BondDataType, ListSubType, ProtocolType, DEFAULT_MAX_DEPTH, V1, V2};
pub use error::Error;
pub use reader::Reader;
pub use schema::{FieldDef, Metadata, Modifier, SchemaDef, StructDef, TypeDef, Variant};
pub use value::{Field, Struct, Value};
pub use writer::Writer;
pub use marshal::{detect, marshal, marshal_with_schema, transcode_tagged, unmarshal, unmarshal_with_schema, Unmarshaled};
pub use protocol::{compact, fast, simple, simple_json};

use marshal::{detects_simple, spec_detect, spec_unmarshal, spec_unmarshal_with_schema};
use protocol::outcome;
use protocol::simple::bases_acyclic;

verus! {

/// Parses a tagged (Compact/Fast) marshaled payload, or, given a schema, any
/// payload with a binary header, returning the detected protocol/version and
/// the value.
pub fn parse_any(bytes: &[u8], schema: Option<&SchemaDef>) -> (r: Result<Unmarshaled, Error>)
    requires
        schema matches Some(s) ==> spec_detect(bytes@) is Some && (detects_simple(bytes@) ==> bases_acyclic(*s)),
    ensures
        match schema {
            Some(s) => outcome(r, spec_unmarshal_with_schema(bytes@, *s)),
            None => outcome(r, spec_unmarshal(bytes@)),
        },
{
    match schema {
        Some(s) => unmarshal_with_schema(bytes, s),
        None => unmarshal(bytes),
    }
}

} // verus!
