//! Marshaling: the 4-byte `[magic:u16 LE][version:u16 LE]` header that prefixes
//! a payload so the protocol can be auto-detected on read, plus transcoding
//! between protocols.
//!
//! Simple JSON is text without a header; its reading and writing live with the
//! JSON library outside this crate, so the functions here take the binary
//! protocols and leave JSON to their callers.

use vstd::prelude::*;
use vstd::bytes::{
    lemma_auto_spec_u16_to_from_le_bytes, spec_u16_from_le_bytes, spec_u16_to_le_bytes, u16_from_le_bytes,
    u16_to_le_bytes,
};
use vstd::slice::slice_subrange;
use crate::constants::{lemma_protocol_magic_roundtrip, protocol_from_magic, protocol_magic, ProtocolType, V1, V2};
use crate::error::{Error, ErrorV};
use crate::protocol::compact::{compact_kind, compact_version_error, CompactWriter};
use crate::protocol::roundtrip::{
    lemma_parsed_struct, lemma_struct_fits_tagged, lemma_tagged_roundtrip, struct_fits, tagged_struct,
};
use crate::protocol::simple::{bases_acyclic, ss_parse, sw_root};
use crate::protocol::simple_roundtrip::{lemma_simple_roundtrip, root_conforms};
use crate::protocol::{compact, enc_struct, fast, outcome, simple, spec_parse, TaggedKind};
use crate::schema::SchemaDef;
use crate::value::{Struct, StructV};
use crate::writer::Writer;

verus! {

/// The result of unmarshaling: the detected protocol/version and the value.
#[derive(Debug, PartialEq)]
pub struct Unmarshaled {
    /// The protocol detected from the header.
    pub protocol: ProtocolType,
    /// The version detected from the header.
    pub version: u16,
    /// The parsed value.
    pub value: Struct,
}

/// The model of an [`Unmarshaled`].
pub struct UnmarshaledV {
    pub protocol: ProtocolType,
    pub version: u16,
    pub value: StructV,
}

impl View for Unmarshaled {
    type V = UnmarshaledV;

    open spec fn view(&self) -> UnmarshaledV {
        UnmarshaledV { protocol: self.protocol, version: self.version, value: self.value@ }
    }
}

// ---------------------------------------------------------------------------
// The model
// ---------------------------------------------------------------------------

/// The 4-byte marshaling header.
pub open spec fn header(protocol: ProtocolType, version: u16) -> Seq<u8> {
    spec_u16_to_le_bytes(protocol_magic(protocol)) + spec_u16_to_le_bytes(version)
}

/// The protocol and version a header at the start of `b` announces, for the
/// binary protocols (Compact, Fast, Simple).
pub open spec fn spec_detect(b: Seq<u8>) -> Option<(ProtocolType, u16)> {
    if b.len() < 4 {
        None
    } else {
        let version = spec_u16_from_le_bytes(b.subrange(2, 4));
        match protocol_from_magic(spec_u16_from_le_bytes(b.subrange(0, 2))) {
            Some(p) => if p == ProtocolType::Compact || p == ProtocolType::Fast || p == ProtocolType::Simple {
                Some((p, version))
            } else {
                None
            },
            None => None,
        }
    }
}

/// The header of `b` names Simple Binary, the one protocol that reads the schema.
pub open spec fn detects_simple(b: Seq<u8>) -> bool {
    spec_detect(b) matches Some((p, _)) && p == ProtocolType::Simple
}

/// The first two bytes of `b` as a little-endian magic, or 0 if there are fewer.
pub open spec fn spec_peek_magic(b: Seq<u8>) -> u16 {
    if b.len() >= 2 { spec_u16_from_le_bytes(b.subrange(0, 2)) } else { 0 }
}

/// The error for a protocol that needs no schema being asked of a schema-less call.
pub open spec fn unknown_marshaled() -> ErrorV {
    ErrorV::UnknownProtocol(protocol_magic(ProtocolType::Marshaled))
}

/// What marshaling `s` with a tagged protocol gives.
pub open spec fn spec_marshal(s: StructV, protocol: ProtocolType, version: u16) -> Result<Seq<u8>, ErrorV> {
    match protocol {
        ProtocolType::Compact => if version == V1 || version == V2 {
            Ok(header(protocol, version) + enc_struct(compact_kind(version), s))
        } else {
            Err(compact_version_error(version))
        },
        ProtocolType::Fast => Ok(header(protocol, version) + enc_struct(TaggedKind::Fast, s)),
        ProtocolType::Simple | ProtocolType::SimpleJson => Err(ErrorV::SchemaRequired),
        ProtocolType::Marshaled => Err(unknown_marshaled()),
    }
}

/// Parsing a tagged body of the given protocol and version.
pub open spec fn spec_parse_tagged(protocol: ProtocolType, version: u16, body: Seq<u8>) -> Result<StructV, ErrorV> {
    match protocol {
        ProtocolType::Compact => if version == V1 || version == V2 {
            spec_parse(compact_kind(version), body)
        } else {
            Err(compact_version_error(version))
        },
        _ => if version == V1 {
            spec_parse(TaggedKind::Fast, body)
        } else {
            Err(ErrorV::UnsupportedVersion { protocol: ProtocolType::Fast, version })
        },
    }
}

/// Attaching the detected protocol and version to a parse outcome.
pub open spec fn tagged_outcome(protocol: ProtocolType, version: u16, r: Result<StructV, ErrorV>) -> Result<
    UnmarshaledV,
    ErrorV,
> {
    match r {
        Ok(s) => Ok(UnmarshaledV { protocol, version, value: s }),
        Err(e) => Err(e),
    }
}

/// What unmarshaling `b` without a schema gives.
pub open spec fn spec_unmarshal(b: Seq<u8>) -> Result<UnmarshaledV, ErrorV> {
    match spec_detect(b) {
        None => Err(ErrorV::UnknownProtocol(spec_peek_magic(b))),
        Some((p, v)) => {
            let body = b.subrange(4, b.len() as int);
            match p {
                ProtocolType::Compact | ProtocolType::Fast => tagged_outcome(p, v, spec_parse_tagged(p, v, body)),
                _ => Err(ErrorV::SchemaRequired),
            }
        },
    }
}

/// What unmarshaling a binary-headed `b` with `schema` gives.
pub open spec fn spec_unmarshal_with_schema(b: Seq<u8>, schema: SchemaDef) -> Result<UnmarshaledV, ErrorV> {
    match spec_detect(b) {
        None => Err(ErrorV::UnknownProtocol(spec_peek_magic(b))),
        Some((p, v)) => {
            let body = b.subrange(4, b.len() as int);
            match p {
                ProtocolType::Compact | ProtocolType::Fast => tagged_outcome(p, v, spec_parse_tagged(p, v, body)),
                _ => if v == V1 || v == V2 {
                    tagged_outcome(p, v, ss_parse(schema, v, body))
                } else {
                    Err(ErrorV::UnsupportedVersion { protocol: p, version: v })
                },
            }
        },
    }
}

// ---------------------------------------------------------------------------
// The header
// ---------------------------------------------------------------------------

/// Writes the 4-byte marshaling header for a binary protocol.
fn write_header(out: &mut Vec<u8>, protocol: ProtocolType, version: u16)
    ensures
        final(out)@ == old(out)@ + header(protocol, version),
{
    let mut m = u16_to_le_bytes(protocol.magic());
    let mut v = u16_to_le_bytes(version);
    out.append(&mut m);
    out.append(&mut v);
    assert(final(out)@ =~= old(out)@ + header(protocol, version));
}

/// Appends `bytes` to `out`.
fn extend(out: &mut Vec<u8>, bytes: &[u8])
    ensures
        final(out)@ == old(out)@ + bytes@,
{
    let mut i: usize = 0;
    while i < bytes.len()
        invariant
            i <= bytes@.len(),
            out@ == old(out)@ + bytes@.subrange(0, i as int),
        decreases bytes@.len() - i,
    {
        out.push(bytes[i]);
        i = i + 1;
        assert(out@ =~= old(out)@ + bytes@.subrange(0, i as int));
    }
    assert(bytes@.subrange(0, i as int) =~= bytes@);
}

/// Marshals a value with a tagged protocol (Compact or Fast), prefixing the
/// 4-byte header. Returns an error for schema-driven protocols.
pub fn marshal(value: &Struct, protocol: ProtocolType, version: u16) -> (r: Result<Vec<u8>, Error>)
    ensures
        match spec_marshal(value@, protocol, version) {
            Ok(b) => r matches Ok(x) && x@ == b,
            Err(e) => r matches Err(x) && x@ == e,
        },
{
    let mut out: Vec<u8> = Vec::new();
    write_header(&mut out, protocol, version);
    match protocol {
        ProtocolType::Compact => {
            let writer = CompactWriter::new(version)?;
            let mut w = Writer::new();
            writer.write_struct(&mut w, value);
            extend(&mut out, w.as_bytes());
        },
        ProtocolType::Fast => {
            let bytes = fast::write(value)?;
            extend(&mut out, bytes.as_slice());
        },
        ProtocolType::Simple | ProtocolType::SimpleJson => {
            return Err(Error::SchemaRequired);
        },
        ProtocolType::Marshaled => {
            return Err(Error::UnknownProtocol(ProtocolType::Marshaled.magic()));
        },
    }
    assert(out@ =~= spec_marshal(value@, protocol, version)->Ok_0);
    Ok(out)
}

/// Marshals a value with a binary protocol, using `schema` for Simple Binary.
/// Tagged protocols ignore the schema. Simple JSON, which is text with no
/// header, is written by the JSON layer instead.
pub fn marshal_with_schema(value: &Struct, protocol: ProtocolType, version: u16, schema: &SchemaDef) -> (r: Result<
    Vec<u8>,
    Error,
>)
    requires
        protocol != ProtocolType::SimpleJson,
        protocol == ProtocolType::Simple ==> bases_acyclic(*schema),
    ensures
        protocol != ProtocolType::Simple ==> match spec_marshal(value@, protocol, version) {
            Ok(b) => r matches Ok(x) && x@ == b,
            Err(e) => r matches Err(x) && x@ == e,
        },
        protocol == ProtocolType::Simple && !(version == V1 || version == V2) ==> (r matches Err(x)
            && x@ == crate::protocol::simple::simple_version_error(version)),
        protocol == ProtocolType::Simple && (version == V1 || version == V2) ==> match sw_root(
            *schema,
            version,
            value@,
        ) {
            (b, None) => r matches Ok(x) && x@ == header(protocol, version) + b,
            (_, Some(e)) => r matches Err(x) && x@ == e,
        },
{
    match protocol {
        ProtocolType::Simple => {
            let mut out: Vec<u8> = Vec::new();
            write_header(&mut out, protocol, version);
            let body = simple::write(value, schema, version)?;
            extend(&mut out, body.as_slice());
            Ok(out)
        },
        _ => marshal(value, protocol, version),
    }
}

/// Detects the protocol and version from a 4-byte header without parsing the
/// body. Returns `None` if the input does not start with a known binary magic.
pub fn detect(bytes: &[u8]) -> (r: Option<(ProtocolType, u16)>)
    ensures
        r == spec_detect(bytes@),
{
    if bytes.len() < 4 {
        return None;
    }
    let magic = u16_from_le_bytes(slice_subrange(bytes, 0, 2));
    let version = u16_from_le_bytes(slice_subrange(bytes, 2, 4));
    match ProtocolType::from_u16(magic) {
        Ok(ProtocolType::Compact) => Some((ProtocolType::Compact, version)),
        Ok(ProtocolType::Fast) => Some((ProtocolType::Fast, version)),
        Ok(ProtocolType::Simple) => Some((ProtocolType::Simple, version)),
        _ => None,
    }
}

/// The first two bytes as a little-endian magic, or 0 if there are fewer.
fn peek_magic(bytes: &[u8]) -> (r: u16)
    ensures
        r == spec_peek_magic(bytes@),
{
    if bytes.len() >= 2 {
        u16_from_le_bytes(slice_subrange(bytes, 0, 2))
    } else {
        0
    }
}

/// `Ok` when `version` is one of `allowed`, else [`Error::UnsupportedVersion`].
fn check_version(protocol: ProtocolType, version: u16, allowed: &[u16]) -> (r: Result<(), Error>)
    ensures
        allowed@.contains(version) ==> r is Ok,
        !allowed@.contains(version) ==> (r matches Err(e) && e@ == ErrorV::UnsupportedVersion { protocol, version }),
{
    let mut i: usize = 0;
    while i < allowed.len()
        invariant
            i <= allowed@.len(),
            forall|j: int| 0 <= j < i ==> allowed@[j] != version,
        decreases allowed@.len() - i,
    {
        if allowed[i] == version {
            return Ok(());
        }
        i = i + 1;
    }
    Err(Error::UnsupportedVersion { protocol, version })
}

/// The body after the 4-byte header.
fn body_of(bytes: &[u8]) -> (r: &[u8])
    requires
        bytes@.len() >= 4,
    ensures
        r@ == bytes@.subrange(4, bytes@.len() as int),
{
    slice_subrange(bytes, 4, bytes.len())
}

/// Parses a tagged body of the given protocol (Compact or Fast) and version.
fn parse_tagged(body: &[u8], protocol: ProtocolType, version: u16) -> (r: Result<Struct, Error>)
    requires
        protocol == ProtocolType::Compact || protocol == ProtocolType::Fast,
    ensures
        outcome(r, spec_parse_tagged(protocol, version, body@)),
{
    match protocol {
        ProtocolType::Compact => compact::parse(body, version),
        _ => {
            check_version(protocol, version, &[V1])?;
            fast::parse(body)
        },
    }
}

/// Unmarshals a tagged (Compact/Fast) payload, auto-detecting the protocol.
///
/// Returns [`Error::SchemaRequired`] if the header indicates a schema-driven
/// protocol; use [`unmarshal_with_schema`] for those.
pub fn unmarshal(bytes: &[u8]) -> (r: Result<Unmarshaled, Error>)
    ensures
        outcome(r, spec_unmarshal(bytes@)),
{
    let (protocol, version) = match detect(bytes) {
        Some(pv) => pv,
        None => {
            return Err(Error::UnknownProtocol(peek_magic(bytes)));
        },
    };
    let body = body_of(bytes);
    let value = match protocol {
        ProtocolType::Compact | ProtocolType::Fast => parse_tagged(body, protocol, version)?,
        _ => {
            return Err(Error::SchemaRequired);
        },
    };
    Ok(Unmarshaled { protocol, version, value })
}

/// Unmarshals a payload with a binary header, using `schema` for Simple Binary.
/// A payload without one is Simple JSON text, which the JSON layer reads.
pub fn unmarshal_with_schema(bytes: &[u8], schema: &SchemaDef) -> (r: Result<Unmarshaled, Error>)
    requires
        spec_detect(bytes@) is Some,
        detects_simple(bytes@) ==> bases_acyclic(*schema),
    ensures
        outcome(r, spec_unmarshal_with_schema(bytes@, *schema)),
{
    let (protocol, version) = match detect(bytes) {
        Some(pv) => pv,
        None => {
            return Err(Error::UnknownProtocol(peek_magic(bytes)));
        },
    };
    let body = body_of(bytes);
    let value = match protocol {
        ProtocolType::Compact | ProtocolType::Fast => parse_tagged(body, protocol, version)?,
        _ => {
            check_version(protocol, version, &[V1, V2])?;
            simple::parse(body, schema, version)?
        },
    };
    Ok(Unmarshaled { protocol, version, value })
}

/// What transcoding a tagged payload gives, for binary targets.
pub open spec fn spec_transcode(
    b: Seq<u8>,
    from: ProtocolType,
    from_version: u16,
    to: ProtocolType,
    to_version: u16,
) -> Result<Seq<u8>, ErrorV> {
    let parsed = match from {
        ProtocolType::Compact => if from_version == V1 || from_version == V2 {
            spec_parse(compact_kind(from_version), b)
        } else {
            Err(compact_version_error(from_version))
        },
        ProtocolType::Fast => spec_parse(TaggedKind::Fast, b),
        _ => Err(ErrorV::SchemaRequired),
    };
    match parsed {
        Err(e) => Err(e),
        Ok(s) => match to {
            ProtocolType::Compact => if to_version == V1 || to_version == V2 {
                Ok(enc_struct(compact_kind(to_version), s))
            } else {
                Err(compact_version_error(to_version))
            },
            ProtocolType::Fast => Ok(enc_struct(TaggedKind::Fast, s)),
            _ => Err(ErrorV::SchemaRequired),
        },
    }
}

/// Transcodes a tagged payload from one protocol/version to another by parsing
/// it to the DOM and re-serializing. Schema-driven targets are not supported by
/// this convenience wrapper; a Simple JSON target is written by the JSON layer.
pub fn transcode_tagged(
    bytes: &[u8],
    from: ProtocolType,
    from_version: u16,
    to: ProtocolType,
    to_version: u16,
) -> (r: Result<Vec<u8>, Error>)
    requires
        to != ProtocolType::SimpleJson,
    ensures
        match spec_transcode(bytes@, from, from_version, to, to_version) {
            Ok(b) => r matches Ok(x) && x@ == b,
            Err(e) => r matches Err(x) && x@ == e,
        },
{
    let value = match from {
        ProtocolType::Compact => compact::parse(bytes, from_version)?,
        ProtocolType::Fast => fast::parse(bytes)?,
        _ => {
            return Err(Error::SchemaRequired);
        },
    };
    match to {
        ProtocolType::Compact => compact::write(&value, to_version),
        ProtocolType::Fast => fast::write(&value),
        _ => Err(Error::SchemaRequired),
    }
}

// ---------------------------------------------------------------------------
// Laws
// ---------------------------------------------------------------------------

/// The tagged format that `protocol` at `version` writes.
pub open spec fn tagged_kind_of(protocol: ProtocolType, version: u16) -> TaggedKind {
    if protocol == ProtocolType::Compact { compact_kind(version) } else { TaggedKind::Fast }
}

/// The header reads back as the protocol and version it was written with.
proof fn lemma_detect_header(protocol: ProtocolType, version: u16, body: Seq<u8>)
    requires
        protocol == ProtocolType::Compact || protocol == ProtocolType::Fast || protocol == ProtocolType::Simple,
    ensures
        spec_detect(header(protocol, version) + body) == Some((protocol, version)),
        (header(protocol, version) + body).subrange(4, (header(protocol, version) + body).len() as int) == body,
{
    lemma_auto_spec_u16_to_from_le_bytes();
    let m = spec_u16_to_le_bytes(protocol_magic(protocol));
    let v = spec_u16_to_le_bytes(version);
    let b = header(protocol, version) + body;
    assert(b.subrange(0, 2) =~= m);
    assert(b.subrange(2, 4) =~= v);
    assert(b.subrange(4, b.len() as int) =~= body);
    lemma_protocol_magic_roundtrip(protocol, 0);
}

/// Unmarshaling what [`marshal`] wrote with Compact Binary v1 or v2, or Fast
/// Binary v1, detects that protocol and version and gives back the struct with
/// field names dropped and `nullable`/`blob` read as `list`.
pub proof fn lemma_marshal_roundtrip(s: StructV, protocol: ProtocolType, version: u16)
    requires
        struct_fits(tagged_kind_of(protocol, version), s),
        (protocol == ProtocolType::Compact && (version == V1 || version == V2)) || (protocol == ProtocolType::Fast
            && version == V1),
    ensures
        spec_marshal(s, protocol, version) matches Ok(b) && spec_unmarshal(b) == Ok::<UnmarshaledV, ErrorV>(
            UnmarshaledV { protocol, version, value: tagged_struct(s) },
        ),
{
    let k = tagged_kind_of(protocol, version);
    let body = enc_struct(k, s);
    lemma_detect_header(protocol, version, body);
    lemma_tagged_roundtrip(k, s, Seq::empty());
    assert(body + Seq::<u8>::empty() =~= body);
}

/// Unmarshaling with the schema what [`marshal_with_schema`] wrote with Simple
/// Binary v1 or v2 gives back the struct unchanged, when it is laid out as the
/// schema's root says.
pub proof fn lemma_marshal_simple_roundtrip(s: StructV, version: u16, schema: SchemaDef)
    requires
        bases_acyclic(schema),
        version == V1 || version == V2,
        root_conforms(schema, s),
    ensures
        sw_root(schema, version, s).1 is None,
        spec_unmarshal_with_schema(header(ProtocolType::Simple, version) + sw_root(schema, version, s).0, schema)
            == Ok::<UnmarshaledV, ErrorV>(UnmarshaledV { protocol: ProtocolType::Simple, version, value: s }),
{
    let body = sw_root(schema, version, s).0;
    lemma_detect_header(ProtocolType::Simple, version, body);
    lemma_simple_roundtrip(schema, version, s, Seq::empty());
    assert(body + Seq::<u8>::empty() =~= body);
}

/// Transcoding between Compact Binary (v1, v2) and Fast Binary gives a payload
/// that parses in the target format to exactly what the source parsed to, when
/// the target format can carry every container element type of it.
pub proof fn lemma_transcode_preserves(
    b: Seq<u8>,
    from: ProtocolType,
    from_version: u16,
    to: ProtocolType,
    to_version: u16,
)
    requires
        from == ProtocolType::Compact || from == ProtocolType::Fast,
        to == ProtocolType::Compact || to == ProtocolType::Fast,
        from == ProtocolType::Compact ==> (from_version == V1 || from_version == V2),
        to == ProtocolType::Compact ==> (to_version == V1 || to_version == V2),
        spec_parse(tagged_kind_of(from, from_version), b) is Ok,
        struct_fits(
            tagged_kind_of(to, to_version),
            spec_parse(tagged_kind_of(from, from_version), b)->Ok_0,
        ),
    ensures
        spec_transcode(b, from, from_version, to, to_version) matches Ok(out) && spec_parse(
            tagged_kind_of(to, to_version),
            out,
        ) == spec_parse(tagged_kind_of(from, from_version), b),
{
    let fk = tagged_kind_of(from, from_version);
    let tk = tagged_kind_of(to, to_version);
    let t = spec_parse(fk, b)->Ok_0;
    lemma_parsed_struct(fk, b, 0, 0);
    lemma_tagged_roundtrip(tk, t, Seq::empty());
    assert(enc_struct(tk, t) + Seq::<u8>::empty() =~= enc_struct(tk, t));
}

/// Transcoding what a tagged writer wrote, into Fast Binary or into the format it
/// was written in, gives a payload that parses to what the written payload parses
/// to: the struct in tagged form.
pub proof fn lemma_transcode_written(
    s: StructV,
    from: ProtocolType,
    from_version: u16,
    to: ProtocolType,
    to_version: u16,
)
    requires
        from == ProtocolType::Compact || from == ProtocolType::Fast,
        to == ProtocolType::Compact || to == ProtocolType::Fast,
        from == ProtocolType::Compact ==> (from_version == V1 || from_version == V2),
        to == ProtocolType::Compact ==> (to_version == V1 || to_version == V2),
        tagged_kind_of(to, to_version) == TaggedKind::Fast || tagged_kind_of(to, to_version) == tagged_kind_of(
            from,
            from_version,
        ),
        struct_fits(tagged_kind_of(from, from_version), s),
    ensures
        spec_parse(tagged_kind_of(from, from_version), enc_struct(tagged_kind_of(from, from_version), s))
            == Ok::<StructV, ErrorV>(tagged_struct(s)),
        spec_transcode(enc_struct(tagged_kind_of(from, from_version), s), from, from_version, to, to_version) matches Ok(
            out,
        ) && spec_parse(tagged_kind_of(to, to_version), out) == Ok::<StructV, ErrorV>(tagged_struct(s)),
{
    let fk = tagged_kind_of(from, from_version);
    let tk = tagged_kind_of(to, to_version);
    let b = enc_struct(fk, s);
    lemma_tagged_roundtrip(fk, s, Seq::empty());
    assert(b + Seq::<u8>::empty() =~= b);
    lemma_struct_fits_tagged(fk, tk, s);
    lemma_transcode_preserves(b, from, from_version, to, to_version);
}

} // verus!
