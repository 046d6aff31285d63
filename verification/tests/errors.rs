//! Malformed input yields an `Err`, never a panic, and the error variant
//! reflects the failure.

use bond::{compact, fast, BondDataType, Error, ProtocolType, Struct, Value, V1, V2};

#[test]
fn truncated_compact_is_eof() {
    let bytes = [0x10u8]; // INT32, id 0, and no value
    match compact::parse(&bytes, V1) {
        Err(Error::UnexpectedEof { .. }) => {},
        other => panic!("expected EOF, got {other:?}"),
    }
}

#[test]
fn unknown_type_byte_is_rejected() {
    let bytes = [19u8, 0x00];
    match compact::parse(&bytes, V1) {
        Err(Error::UnknownType(19)) => {},
        other => panic!("expected UnknownType, got {other:?}"),
    }
}

#[test]
fn varint_overflow_is_rejected() {
    let mut bytes = vec![0x05u8]; // UINT32, id 0
    bytes.extend(std::iter::repeat(0x80).take(11));
    match compact::parse(&bytes, V1) {
        Err(Error::VarintOverflow) => {},
        other => panic!("expected VarintOverflow, got {other:?}"),
    }
}

#[test]
fn huge_string_length_is_bounded() {
    let mut bytes = vec![0x09u8];
    bond::varint::encode_u32(1_000_000, &mut bytes);
    match compact::parse(&bytes, V1) {
        Err(Error::UnexpectedEof { .. }) => {},
        other => panic!("expected EOF for oversized string, got {other:?}"),
    }
}

#[test]
fn depth_limit_protects_against_nesting_bombs() {
    let mut v = Value::Bool(true);
    for _ in 0..(bond::DEFAULT_MAX_DEPTH + 50) {
        v = Value::Struct(Struct::new().with_field(0, v));
    }
    let root = Struct::new().with_field(0, v);
    let bytes = compact::write(&root, V1).unwrap();
    match compact::parse(&bytes, V1) {
        Err(Error::DepthLimitExceeded(_)) => {},
        other => panic!("expected DepthLimitExceeded, got {other:?}"),
    }
}

#[test]
fn fast_truncated_field_id_is_eof() {
    let bytes = [0x10u8, 0x00];
    assert!(matches!(fast::parse(&bytes), Err(Error::UnexpectedEof { .. })));
}

#[test]
fn unsupported_version_is_rejected() {
    let s = Struct::new().with_field(0, Value::Int32(1));
    let bytes = compact::write(&s, V2).unwrap();
    match compact::parse(&bytes, 7) {
        Err(Error::UnsupportedVersion { .. }) => {},
        other => panic!("expected UnsupportedVersion, got {other:?}"),
    }
}

#[test]
fn invalid_utf8_string_is_rejected() {
    let bytes = [0x09u8, 0x02, 0xFF, 0xFF, 0x00];
    match compact::parse(&bytes, V1) {
        Err(Error::InvalidUtf8) => {},
        other => panic!("expected InvalidUtf8, got {other:?}"),
    }
}

#[test]
fn unknown_protocol_magic_is_rejected() {
    let bytes = [0xEE, 0xEE, 0x01, 0x00, 0x00];
    assert!(matches!(bond::unmarshal(&bytes), Err(Error::UnknownProtocol(_))));
}

#[test]
fn empty_input_is_eof_not_panic() {
    assert!(compact::parse(&[], V1).is_err());
    assert!(fast::parse(&[]).is_err());
}

#[test]
fn exact_eof_counts() {
    assert_eq!(compact::parse(&[0x10u8], V1), Err(Error::UnexpectedEof { needed: 1, available: 0 }));
    assert_eq!(fast::parse(&[0x10u8, 0x00]), Err(Error::UnexpectedEof { needed: 2, available: 1 }));
    assert_eq!(fast::parse(&[]), Err(Error::UnexpectedEof { needed: 1, available: 0 }));
}

#[test]
fn unpaired_surrogate_is_invalid_utf16() {
    // WSTRING field id 0, one code unit 0xD800 (a lone high surrogate).
    let bytes = [0x12u8, 0x01, 0x00, 0xD8, 0x00];
    assert_eq!(compact::parse(&bytes, V1), Err(Error::InvalidUtf16));
}

#[test]
fn control_type_as_value_is_a_message() {
    // A list whose element type is STOP_BASE, with one element.
    let bytes = [0x0Bu8, 0x01, 0x01, 0x00];
    match compact::parse(&bytes, V1) {
        Err(Error::Message(m)) => assert!(m.contains("where a value was expected")),
        other => panic!("expected Message, got {other:?}"),
    }
    match compact::validate(&bytes, V1) {
        Err(Error::Message(m)) => assert!(m.contains("while skipping")),
        other => panic!("expected Message, got {other:?}"),
    }
}

#[test]
fn writer_versions_are_checked() {
    let s = Struct::new();
    assert_eq!(
        compact::write(&s, 3),
        Err(Error::UnsupportedVersion { protocol: bond::ProtocolType::Compact, version: 3 })
    );
    assert!(compact::CompactWriter::new(0).is_err());
    assert!(compact::CompactReader::new(&[], 9).is_err());
}

#[test]
fn unmarshal_errors() {
    assert_eq!(bond::unmarshal(&[0x43]), Err(Error::UnknownProtocol(0)));
    assert_eq!(bond::unmarshal(&[0x53, 0x50, 0x01, 0x00]), Err(Error::SchemaRequired));
    assert_eq!(
        bond::unmarshal(&[0x4D, 0x46, 0x02, 0x00, 0x00]),
        Err(Error::UnsupportedVersion { protocol: bond::ProtocolType::Fast, version: 2 })
    );
    assert_eq!(
        bond::marshal(&Struct::new(), bond::ProtocolType::Simple, V1),
        Err(Error::SchemaRequired)
    );
    assert_eq!(
        bond::marshal(&Struct::new(), bond::ProtocolType::Marshaled, V1),
        Err(Error::UnknownProtocol(0))
    );
}

#[test]
fn error_messages_read_as_text() {
    let cases: Vec<(Error, &str)> = vec![
        (
            Error::UnexpectedEof { needed: 4, available: 1 },
            "unexpected end of input: needed 4 byte(s) but only 1 available",
        ),
        (Error::UnknownType(200), "unknown Bond data type 200"),
        (Error::UnknownProtocol(0x4a5), "unknown protocol magic 0x04a5"),
        (Error::UnknownProtocol(0xBEEF), "unknown protocol magic 0xbeef"),
        (
            Error::UnsupportedVersion { protocol: ProtocolType::Compact, version: 7 },
            "unsupported version 7 for protocol Compact",
        ),
        (Error::VarintOverflow, "variable-length integer overflow (corrupt data)"),
        (Error::InvalidUtf8, "string is not valid UTF-8"),
        (Error::InvalidUtf16, "wstring is not valid UTF-16"),
        (Error::DepthLimitExceeded(64), "recursion depth limit (64) exceeded"),
        (
            Error::LengthOutOfBounds { declared: 1000, available: 0 },
            "declared length 1000 exceeds 0 available byte(s)",
        ),
        (Error::SchemaRequired, "this operation requires a schema"),
        (Error::SchemaError("bad".into()), "schema error: bad"),
        (
            Error::TypeMismatch { expected: BondDataType::Int32, actual: BondDataType::WString },
            "type mismatch: expected Int32, found WString",
        ),
        (Error::Json("eof".into()), "Simple JSON error: eof"),
        (Error::Message("plain ünïcode".into()), "plain ünïcode"),
    ];
    for (e, want) in cases {
        assert_eq!(e.message(), want);
    }
}

#[test]
fn decimal_digits_of_large_lengths() {
    let e = Error::UnexpectedEof { needed: usize::MAX, available: 0 };
    assert_eq!(
        e.message(),
        format!("unexpected end of input: needed {} byte(s) but only 0 available", usize::MAX)
    );
}

#[test]
fn set_and_map_types_are_named_set_and_map() {
    let e = Error::TypeMismatch { expected: BondDataType::SetType, actual: BondDataType::MapType };
    assert_eq!(e.message(), "type mismatch: expected Set, found Map");
}
