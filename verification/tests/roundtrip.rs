//! Round trips through the tagged protocols, marshaling and transcoding.

use bond::{compact, fast, BondDataType, Field, ProtocolType, Struct, Value, V1, V2};

/// A value exercising every kind, with field names and the sub-kinds a tagged
/// reader cannot recover.
fn rich() -> Struct {
    let inner = Struct::new().with_field(0, Value::Str("inner".into())).with_field(9, Value::UInt64(1 << 40));
    Struct {
        fields: vec![
            Field::named(0, "flag", Value::Bool(false)),
            Field::new(1, Value::Struct(inner)),
            Field::new(
                6,
                Value::List {
                    element: BondDataType::List,
                    items: vec![
                        Value::List { element: BondDataType::Int32, items: vec![Value::Int32(-1)] },
                        Value::List { element: BondDataType::Int32, items: vec![] },
                    ],
                },
            ),
            Field::new(
                7,
                Value::SetOf { element: BondDataType::Int64, items: (0..9).map(|i| Value::Int64(-i)).collect() },
            ),
            Field::new(
                300,
                Value::MapOf {
                    key: BondDataType::String,
                    value: BondDataType::Double,
                    entries: vec![(Value::Str("k".into()), Value::Double(0.5f64.to_bits()))],
                },
            ),
            Field::new(8, Value::Nullable { element: BondDataType::Int16, value: Some(Box::new(Value::Int16(-2))) }),
            Field::new(10, Value::Nullable { element: BondDataType::Int16, value: None }),
            Field::new(4464, Value::Blob(vec![1, 0x80, 0xFF])),
        ],
    }
}

/// What a tagged reader gives back of `rich()`.
fn rich_tagged() -> Struct {
    let mut s = rich();
    for f in s.fields.iter_mut() {
        f.name = None;
    }
    s.fields[5].value = Value::List { element: BondDataType::Int16, items: vec![Value::Int16(-2)] };
    s.fields[6].value = Value::List { element: BondDataType::Int16, items: vec![] };
    s.fields[7].value =
        Value::List { element: BondDataType::Int8, items: vec![Value::Int8(1), Value::Int8(-128), Value::Int8(-1)] };
    s
}

#[test]
fn tagged_roundtrip_normalizes() {
    let value = rich();
    let expected = rich_tagged();
    for &ver in &[V1, V2] {
        let bytes = compact::write(&value, ver).unwrap();
        assert_eq!(compact::parse(&bytes, ver).unwrap(), expected, "compact v{ver}");
        assert!(compact::validate(&bytes, ver).is_ok());
    }
    let bytes = fast::write(&value).unwrap();
    assert_eq!(fast::parse(&bytes).unwrap(), expected, "fast");
    assert!(fast::validate(&bytes).is_ok());
}

#[test]
fn trailing_bytes_are_not_read() {
    let mut bytes = compact::write(&rich(), V2).unwrap();
    bytes.extend([0xAA, 0xBB]);
    assert_eq!(compact::parse(&bytes, V2).unwrap(), rich_tagged());
}

#[test]
fn marshal_unmarshal_tagged_rich() {
    let value = rich();
    let expected = rich_tagged();
    for (proto, ver) in [(ProtocolType::Compact, V1), (ProtocolType::Compact, V2), (ProtocolType::Fast, V1)] {
        let bytes = bond::marshal(&value, proto, ver).unwrap();
        let out = bond::unmarshal(&bytes).unwrap();
        assert_eq!(out.protocol, proto);
        assert_eq!(out.version, ver);
        assert_eq!(out.value, expected, "{proto:?} v{ver}");
        let any = bond::parse_any(&bytes, None).unwrap();
        assert_eq!(any.protocol, proto);
    }
}

#[test]
fn transcode_compact_to_fast_rich() {
    let compact_bytes = compact::write(&rich(), V2).unwrap();
    let fast_bytes =
        bond::transcode_tagged(&compact_bytes, ProtocolType::Compact, V2, ProtocolType::Fast, V1).unwrap();
    assert_eq!(fast::parse(&fast_bytes).unwrap(), compact::parse(&compact_bytes, V2).unwrap());
    let back = bond::transcode_tagged(&fast_bytes, ProtocolType::Fast, V1, ProtocolType::Compact, V1).unwrap();
    assert_eq!(compact::parse(&back, V1).unwrap(), rich_tagged());
    assert_eq!(
        bond::transcode_tagged(&fast_bytes, ProtocolType::Simple, V1, ProtocolType::Fast, V1),
        Err(bond::Error::SchemaRequired)
    );
}

#[test]
fn validate_agrees_with_parse_on_truncation() {
    let bytes = compact::write(&rich(), V2).unwrap();
    assert!(compact::validate(&bytes, V2).is_ok());
    for cut in 0..bytes.len() {
        assert!(compact::validate(&bytes[..cut], V2).is_err(), "cut at {cut}");
        assert!(compact::parse(&bytes[..cut], V2).is_err(), "cut at {cut}");
    }
    let fast_bytes = fast::write(&rich()).unwrap();
    for cut in 0..fast_bytes.len() {
        assert!(fast::validate(&fast_bytes[..cut]).is_err());
    }
}

#[test]
fn every_strict_prefix_of_a_compact_v1_or_fast_payload_is_refused() {
    let v1 = compact::write(&rich(), V1).unwrap();
    for cut in 0..v1.len() {
        assert!(compact::validate(&v1[..cut], V1).is_err(), "cut at {cut}");
        assert!(compact::parse(&v1[..cut], V1).is_err(), "cut at {cut}");
    }
    let fast_bytes = fast::write(&rich()).unwrap();
    for cut in 0..fast_bytes.len() {
        assert!(fast::parse(&fast_bytes[..cut]).is_err(), "cut at {cut}");
    }
}

#[test]
fn struct_accessors() {
    let s = rich();
    assert_eq!(s.get(0), Some(&Value::Bool(false)));
    assert_eq!(s.get(2), None);
    assert_eq!(s.get_by_name("flag"), Some(&Value::Bool(false)));
    assert_eq!(s.get_by_name("nope"), None);
    assert_eq!(s.fields[1].value.type_of(), BondDataType::Struct);
    assert_eq!(Value::Blob(vec![]).type_of(), BondDataType::List);
    assert_eq!(Value::Bonded(vec![]).type_of(), BondDataType::Struct);
}
