//! Exact wire-format vectors, hand-computed from the encoding rules, pinning
//! the byte layout of each protocol.

use bond::{compact, fast, marshal, ProtocolType};
use bond::{BondDataType, Struct, Value, V1, V2};

/// `{ 0: int32 = -5, 1: string = "hi" }`
fn sample() -> Struct {
    Struct::new().with_field(0, Value::Int32(-5)).with_field(1, Value::Str("hi".into()))
}

#[test]
fn compact_v1_field_header_and_zigzag() {
    let bytes = compact::write(&sample(), V1).unwrap();
    assert_eq!(bytes, vec![0x10, 0x09, 0x29, 0x02, 0x68, 0x69, 0x00], "compact v1 layout");
    assert_eq!(compact::parse(&bytes, V1).unwrap(), sample());
}

#[test]
fn compact_v2_struct_length_prefix() {
    let bytes = compact::write(&sample(), V2).unwrap();
    assert_eq!(bytes, vec![0x07, 0x10, 0x09, 0x29, 0x02, 0x68, 0x69, 0x00], "compact v2 layout");
    assert_eq!(compact::parse(&bytes, V2).unwrap(), sample());
}

#[test]
fn compact_v2_small_count_container() {
    let s = Struct::new().with_field(
        0,
        Value::List { element: BondDataType::Int8, items: vec![Value::Int8(1), Value::Int8(2), Value::Int8(3)] },
    );
    let bytes = compact::write(&s, V2).unwrap();
    let body = vec![0x0B, 0x8E, 0x01, 0x02, 0x03, 0x00];
    let mut expected = vec![body.len() as u8];
    expected.extend(body);
    assert_eq!(bytes, expected, "compact v2 small-count list");
    assert_eq!(compact::parse(&bytes, V2).unwrap(), s);
}

#[test]
fn compact_v1_large_count_container() {
    let s = Struct::new()
        .with_field(0, Value::List { element: BondDataType::Int8, items: (0..7).map(Value::Int8).collect() });
    let bytes = compact::write(&s, V1).unwrap();
    assert_eq!(bytes, vec![0x0B, 0x0E, 0x07, 0, 1, 2, 3, 4, 5, 6, 0x00]);
    assert_eq!(compact::parse(&bytes, V1).unwrap(), s);
}

#[test]
fn fast_fixed_width_layout() {
    let bytes = fast::write(&sample()).unwrap();
    assert_eq!(
        bytes,
        vec![
            0x10, 0x00, 0x00, 0xFB, 0xFF, 0xFF, 0xFF, // field0
            0x09, 0x01, 0x00, 0x02, 0x68, 0x69, // field1
            0x00, // stop
        ],
        "fast binary layout"
    );
    assert_eq!(fast::parse(&bytes).unwrap(), sample());
}

#[test]
fn compact_field_id_encodings() {
    let s = Struct::new().with_field(200, Value::Bool(true)).with_field(1000, Value::Bool(false));
    let bytes = compact::write(&s, V1).unwrap();
    assert_eq!(bytes, vec![0xC2, 0xC8, 0x01, 0xE2, 0xE8, 0x03, 0x00, 0x00]);
    assert_eq!(compact::parse(&bytes, V1).unwrap(), s);
}

#[test]
fn marshal_header_bytes() {
    let bytes = marshal(&sample(), ProtocolType::Compact, V2).unwrap();
    assert_eq!(&bytes[0..4], &[0x43, 0x42, 0x02, 0x00], "marshal header");
    let detected = bond::detect(&bytes).unwrap();
    assert_eq!(detected, (ProtocolType::Compact, V2));
}

#[test]
fn empty_struct_roundtrips() {
    let s = Struct::new();
    assert_eq!(compact::write(&s, V1).unwrap(), vec![0x00]);
    assert_eq!(compact::write(&s, V2).unwrap(), vec![0x01, 0x00]);
    assert_eq!(fast::write(&s).unwrap(), vec![0x00]);
}

#[test]
fn all_scalar_types_roundtrip_compact() {
    let s = Struct::new()
        .with_field(0, Value::Bool(true))
        .with_field(1, Value::UInt8(255))
        .with_field(2, Value::UInt16(65535))
        .with_field(3, Value::UInt32(4_000_000_000))
        .with_field(4, Value::UInt64(u64::MAX))
        .with_field(5, Value::Int8(-128))
        .with_field(6, Value::Int16(-32768))
        .with_field(7, Value::Int32(i32::MIN))
        .with_field(8, Value::Int64(i64::MIN))
        .with_field(9, Value::Float(3.5f32.to_bits()))
        .with_field(10, Value::Double((-2.25f64).to_bits()))
        .with_field(11, Value::WStr("héllo 🦀".into()));
    for &ver in &[V1, V2] {
        let bytes = compact::write(&s, ver).unwrap();
        assert_eq!(compact::parse(&bytes, ver).unwrap(), s, "v{ver}");
    }
    let bytes = fast::write(&s).unwrap();
    assert_eq!(fast::parse(&bytes).unwrap(), s);
}

#[test]
fn wstring_is_utf16_code_units() {
    // "é🦀": U+00E9 is one unit, U+1F980 a surrogate pair: three units in all.
    let s = Struct::new().with_field(0, Value::WStr("é🦀".into()));
    let bytes = fast::write(&s).unwrap();
    assert_eq!(bytes, vec![0x12, 0x00, 0x00, 0x03, 0xE9, 0x00, 0x3E, 0xD8, 0x80, 0xDD, 0x00]);
    assert_eq!(fast::parse(&bytes).unwrap(), s);
}

#[test]
fn compact_v2_nested_struct_has_its_own_prefix() {
    let inner = Struct::new().with_field(0, Value::UInt8(7));
    let s = Struct::new().with_field(3, Value::Struct(inner));
    let bytes = compact::write(&s, V2).unwrap();
    // outer body (6 bytes): header STRUCT(10) with id 3 = 0x6A, the inner struct
    // (length 3, then UINT8 id 0 = 0x03, 7, stop), stop
    assert_eq!(bytes, vec![0x06, 0x6A, 0x03, 0x03, 0x07, 0x00, 0x00]);
    assert_eq!(compact::parse(&bytes, V2).unwrap(), s);
}
