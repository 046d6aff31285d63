//! The byte cursor, the byte buffer, the type tags and the schema builders.

use bond::{BondDataType, Error, ListSubType, ProtocolType, Reader, TypeDef, Writer};

#[test]
fn type_codes_roundtrip() {
    for b in 0u8..=255 {
        match BondDataType::from_u8(b) {
            Ok(t) => assert_eq!(t.as_u8(), b),
            Err(e) => assert_eq!(e, Error::UnknownType(b)),
        }
    }
    assert_eq!(BondDataType::from_u8(127), Ok(BondDataType::Unavailable));
    assert_eq!(BondDataType::WString.as_u8(), 18);
    assert!(BondDataType::Double.is_basic());
    assert!(!BondDataType::String.is_basic());
    assert!(BondDataType::MapType.is_container());
    assert!(!BondDataType::Struct.is_container());
    assert!(BondDataType::WString.is_string());
    assert!(!BondDataType::Int8.is_string());
}

#[test]
fn protocol_magics_roundtrip() {
    for p in [
        ProtocolType::Marshaled,
        ProtocolType::Fast,
        ProtocolType::Compact,
        ProtocolType::SimpleJson,
        ProtocolType::Simple,
    ] {
        assert_eq!(ProtocolType::from_u16(p.magic()), Ok(p));
    }
    assert_eq!(ProtocolType::Compact.magic(), 0x4243);
    assert_eq!(ProtocolType::from_u16(0x1234), Err(Error::UnknownProtocol(0x1234)));
}

#[test]
fn reader_reads_little_endian_and_varints() {
    let bytes = [0x01u8, 0x34, 0x12, 0xAC, 0x02, 0x03, 0xFF, 0xFF, 0xFF, 0xFF];
    let mut r = Reader::new(&bytes);
    assert_eq!(r.peek_u8(), Ok(0x01));
    assert_eq!(r.read_bool(), Ok(true));
    assert_eq!(r.read_le_u16(), Ok(0x1234));
    assert_eq!(r.position(), 3);
    assert_eq!(r.read_varint_u32(), Ok(300));
    assert_eq!(r.read_zigzag_i16(), Ok(-2));
    assert_eq!(r.remaining(), 4);
    assert_eq!(r.rest(), &[0xFF, 0xFF, 0xFF, 0xFF]);
    assert_eq!(r.read_le_i32(), Ok(-1));
    assert!(r.is_empty());
    assert_eq!(r.read_u8(), Err(Error::UnexpectedEof { needed: 1, available: 0 }));
}

#[test]
fn reader_bytes_and_text() {
    let bytes = [b'h', b'i', 0x3E, 0xD8, 0x80, 0xDD, 9, 9];
    let mut r = Reader::new(&bytes);
    assert_eq!(r.read_utf8(2), Ok("hi"));
    assert_eq!(r.read_utf16(2), Ok("🦀".to_string()));
    assert_eq!(r.read_bytes(3), Err(Error::UnexpectedEof { needed: 3, available: 2 }));
    assert_eq!(r.skip_bytes(1), Ok(()));
    assert_eq!(r.read_i8(), Ok(9));
    let mut r = Reader::new(&[0x80, 0x80]);
    assert_eq!(r.read_varint_u64(), Err(Error::UnexpectedEof { needed: 3, available: 2 }));
}

#[test]
fn writer_appends_and_patches() {
    let mut w = Writer::new();
    assert!(w.is_empty());
    w.write_u8(1);
    w.write_le_u32(0xAABBCCDD);
    w.write_varint_u64(300);
    w.write_zigzag_i32(-3);
    w.write_bool(false);
    w.write_i8(-1);
    assert_eq!(w.as_bytes(), &[1, 0xDD, 0xCC, 0xBB, 0xAA, 0xAC, 0x02, 0x05, 0x00, 0xFF]);
    w.patch(1, &[9, 8]);
    assert_eq!(w.len(), 10);
    w.reserve(100);
    assert_eq!(w.into_bytes(), vec![1, 9, 8, 0xBB, 0xAA, 0xAC, 0x02, 0x05, 0x00, 0xFF]);
    let mut w = Writer::with_capacity(4);
    assert_eq!(w.write_utf16("a🦀"), 3);
    assert_eq!(w.as_bytes(), &[0x61, 0x00, 0x3E, 0xD8, 0x80, 0xDD]);
}

#[test]
fn schema_builders() {
    let l = TypeDef::list(TypeDef::scalar(BondDataType::Int8));
    assert_eq!(l.id, BondDataType::List);
    assert_eq!(l.sub_type, ListSubType::Plain);
    assert_eq!(l.element_type().unwrap().id, BondDataType::Int8);
    assert_eq!(l.key_type(), Err(Error::SchemaError("map is missing its key type".into())));
    let n = TypeDef::nullable(TypeDef::scalar(BondDataType::Bool));
    assert_eq!(n.sub_type, ListSubType::Nullable);
    let b = TypeDef::blob();
    assert_eq!(b.sub_type, ListSubType::Blob);
    assert_eq!(b.element_type().unwrap().id, BondDataType::Int8);
    let m = TypeDef::map(TypeDef::scalar(BondDataType::String), TypeDef::scalar(BondDataType::Double));
    assert_eq!(m.key_type().unwrap().id, BondDataType::String);
    assert_eq!(m.element_type().unwrap().id, BondDataType::Double);
    let bonded = TypeDef::bonded_ref(3);
    assert!(bonded.bonded_type);
    assert_eq!(bonded.struct_def, 3);
    assert_eq!(
        TypeDef::scalar(BondDataType::Int8).element_type(),
        Err(Error::SchemaError("container is missing its element type".into()))
    );
}

#[test]
fn failed_reads_leave_the_cursor_where_it_was() {
    let data = [1u8, 2, 3];
    let mut r = Reader::new(&data);
    r.read_u8().unwrap();
    assert_eq!(r.skip_bytes(5), Err(Error::UnexpectedEof { needed: 5, available: 2 }));
    assert_eq!(r.position(), 1);
    assert_eq!(r.read_bytes(3), Err(Error::UnexpectedEof { needed: 3, available: 2 }));
    assert_eq!(r.position(), 1);
    assert!(r.read_utf16(2).is_err());
    assert_eq!(r.position(), 1);
    assert!(matches!(r.read_utf16(usize::MAX), Err(Error::LengthOutOfBounds { .. })));
    assert_eq!(r.position(), 1);

    let unterminated = [0x80u8, 0x80];
    let mut v = Reader::new(&unterminated);
    assert!(v.read_varint_u64().is_err());
    assert_eq!(v.position(), 0);
}

#[test]
fn invalid_text_is_consumed() {
    // A lone high surrogate: its two bytes are read before decoding fails.
    let lone = [0x00u8, 0xD8, 0x41, 0x00];
    let mut r = Reader::new(&lone);
    assert_eq!(r.read_utf16(1), Err(Error::InvalidUtf16));
    assert_eq!(r.position(), 2);
    let bad = [0xFFu8, b'a'];
    let mut u = Reader::new(&bad);
    assert_eq!(u.read_utf8(1).map(|s| s.to_owned()), Err(Error::InvalidUtf8));
    assert_eq!(u.position(), 1);
}

#[test]
fn writes_read_back_in_order_after_other_bytes() {
    let mut w = Writer::new();
    w.write_u8(0xAB);
    w.write_zigzag_i32(-300);
    w.write_zigzag_i64(i64::MIN);
    w.write_zigzag_i16(i16::MAX);
    w.write_varint_u64(u64::MAX);
    w.write_varint_u32(128);
    w.write_varint_u16(0);
    w.write_le_u16(0xBEEF);
    w.write_le_u32(0xDEAD_BEEF);
    w.write_le_u64(0x0102_0304_0506_0708);
    let bytes = w.into_bytes();
    let mut r = Reader::new(&bytes);
    assert_eq!(r.read_u8(), Ok(0xAB));
    assert_eq!(r.read_zigzag_i32(), Ok(-300));
    assert_eq!(r.read_zigzag_i64(), Ok(i64::MIN));
    assert_eq!(r.read_zigzag_i16(), Ok(i16::MAX));
    assert_eq!(r.read_varint_u64(), Ok(u64::MAX));
    assert_eq!(r.read_varint_u32(), Ok(128));
    assert_eq!(r.read_varint_u16(), Ok(0));
    assert_eq!(r.read_le_u16(), Ok(0xBEEF));
    assert_eq!(r.read_le_u32(), Ok(0xDEAD_BEEF));
    assert_eq!(r.read_le_u64(), Ok(0x0102_0304_0506_0708));
    assert!(r.is_empty());
}
