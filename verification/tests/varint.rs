//! LEB128 and zig-zag codecs.

use bond::varint::{
    decode_u16, decode_u32, decode_u64, encode_u16, encode_u32, encode_u64, encoded_len_u64, first_terminator,
    zigzag_decode_i16, zigzag_decode_i32, zigzag_decode_i64, zigzag_encode_i16, zigzag_encode_i32, zigzag_encode_i64,
};
use bond::Error;

#[test]
fn roundtrip_varint() {
    let cases = [0u64, 1, 127, 128, 300, 16383, 16384, u32::MAX as u64, u64::MAX, 1 << 63];
    for &v in &cases {
        let mut buf = Vec::new();
        encode_u64(v, &mut buf);
        assert_eq!(buf.len(), encoded_len_u64(v), "len mismatch for {v}");
        let (decoded, n) = decode_u64(&buf).unwrap();
        assert_eq!(decoded, v);
        assert_eq!(n, buf.len());
    }
}

#[test]
fn zigzag_roundtrip() {
    for v in [0i64, -1, 1, -2, 2, i64::MIN, i64::MAX, -1234567, 7654321] {
        assert_eq!(zigzag_decode_i64(zigzag_encode_i64(v)), v);
    }
    for v in [0i32, -1, 1, i32::MIN, i32::MAX] {
        assert_eq!(zigzag_decode_i32(zigzag_encode_i32(v)), v);
    }
    for v in [0i16, -1, 1, i16::MIN, i16::MAX] {
        assert_eq!(zigzag_decode_i16(zigzag_encode_i16(v)), v);
    }
}

#[test]
fn overflow_detected() {
    // 11 continuation bytes -> overflow.
    let buf = vec![0x80u8; 11];
    assert_eq!(decode_u64(&buf), Err(Error::VarintOverflow));
}

#[test]
fn truncated_is_eof() {
    // High-bit-set bytes with no terminator and fewer than 10 bytes.
    let buf = vec![0x80u8, 0x80, 0x80];
    assert!(matches!(decode_u64(&buf), Err(Error::UnexpectedEof { .. })));
}

#[test]
fn known_encodings() {
    let mut buf = Vec::new();
    encode_u64(300, &mut buf);
    assert_eq!(buf, vec![0xAC, 0x02]);
    let mut buf = Vec::new();
    encode_u64(u64::MAX, &mut buf);
    assert_eq!(buf, vec![0xFF, 0xFF, 0xFF, 0xFF, 0xFF, 0xFF, 0xFF, 0xFF, 0xFF, 0x01]);
    assert_eq!(encoded_len_u64(0), 1);
    assert_eq!(encoded_len_u64(127), 1);
    assert_eq!(encoded_len_u64(128), 2);
    assert_eq!(encoded_len_u64(u64::MAX), 10);
}

#[test]
fn narrow_decoders_reject_out_of_range() {
    let mut buf = Vec::new();
    encode_u64(u32::MAX as u64 + 1, &mut buf);
    assert_eq!(decode_u32(&buf), Err(Error::VarintOverflow));
    let mut buf = Vec::new();
    encode_u64(70000, &mut buf);
    assert_eq!(decode_u16(&buf), Err(Error::VarintOverflow));
    let mut buf = Vec::new();
    encode_u32(u32::MAX, &mut buf);
    assert_eq!(decode_u32(&buf), Ok((u32::MAX, 5)));
    let mut buf = Vec::new();
    encode_u16(u16::MAX, &mut buf);
    assert_eq!(decode_u16(&buf), Ok((u16::MAX, 3)));
}

#[test]
fn decoding_stops_at_the_terminator() {
    assert_eq!(decode_u64(&[0x05, 0xFF, 0xFF]), Ok((5, 1)));
    assert!(matches!(decode_u64(&[]), Err(Error::UnexpectedEof { needed: 1, available: 0 })));
}

#[test]
fn ten_byte_encoding_with_large_last_byte_overflows() {
    let mut buf = vec![0xFFu8; 9];
    buf.push(0x02);
    assert_eq!(decode_u64(&buf), Err(Error::VarintOverflow));
}

#[test]
fn terminator_search() {
    for term_pos in 0..32usize {
        let mut buf = vec![0x80u8; 32];
        buf[term_pos] = 0x00;
        let expected = if term_pos < 10 { Some(term_pos) } else { None };
        assert_eq!(first_terminator(&buf), expected);
    }
    assert_eq!(first_terminator(&vec![0x80u8; 32]), None);
}

#[test]
fn zigzag_known_values() {
    assert_eq!(zigzag_encode_i64(0), 0);
    assert_eq!(zigzag_encode_i64(-1), 1);
    assert_eq!(zigzag_encode_i64(1), 2);
    assert_eq!(zigzag_encode_i64(-2), 3);
    assert_eq!(zigzag_encode_i64(i64::MIN), u64::MAX);
    assert_eq!(zigzag_encode_i32(-5), 9);
    assert_eq!(zigzag_encode_i16(i16::MAX), 65534);
}
