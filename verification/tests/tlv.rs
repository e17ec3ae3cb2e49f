use asn1::errors::ParseErrorKind;
use asn1::parser::{parse_tlv, Parser};
use asn1::tag::{explicit_tag, implicit_tag, BOOLEAN_TAG, OCTET_STRING_TAG, SEQUENCE_TAG};
use asn1::writer::Writer;

#[test]
fn test_tag_arithmetic() {
    // Explicit tags are always constructed; implicit tags copy the wrapped
    // type's constructed bit, and BOOLEAN is primitive, so the two differ.
    assert_eq!(explicit_tag(5), 0xa5);
    assert_eq!(implicit_tag(5, BOOLEAN_TAG), 0x85);
    assert_ne!(explicit_tag(5), implicit_tag(5, BOOLEAN_TAG));
    // SEQUENCE is constructed, so its implicit form keeps the bit.
    assert_eq!(implicit_tag(3, SEQUENCE_TAG), 0xa3);
}

#[test]
fn test_write_then_parse_short_form() {
    let mut w = Writer::new();
    w.write_tlv(OCTET_STRING_TAG, &[1, 2, 3]);
    let bytes = w.into_bytes();
    assert_eq!(bytes, vec![0x04, 0x03, 1, 2, 3]);
    let tlv = parse_tlv(&bytes).unwrap();
    assert_eq!(tlv.tag(), OCTET_STRING_TAG);
    assert_eq!(tlv.data(), &[1, 2, 3]);
    assert_eq!(tlv.full_data(), &bytes[..]);
}

#[test]
fn test_write_then_parse_long_form() {
    let content = vec![0xabu8; 200];
    let mut w = Writer::new();
    w.write_tlv(OCTET_STRING_TAG, &content);
    let bytes = w.into_bytes();
    assert_eq!(bytes[0], 0x04);
    assert_eq!(bytes[1], 0x81);
    assert_eq!(bytes[2], 200);
    assert_eq!(&bytes[3..], &content[..]);
    let tlv = parse_tlv(&bytes).unwrap();
    assert_eq!(tlv.tag(), OCTET_STRING_TAG);
    assert_eq!(tlv.data(), &content[..]);
}

#[test]
fn test_write_two_byte_length() {
    let content = vec![0x55u8; 300];
    let mut w = Writer::new();
    w.write_tlv(OCTET_STRING_TAG, &content);
    let bytes = w.into_bytes();
    assert_eq!(&bytes[..4], &[0x04, 0x82, 0x01, 0x2c]);
    let tlv = parse_tlv(&bytes).unwrap();
    assert_eq!(tlv.data(), &content[..]);
}

#[test]
fn test_length_canonicality() {
    // Long form where short form suffices: 0x81 0x05 announcing five bytes.
    let data = [0x04u8, 0x81, 0x05, 1, 2, 3, 4, 5];
    let e = parse_tlv(&data).unwrap_err();
    assert_eq!(e.kind(), ParseErrorKind::InvalidValue);
    // Long form with a leading zero byte.
    let data = [0x04u8, 0x82, 0x00, 0x80, 0u8, 0, 0, 0];
    let e = parse_tlv(&data).unwrap_err();
    assert_eq!(e.kind(), ParseErrorKind::InvalidValue);
    // The reserved indefinite-length marker.
    let data = [0x30u8, 0xff, 0x00];
    let e = parse_tlv(&data).unwrap_err();
    assert_eq!(e.kind(), ParseErrorKind::InvalidValue);
    // 0x80 announces zero length bytes: also forbidden.
    let data = [0x30u8, 0x80, 0x00];
    let e = parse_tlv(&data).unwrap_err();
    assert_eq!(e.kind(), ParseErrorKind::InvalidValue);
}

#[test]
fn test_truncated_input() {
    let e = parse_tlv(&[0x04]).unwrap_err();
    assert_eq!(e.kind(), ParseErrorKind::ShortData);
    // The announced content runs past the end of the buffer.
    let e = parse_tlv(&[0x04, 0x03, 1, 2]).unwrap_err();
    assert_eq!(e.kind(), ParseErrorKind::ShortData);
}

#[test]
fn test_exact_consumption() {
    // A complete unit followed by one extra byte must fail.
    let data = [0x04u8, 0x01, 0x2a, 0x00];
    let e = parse_tlv(&data).unwrap_err();
    assert_eq!(e.kind(), ParseErrorKind::ExtraData);
}

#[test]
fn test_parser_cursor() {
    let data = [0x01u8, 0x01, 0xff, 0x02, 0x01, 0x05];
    let mut p = Parser::new(&data);
    let a = p.read_tlv().unwrap();
    assert_eq!(a.tag(), 0x01);
    assert_eq!(a.data(), &[0xff]);
    let b = p.read_element(0x02).unwrap();
    assert_eq!(b.data(), &[0x05]);
    assert!(p.is_empty());
}

#[test]
fn test_read_element_tag_mismatch() {
    let data = [0x01u8, 0x01, 0xff];
    let mut p = Parser::new(&data);
    let e = p.read_element(0x02).unwrap_err();
    assert_eq!(e.kind(), ParseErrorKind::UnexpectedTag { actual: 0x01 });
    // The cursor did not move: the unit can still be read with its own tag.
    let tlv = p.read_element(0x01).unwrap();
    assert_eq!(tlv.data(), &[0xff]);
}
