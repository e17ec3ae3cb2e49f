use asn1::{ObjectIdentifier, ParseError, ParseErrorKind};

#[test]
fn test_object_identifier_from_string() {
    for val in &[
        "",
        "1",
        "3.10",
        "1.50",
        "2.12.a3.4",
        "a.4",
        "1.a",
        ".2.5",
        "2..5",
        "2.5.",
        "1.3.6.1.4.1.1248.1.1.2.1.3.21.69.112.115.111.110.32.83.116.121.108.117.115.32.80.114.111.32.52.57.48.48.123.124412.31.213321.123.110.32.83.116.121.108.117.115.32.80.114.111.32.52.57.48.48.123.124412.31.213321.123",
    ] {
        assert_eq!(ObjectIdentifier::from_string(val), None);
    }

    for val in &[
        "2.5",
        "2.5.2",
        "1.2.840.113549",
        "1.2.3.4",
        "1.2.840.133549.1.1.5",
        "2.100.3",
    ] {
        assert!(ObjectIdentifier::from_string(val).is_some());
    }
}

#[test]
fn test_from_der() {
    assert_eq!(ObjectIdentifier::from_der(b"\x06\x40\x2b\x06\x01\x04\x01\x89\x60\x01\x01\x02\x01\x03\x15\x45\x70\x73\x6f\x6e\x20\x53\x74\x79\x6c\x75\x73\x20\x50\x72\x6f\x20\x34\x39\x30\x30\x7b\x87\xcb\x7c\x1f\x8d\x82\x49\x7b\x2b\x06\x01\x04\x01\x89\x60\x01\x01\x02\x01\x03\x15\x45\x70\x73\x6f\x6e\x20"), Err(ParseError::new(ParseErrorKind::OidTooLong)));
}

#[test]
fn test_to_string() {
    for val in &[
        "0.4",
        "2.5",
        "2.5.2",
        "1.2.840.113549",
        "1.2.3.4",
        "1.2.840.133549.1.1.5",
        "2.100.3",
    ] {
        assert_eq!(
            &ObjectIdentifier::from_string(val).unwrap().to_string(),
            val
        );
    }
}

#[test]
fn test_from_der_valid_round_trip() {
    // 1.2.840.113549 is 2a 86 48 86 f7 0d as DER content octets.
    let bytes: &[u8] = &[0x2a, 0x86, 0x48, 0x86, 0xf7, 0x0d];
    let oid = ObjectIdentifier::from_der(bytes).unwrap();
    assert_eq!(oid.as_der(), bytes);
    assert_eq!(oid.to_string(), "1.2.840.113549");
    let same = ObjectIdentifier::from_string("1.2.840.113549").unwrap();
    assert_eq!(oid, same);
}

#[test]
fn test_from_der_rejects_malformed() {
    // Empty content is invalid.
    assert_eq!(
        ObjectIdentifier::from_der(&[]),
        Err(ParseError::new(ParseErrorKind::InvalidValue))
    );
    // A trailing continuation byte leaves a truncated group.
    assert_eq!(
        ObjectIdentifier::from_der(&[0x2b, 0x80]),
        Err(ParseError::new(ParseErrorKind::InvalidValue))
    );
}

#[test]
fn test_from_der_unchecked() {
    let oid = ObjectIdentifier::from_der_unchecked(vec![0x2b, 0x06, 0x01]);
    assert_eq!(oid.as_der(), &[0x2b, 0x06, 0x01]);
    assert_eq!(oid.to_string(), "1.3.6.1");
}

#[test]
fn test_from_string_first_two_arc_limits() {
    // The first arc is at most 2; below 2 the second arc stays below 40.
    assert!(ObjectIdentifier::from_string("0.39").is_some());
    assert_eq!(ObjectIdentifier::from_string("0.40"), None);
    assert!(ObjectIdentifier::from_string("2.40").is_some());
    assert_eq!(ObjectIdentifier::from_string("3.1"), None);
    // Capacity: more content than 63 bytes is rejected.
    let long = format!("1.2{}", ".123456789".repeat(16));
    assert_eq!(ObjectIdentifier::from_string(&long), None);
}

#[test]
fn test_from_string_part_parsing() {
    // Each part is parsed as Rust parses a u32: a leading plus sign and
    // zero padding are accepted, and the canonical text comes back out.
    let oid = ObjectIdentifier::from_string("1.2.+840.0113549").unwrap();
    assert_eq!(oid.to_string(), "1.2.840.113549");
    // A part above the 32-bit range fails.
    assert_eq!(ObjectIdentifier::from_string("1.2.4294967296"), None);
    assert!(ObjectIdentifier::from_string("1.2.4294967295").is_some());
}
