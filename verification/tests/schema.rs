use asn1::errors::ParseErrorKind;
use asn1::schema::{
    decode_choice, decode_record, encode_choice, encode_record, Element, FieldSchema, TagMode,
    VariantSchema,
};
use asn1::tag::{BOOLEAN_TAG, INTEGER_TAG, OCTET_STRING_TAG};

fn bool_field(name: &str, default: Option<bool>) -> FieldSchema {
    FieldSchema {
        name: name.to_string(),
        mode: TagMode::Regular,
        tag: BOOLEAN_TAG,
        required: default.is_none(),
        default: default.map(|b| Element {
            tag: BOOLEAN_TAG,
            content: vec![if b { 0xff } else { 0x00 }],
        }),
    }
}

#[test]
fn test_record_round_trip() {
    let fields = vec![
        FieldSchema {
            name: "serial".to_string(),
            mode: TagMode::Regular,
            tag: INTEGER_TAG,
            required: true,
            default: None,
        },
        FieldSchema {
            name: "data".to_string(),
            mode: TagMode::Explicit(0),
            tag: OCTET_STRING_TAG,
            required: true,
            default: None,
        },
        FieldSchema {
            name: "extra".to_string(),
            mode: TagMode::Implicit(1),
            tag: OCTET_STRING_TAG,
            required: false,
            default: None,
        },
    ];
    let values = vec![
        Some(Element { tag: INTEGER_TAG, content: vec![0x05] }),
        Some(Element { tag: OCTET_STRING_TAG, content: vec![0xde, 0xad] }),
        Some(Element { tag: OCTET_STRING_TAG, content: vec![0x07] }),
    ];
    let bytes = encode_record(&fields, &values);
    assert_eq!(
        bytes,
        vec![
            0x30, 0x0c, // SEQUENCE of twelve bytes
            0x02, 0x01, 0x05, // INTEGER 5
            0xa0, 0x04, 0x04, 0x02, 0xde, 0xad, // [0] EXPLICIT OCTET STRING
            0x81, 0x01, 0x07, // [1] IMPLICIT OCTET STRING
        ]
    );
    let decoded = decode_record(&bytes, "Cert", &fields).unwrap();
    assert_eq!(decoded.len(), 3);
    assert!(decoded[0].as_ref().unwrap().eq_element(values[0].as_ref().unwrap()));
    assert!(decoded[1].as_ref().unwrap().eq_element(values[1].as_ref().unwrap()));
    assert!(decoded[2].as_ref().unwrap().eq_element(values[2].as_ref().unwrap()));
    // And re-encoding the decoded values gives the same bytes back.
    let decoded_owned: Vec<Option<Element>> = decoded;
    assert_eq!(encode_record(&fields, &decoded_owned), bytes);
}

#[test]
fn test_record_optional_absent() {
    let fields = vec![
        FieldSchema {
            name: "serial".to_string(),
            mode: TagMode::Regular,
            tag: INTEGER_TAG,
            required: true,
            default: None,
        },
        FieldSchema {
            name: "extra".to_string(),
            mode: TagMode::Implicit(1),
            tag: OCTET_STRING_TAG,
            required: false,
            default: None,
        },
    ];
    let bytes = [0x30u8, 0x03, 0x02, 0x01, 0x2a];
    let decoded = decode_record(&bytes, "Rec", &fields).unwrap();
    assert_eq!(decoded[0].as_ref().unwrap().content, vec![0x2a]);
    assert!(decoded[1].is_none());
}

#[test]
fn test_default_field() {
    // A boolean field defaulting to false.
    let fields = vec![bool_field("critical", Some(false))];
    // The input omits the optional unit: the field decodes to the default.
    let decoded = decode_record(&[0x30, 0x00], "Ext", &fields).unwrap();
    let got = decoded[0].as_ref().unwrap();
    assert_eq!(got.tag, BOOLEAN_TAG);
    assert_eq!(got.content, vec![0x00]);
    // Encoding a value equal to the default goes through the optional-write
    // path, whose declared output suppresses it: the record holds no unit.
    let bytes = encode_record(&fields, &decoded);
    assert_eq!(bytes, vec![0x30, 0x00]);
    // A value differing from the default is written.
    let values = vec![Some(Element { tag: BOOLEAN_TAG, content: vec![0xff] })];
    let bytes = encode_record(&fields, &values);
    assert_eq!(bytes, vec![0x30, 0x03, 0x01, 0x01, 0xff]);
}

#[test]
fn test_union_dispatch_order() {
    // Two variants whose resolved tags collide: both implicit number 0 over
    // primitive types resolve to 0x80.  Dispatch must route to the first.
    let variants = vec![
        VariantSchema {
            name: "AsInt".to_string(),
            mode: TagMode::Implicit(0),
            tag: INTEGER_TAG,
        },
        VariantSchema {
            name: "AsBytes".to_string(),
            mode: TagMode::Implicit(0),
            tag: OCTET_STRING_TAG,
        },
    ];
    let data = [0x80u8, 0x01, 0x2a];
    let (chosen, element) = decode_choice(&data, "Value", &variants).unwrap();
    assert_eq!(chosen, 0);
    assert_eq!(element.tag, INTEGER_TAG);
    assert_eq!(element.content, vec![0x2a]);
    // A unit matching neither variant fails with the tag it carried.
    let data = [0x85u8, 0x01, 0x2a];
    let e = decode_choice(&data, "Value", &variants).unwrap_err();
    assert_eq!(e.kind(), ParseErrorKind::UnexpectedTag { actual: 0x85 });
}

#[test]
fn test_union_round_trip() {
    let variants = vec![
        VariantSchema {
            name: "Num".to_string(),
            mode: TagMode::Regular,
            tag: INTEGER_TAG,
        },
        VariantSchema {
            name: "Wrapped".to_string(),
            mode: TagMode::Explicit(2),
            tag: BOOLEAN_TAG,
        },
    ];
    let e = Element { tag: BOOLEAN_TAG, content: vec![0xff] };
    let bytes = encode_choice(&variants, 1, &e);
    assert_eq!(bytes, vec![0xa2, 0x03, 0x01, 0x01, 0xff]);
    let (chosen, back) = decode_choice(&bytes, "Either", &variants).unwrap();
    assert_eq!(chosen, 1);
    assert!(back.eq_element(&e));
}

#[test]
fn test_error_location_path() {
    let fields = vec![FieldSchema {
        name: "serial".to_string(),
        mode: TagMode::Regular,
        tag: INTEGER_TAG,
        required: true,
        default: None,
    }];
    // The field's unit carries the wrong tag.
    let bytes = [0x30u8, 0x03, 0x04, 0x01, 0x2a];
    let e = decode_record(&bytes, "Cert", &fields).unwrap_err();
    assert_eq!(e.kind(), ParseErrorKind::UnexpectedTag { actual: 0x04 });
    assert_eq!(e.path_string(), "Cert::serial");
}

#[test]
fn test_record_trailing_byte_rejected() {
    // The record alone decodes, but a trailing byte breaks exact
    // consumption.
    let fields = vec![bool_field("flag", None)];
    let good = [0x30u8, 0x03, 0x01, 0x01, 0xff];
    assert!(decode_record(&good, "Rec", &fields).is_ok());
    let bad = [0x30u8, 0x03, 0x01, 0x01, 0xff, 0x00];
    let e = decode_record(&bad, "Rec", &fields).unwrap_err();
    assert_eq!(e.kind(), ParseErrorKind::ExtraData);
}
