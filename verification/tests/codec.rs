use galacticbuf::value::{
    DecodeError, FieldName, FieldValue, Header, List, Message, Object, StringValue,
};

fn name(text: &str) -> FieldName {
    FieldName { bytes: text.as_bytes().to_vec() }
}

fn string_value(text: &str) -> FieldValue {
    FieldValue::String(StringValue { bytes: text.as_bytes().to_vec() })
}

fn simple() -> (Message, Vec<u8>) {
    // Message: `user_id=1001, name="Alice", scores=[100, 200, 300]`
    let message = Message {
        header: Header { version: 0x01, field_count: 3, length: 69 },
        body: vec![
            (name("user_id"), FieldValue::Integer(1001)),
            (name("name"), string_value("Alice")),
            (name("scores"), FieldValue::List(List::Integers(vec![100, 200, 300]))),
        ],
    };
    let binary_message: [u8; 69] = [
        // Header (4 bytes):
        0x01, //      - Protocol version
        0x03, //      - 3 fields
        0x00, 0x45, //  - Total length: 69 bytes
        // Field 1 - user_id (integer):
        0x07, //          - Name length: 7
        0x75, 0x73, 0x65, 0x72, 0x5F, 0x69, 0x64, // - "user_id" in UTF-8
        0x01, //          - Type: Integer
        0x00, 0x00, 0x00, 0x00, 0x00, 0x00, 0x03, 0xE9, // - Value: 1001 (64-bit)
        // Field 2 - name (string):
        0x04, //                  - Name length: 4
        0x6E, 0x61, 0x6D, 0x65, //  - "name" in UTF-8
        0x02, //                  - Type: String
        0x00, 0x05, //              - String length: 5
        0x41, 0x6C, 0x69, 0x63, 0x65, // - "Alice" in UTF-8
        // Field 3 - scores (list of integers):
        0x06, //              - Name length: 6
        0x73, 0x63, 0x6F, 0x72, 0x65, 0x73, // - "scores" in UTF-8
        0x03, //              - Type: List
        0x01, //              - Element type: Integer
        0x00, 0x03, //          - Element count: 3
        0x00, 0x00, 0x00, 0x00, 0x00, 0x00, 0x00, 0x64, // - 100
        0x00, 0x00, 0x00, 0x00, 0x00, 0x00, 0x00, 0xC8, // - 200
        0x00, 0x00, 0x00, 0x00, 0x00, 0x00, 0x01, 0x2C, // - 300
    ];
    (message, binary_message.to_vec())
}

fn nested() -> (Message, Vec<u8>) {
    // Message: `timestamp=1698765432, trades=[{id:1, price:100}, {id:2, price:200}]`
    let message = Message {
        header: Header { version: 0x01, field_count: 2, length: 90 },
        body: vec![
            (name("timestamp"), FieldValue::Integer(1698765432)),
            (
                name("trades"),
                FieldValue::List(List::Objects(vec![
                    Object {
                        fields: vec![
                            (name("id"), FieldValue::Integer(1)),
                            (name("price"), FieldValue::Integer(100)),
                        ],
                    },
                    Object {
                        fields: vec![
                            (name("id"), FieldValue::Integer(2)),
                            (name("price"), FieldValue::Integer(200)),
                        ],
                    },
                ])),
            ),
        ],
    };
    let binary_message: [u8; 90] = [
        // Header (4 bytes):
        0x01, //        - Protocol version
        0x02, //        - 2 fields
        0x00, 0x5a, //  - Total length: 90 bytes
        // Field 1 - timestamp (integer):
        0x09, //        - Name length: 9
        0x74, 0x69, 0x6D, 0x65, 0x73, 0x74, 0x61, 0x6D, 0x70, // - "timestamp" in UTF-8
        0x01, //        - Type: Integer
        0x00, 0x00, 0x00, 0x00, 0x65, 0x41, 0x1A, 0x78, //  - Value: 1698765432
        // Field 2 - trades (list of objects):
        0x06, //        - Name length: 6
        0x74, 0x72, 0x61, 0x64, 0x65, 0x73, //  - "trades" in UTF-8
        0x03, //        - Type: List
        0x04, //        - Element type: Object
        0x00, 0x02, //  - Element count: 2
        // Object 1:
        0x02, //        - Field count: 2
        0x02, //        - Name length: 2
        0x69, 0x64, //  - "id" in UTF-8
        0x01, //        - Type: Integer
        0x00, 0x00, 0x00, 0x00, 0x00, 0x00, 0x00, 0x01, //  - Value: 1
        0x05, //        - Name length: 5
        0x70, 0x72, 0x69, 0x63, 0x65, //    - "price" in UTF-8
        0x01, //       - Type: Integer
        0x00, 0x00, 0x00, 0x00, 0x00, 0x00, 0x00, 0x64, //  - Value: 100
        // Object 2:
        0x02, //        - Field count: 2
        0x02, //        - Name length: 2
        0x69, 0x64, //  - "id" in UTF-8
        0x01, //        - Type: Integer
        0x00, 0x00, 0x00, 0x00, 0x00, 0x00, 0x00, 0x02, //  - Value: 2
        0x05, //        - Name length: 5
        0x70, 0x72, 0x69, 0x63, 0x65, //    - "price" in UTF-8
        0x01, //        - Type: Integer
        0x00, 0x00, 0x00, 0x00, 0x00, 0x00, 0x00, 0xC8, //  - Value: 200
    ];
    (message, binary_message.to_vec())
}

#[test]
fn simple_message() {
    let (message, binary_message) = simple();
    let (deserialized_message, end) = Message::deserialize(&binary_message).unwrap();
    assert_eq!(binary_message.len() - end, 0);
    assert_eq!(message, deserialized_message)
}

#[test]
fn list_of_objects() {
    let (message, binary_message) = nested();
    let (deserialized_message, end) = Message::deserialize(&binary_message).unwrap();
    assert_eq!(binary_message.len() - end, 0);
    assert_eq!(message, deserialized_message)
}

#[test]
fn flat_record_encodes_exactly() {
    let (message, binary_message) = simple();
    assert_eq!(message.serialize(), binary_message);
}

#[test]
fn nested_record_encodes_exactly() {
    let (message, binary_message) = nested();
    assert_eq!(message.serialize(), binary_message);
}

#[test]
fn round_trip_consumes_everything() {
    let (message, _) = nested();
    let encoded = message.serialize();
    let (decoded, end) = Message::deserialize(&encoded).unwrap();
    assert_eq!(end, encoded.len());
    assert_eq!(decoded, message);
}

#[test]
fn trailing_bytes_left_untouched() {
    let (message, binary_message) = simple();
    let mut buffer = binary_message.clone();
    buffer.extend_from_slice(&[0xDE, 0xAD, 0xBE, 0xEF]);
    let (decoded, end) = Message::deserialize(&buffer).unwrap();
    assert_eq!(end, binary_message.len());
    assert_eq!(buffer.len() - end, 4);
    assert_eq!(decoded, message);
}

#[test]
fn truncation_always_fails_safely() {
    let (_, binary_message) = simple();
    for k in 0..binary_message.len() {
        let prefix: Vec<u8> = binary_message[..k].to_vec();
        let err = Message::deserialize(&prefix).unwrap_err();
        if k < 4 {
            assert_eq!(err, DecodeError::TruncatedBuffer);
        } else {
            assert_eq!(err, DecodeError::BufferTooShort { declared: 69, available: k });
        }
    }
}

#[test]
fn version_gate() {
    let (_, mut buffer) = simple();
    buffer[0] = 0x02;
    let err = Message::deserialize(&buffer).unwrap_err();
    assert_eq!(err, DecodeError::UnsupportedVersion { found: 0x02 });
}

#[test]
fn unknown_field_value_tag() {
    // One field named "a" whose value tag 0x05 matches no variant.
    let buffer: Vec<u8> = vec![0x01, 0x01, 0x00, 0x07, 0x01, 0x61, 0x05];
    let err = Message::deserialize(&buffer).unwrap_err();
    assert_eq!(err, DecodeError::UnknownTypeTag { tag: 0x05 });
}

#[test]
fn unknown_list_element_tag() {
    // One field named "a" holding a list whose element tag 0x03 (List) is
    // not a valid element type.
    let buffer: Vec<u8> = vec![0x01, 0x01, 0x00, 0x0A, 0x01, 0x61, 0x03, 0x03, 0x00, 0x00];
    let err = Message::deserialize(&buffer).unwrap_err();
    assert_eq!(err, DecodeError::UnknownTypeTag { tag: 0x03 });
}

#[test]
fn invalid_utf8_name_rejected() {
    let buffer: Vec<u8> = vec![0x01, 0x01, 0x00, 0x06, 0x01, 0xFF];
    let err = Message::deserialize(&buffer).unwrap_err();
    assert_eq!(err, DecodeError::InvalidUtf8);
}

#[test]
fn declared_length_beyond_buffer() {
    let buffer: Vec<u8> = vec![0x01, 0x00, 0x00, 0x64];
    let err = Message::deserialize(&buffer).unwrap_err();
    assert_eq!(err, DecodeError::BufferTooShort { declared: 100, available: 4 });
}

#[test]
fn altered_length_detected() {
    let (_, mut buffer) = simple();
    buffer[3] = 0x40;
    let err = Message::deserialize(&buffer).unwrap_err();
    assert_eq!(err, DecodeError::LengthMismatch { declared: 0x40, actual: 69 });
}

#[test]
fn duplicate_names_fold_last_write_wins() {
    // field_count = 2, both fields named "k": Integer 1 then Integer 2.
    let buffer: Vec<u8> = vec![
        0x01, 0x02, 0x00, 0x1A, // header, length 26
        0x01, 0x6B, // "k"
        0x01, 0x00, 0x00, 0x00, 0x00, 0x00, 0x00, 0x00, 0x01, // Integer 1
        0x01, 0x6B, // "k"
        0x01, 0x00, 0x00, 0x00, 0x00, 0x00, 0x00, 0x00, 0x02, // Integer 2
    ];
    let (decoded, end) = Message::deserialize(&buffer).unwrap();
    assert_eq!(end, 26);
    assert_eq!(decoded.body.len(), 1);
    assert_eq!(decoded.body[0], (name("k"), FieldValue::Integer(2)));
    assert_eq!(decoded.header.field_count, 2);
}

#[test]
fn empty_message_round_trips() {
    let message = Message { header: Header { version: 0x01, field_count: 0, length: 4 }, body: vec![] };
    let encoded = message.serialize();
    assert_eq!(encoded, vec![0x01, 0x00, 0x00, 0x04]);
    let (decoded, end) = Message::deserialize(&encoded).unwrap();
    assert_eq!(end, 4);
    assert_eq!(decoded, message);
}

#[test]
fn empty_values_round_trip() {
    // An empty name, an empty string value and empty lists are all legal.
    let message = Message {
        header: Header { version: 0x01, field_count: 3, length: 20 },
        body: vec![
            (name(""), string_value("")),
            (name("i"), FieldValue::List(List::Integers(vec![]))),
            (name("s"), FieldValue::List(List::Strings(vec![]))),
        ],
    };
    let encoded = message.serialize();
    assert_eq!(encoded.len(), 20);
    let (decoded, end) = Message::deserialize(&encoded).unwrap();
    assert_eq!(end, 20);
    assert_eq!(decoded, message);
}

#[test]
fn negative_and_extreme_integers_round_trip() {
    let message = Message {
        header: Header { version: 0x01, field_count: 1, length: 42 },
        body: vec![(
            name("x"),
            FieldValue::List(List::Integers(vec![-1, i64::MIN, i64::MAX, 0])),
        )],
    };
    let encoded = message.serialize();
    assert_eq!(encoded.len(), 42);
    assert_eq!(&encoded[10..18], &[0xFF; 8]);
    let (decoded, end) = Message::deserialize(&encoded).unwrap();
    assert_eq!(end, 42);
    assert_eq!(decoded, message);
}

#[test]
fn nested_object_value_round_trips() {
    let inner = Object {
        fields: vec![(name("deep"), string_value("yes"))],
    };
    let message = Message {
        header: Header { version: 0x01, field_count: 1, length: 21 },
        body: vec![(name("obj"), FieldValue::Object(inner))],
    };
    let encoded = message.serialize();
    assert_eq!(encoded.len(), 21);
    let (decoded, end) = Message::deserialize(&encoded).unwrap();
    assert_eq!(end, 21);
    assert_eq!(decoded, message);
}

#[test]
fn truncated_integer_payload() {
    // Field "a" declares an integer but only 4 of its 8 bytes are present.
    let buffer: Vec<u8> = vec![0x01, 0x01, 0x00, 0x0B, 0x01, 0x61, 0x01, 0x00, 0x00, 0x00, 0x00];
    let err = Message::deserialize(&buffer).unwrap_err();
    assert_eq!(err, DecodeError::TruncatedBuffer);
}

#[test]
fn multibyte_utf8_round_trips() {
    let text = "héllo🚀";
    assert_eq!(text.as_bytes().len(), 10);
    let message = Message {
        header: Header { version: 0x01, field_count: 1, length: 20 },
        body: vec![(name("pi"), string_value(text))],
    };
    let encoded = message.serialize();
    assert_eq!(encoded.len(), 20);
    let (decoded, end) = Message::deserialize(&encoded).unwrap();
    assert_eq!(end, 20);
    assert_eq!(decoded, message);
}

#[test]
fn overlong_utf8_rejected() {
    // 0xC0 0x80 is the overlong encoding of NUL and must not be accepted.
    let buffer: Vec<u8> = vec![0x01, 0x01, 0x00, 0x07, 0x02, 0xC0, 0x80];
    let err = Message::deserialize(&buffer).unwrap_err();
    assert_eq!(err, DecodeError::InvalidUtf8);
}

#[test]
fn surrogate_utf8_rejected() {
    // 0xED 0xA0 0x80 would encode a UTF-16 surrogate and must not be accepted.
    let buffer: Vec<u8> = vec![0x01, 0x01, 0x00, 0x08, 0x03, 0xED, 0xA0, 0x80];
    let err = Message::deserialize(&buffer).unwrap_err();
    assert_eq!(err, DecodeError::InvalidUtf8);
}

#[test]
fn field_value_tag_rejected_directly() {
    let buffer: Vec<u8> = vec![0x07];
    let err = FieldValue::deserialize(&buffer, 0).unwrap_err();
    assert_eq!(err, DecodeError::UnknownTypeTag { tag: 0x07 });
}

#[test]
fn list_element_tag_rejected_directly() {
    let buffer: Vec<u8> = vec![0x05, 0x00, 0x00];
    let err = List::deserialize(&buffer, 0).unwrap_err();
    assert_eq!(err, DecodeError::UnknownTypeTag { tag: 0x05 });
}

#[test]
fn list_of_strings_round_trips() {
    let message = Message {
        header: Header { version: 0x01, field_count: 1, length: 20 },
        body: vec![(
            name("tags"),
            FieldValue::List(List::Strings(vec![
                StringValue { bytes: b"ab".to_vec() },
                StringValue { bytes: b"c".to_vec() },
            ])),
        )],
    };
    let encoded = message.serialize();
    assert_eq!(
        encoded,
        vec![
            0x01, 0x01, 0x00, 0x14, // header
            0x04, 0x74, 0x61, 0x67, 0x73, // "tags"
            0x03, 0x02, 0x00, 0x02, // list of strings, 2 elements
            0x00, 0x02, 0x61, 0x62, // "ab"
            0x00, 0x01, 0x63, // "c"
        ]
    );
    let (decoded, end) = Message::deserialize(&encoded).unwrap();
    assert_eq!(end, 20);
    assert_eq!(decoded, message);
}
