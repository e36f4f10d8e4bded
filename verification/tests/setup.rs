use moqt::key_value_pair::{self, EncodeError as KeyValueEncodeError, KeyValuePair, Value};
use moqt::setup::{decode, encode, DecodeError, EncodeError, Setup};
use moqt::vi64;

#[test]
fn encodes_client_setup_for_native_quic_uri() {
    let setup = Setup {
        options: vec![
            KeyValuePair {
                type_id: 0x01,
                value: Value::Bytes(b"/demo".to_vec()),
            },
            KeyValuePair {
                type_id: 0x05,
                value: Value::Bytes(b"localhost".to_vec()),
            },
        ],
    };

    assert_eq!(
        encode(&setup),
        Ok(vec![
            0xaf, 0x00, // SETUP Type
            0x00, 0x12, // Payload Length = 18
            0x01, 0x05, 0x2f, 0x64, 0x65, 0x6d, 0x6f, // PATH
            0x04, 0x09, 0x6c, 0x6f, 0x63, 0x61, 0x6c, 0x68, 0x6f, 0x73, 0x74, // AUTHORITY
        ]),
    );
}

#[test]
fn encodes_setup_without_options() {
    let setup = Setup {
        options: Vec::new(),
    };

    assert_eq!(
        encode(&setup),
        Ok(vec![
            0xaf, 0x00, // SETUP Type
            0x00, 0x00, // Payload Length = 0
        ]),
    );
}

#[test]
fn rejects_decreasing_setup_option_types() {
    let setup = Setup {
        options: vec![
            KeyValuePair {
                type_id: 0x05,
                value: Value::Bytes(b"localhost".to_vec()),
            },
            KeyValuePair {
                type_id: 0x01,
                value: Value::Bytes(b"/demo".to_vec()),
            },
        ],
    };

    assert_eq!(
        encode(&setup),
        Err(EncodeError::KeyValuePair(
            KeyValueEncodeError::TypeDecreased {
                previous: 0x05,
                current: 0x01,
            },
        )),
    );
}

#[test]
fn rejects_payload_larger_than_u16_length_field() {
    let setup = Setup {
        options: vec![KeyValuePair {
            type_id: 0x01,
            value: Value::Bytes(vec![0; usize::from(u16::MAX)]),
        }],
    };

    assert_eq!(
        encode(&setup),
        Err(EncodeError::PayloadTooLong { length: 65_539 }),
    );
}

#[test]
fn decodes_client_setup_and_reports_consumed_length() {
    let input = [
        0xaf, 0x00, // SETUP Type
        0x00, 0x12, // Payload Length = 18
        0x01, 0x05, 0x2f, 0x64, 0x65, 0x6d, 0x6f, // PATH
        0x04, 0x09, 0x6c, 0x6f, 0x63, 0x61, 0x6c, 0x68, 0x6f, 0x73, 0x74, // AUTHORITY
        0xaa, // start of the next control message
    ];

    assert_eq!(
        decode(&input),
        Ok((
            Setup {
                options: vec![
                    KeyValuePair {
                        type_id: 0x01,
                        value: Value::Bytes(b"/demo".to_vec()),
                    },
                    KeyValuePair {
                        type_id: 0x05,
                        value: Value::Bytes(b"localhost".to_vec()),
                    },
                ],
            },
            22,
        )),
    );
}

#[test]
fn decodes_setup_without_options() {
    let input = [0xaf, 0x00, 0x00, 0x00, 0xaa];

    assert_eq!(
        decode(&input),
        Ok((
            Setup {
                options: Vec::new(),
            },
            4,
        ))
    );
}

#[test]
fn rejects_unexpected_message_type() {
    let input = [0x01];

    assert_eq!(
        decode(&input),
        Err(DecodeError::UnexpectedMessageType { actual: 1 })
    );
}

#[test]
fn rejects_incomplete_setup_length() {
    let input = [0xaf, 0x00, 0x00];

    assert_eq!(
        decode(&input),
        Err(DecodeError::UnexpectedEnd {
            expected: 4,
            actual: 3,
        })
    );
}

#[test]
fn rejects_incomplete_setup_payload() {
    let input = [
        0xaf, 0x00, // SETUP Type
        0x00, 0x01, // Payload Length = 1
    ];

    assert_eq!(
        decode(&input),
        Err(DecodeError::UnexpectedEnd {
            expected: 5,
            actual: 4,
        })
    );
}

#[test]
fn reports_malformed_option() {
    let input = [
        0xaf, 0x00, // SETUP Type
        0x00, 0x01, // Payload Length = 1
        0x80, // first byte of a two-byte vi64 whose second byte is missing
        0x00, // start of the next control message
    ];

    assert_eq!(
        decode(&input),
        Err(DecodeError::KeyValuePair(
            key_value_pair::DecodeError::Vi64(vi64::DecodeError::UnexpectedEnd {
                expected: 2,
                actual: 1,
            })
        ))
    );
}

#[test]
fn setup_round_trips_with_trailing_bytes() {
    let setup = Setup {
        options: vec![
            KeyValuePair { type_id: 0x01, value: Value::Bytes(b"/demo".to_vec()) },
            KeyValuePair { type_id: 0x02, value: Value::Integer(100) },
            KeyValuePair { type_id: 0x02, value: Value::Integer(u64::MAX) },
            KeyValuePair { type_id: 0x4005, value: Value::Bytes(vec![1; 500]) },
        ],
    };
    let mut input = encode(&setup).unwrap();
    let length = input.len();
    input.extend_from_slice(&[0x01, 0x02, 0x03]);

    assert_eq!(decode(&input), Ok((setup, length)));
}

#[test]
fn reports_vi64_error_for_empty_setup_input() {
    assert_eq!(decode(&[]), Err(DecodeError::Vi64(vi64::DecodeError::Empty)));
}

#[test]
fn rejects_option_kind_mismatch_in_setup() {
    let setup = Setup {
        options: vec![KeyValuePair { type_id: 0x02, value: Value::Bytes(b"x".to_vec()) }],
    };

    assert_eq!(
        encode(&setup),
        Err(EncodeError::KeyValuePair(KeyValueEncodeError::ValueKindMismatch { type_id: 0x02 })),
    );
}

#[test]
fn option_error_takes_precedence_over_payload_length() {
    let setup = Setup {
        options: vec![
            KeyValuePair { type_id: 0x01, value: Value::Bytes(vec![0; usize::from(u16::MAX)]) },
            KeyValuePair { type_id: 0x00, value: Value::Integer(1) },
        ],
    };

    assert_eq!(
        encode(&setup),
        Err(EncodeError::KeyValuePair(KeyValueEncodeError::TypeDecreased {
            previous: 0x01,
            current: 0x00,
        })),
    );
}

#[test]
fn rejects_payload_that_ends_inside_an_option() {
    let input = [
        0xaf, 0x00, // SETUP Type
        0x00, 0x03, // Payload Length = 3
        0x01, 0x05, 0x2f, // a byte value of 5 bytes cut after 1
        0x64, 0x65, 0x6d, 0x6f, // bytes after the payload
    ];

    assert_eq!(
        decode(&input),
        Err(DecodeError::KeyValuePair(key_value_pair::DecodeError::UnexpectedEnd {
            expected: 7,
            actual: 3,
        })),
    );
}
