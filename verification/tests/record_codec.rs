use databas::record::{Record, SerializationError, Value};

#[test]
fn test_serialize_deserialize_record() {
    let record = Record(vec![
        Value::UnsignedInteger(1234),
        Value::Integer(-42),
        Value::Integer(500),
        Value::Float(3.1415f64.to_bits()),
        Value::Boolean(true),
        Value::String("hello world".to_string()),
    ]);

    let mut buffer: Vec<u8> = Vec::new();
    record.serialize(&mut buffer).expect("serialization failed");

    let (deserialize_record, _) = Record::deserialize(&buffer, 0).expect("deserialization failed");
    assert_eq!(record, deserialize_record);
}

#[test]
fn test_serialize_deserialize_multiple_record() {
    let values = vec![
        Value::UnsignedInteger(900),
        Value::Integer(-42),
        Value::Integer(500),
        Value::Float(3.1415f64.to_bits()),
        Value::Boolean(true),
        Value::String("hello world".to_string()),
    ];

    let mut buffer: Vec<u8> = Vec::new();
    for value in &values {
        let record = Record(vec![value.clone()]);
        record.serialize(&mut buffer).expect("serialization failed");
    }

    let mut pos = 0;
    let mut deserialized_values = Vec::with_capacity(values.len());
    for value in &values {
        let record = Record(vec![value.clone()]);
        let (deserialize_record, consumed) =
            Record::deserialize(&buffer, pos).expect("deserialization failed");
        assert_eq!(record, deserialize_record);
        pos += consumed;
        deserialized_values.push(value.clone());
    }
    assert_eq!(values, deserialized_values);
}

#[test]
fn test_deserialize_from_empty_buffer() {
    let record = Record::deserialize(&[], 0);
    assert!(matches!(
        record,
        Err(SerializationError::VarIntBufferTooSmall { available: 0 })
    ));
}

#[test]
fn test_deserialize_invalid_tag() {
    let invalid_tag: u8 = 99;
    let buffer = [invalid_tag; 1];
    let err = Value::deserialize(&buffer, 0).unwrap_err();
    assert!(matches!(err, SerializationError::InvalidTag(tag) if tag == invalid_tag));
}

#[test]
fn test_serialized_size_value_varint() {
    assert_eq!(Value::UnsignedInteger(100).serialized_size(), 1 + 1);
    assert_eq!(Value::Integer(-200).serialized_size(), 1 + 2);
    assert_eq!(Value::String("abcd".to_string()).serialized_size(), 1 + 1 + 4);
}

#[test]
fn test_serialize_deserialize_signed_integer_record() {
    let record = Record(vec![Value::Integer(-42)]);
    let mut buffer: Vec<u8> = Vec::new();
    record.serialize(&mut buffer).unwrap();
    let (deserialized_record, _) = Record::deserialize(&buffer, 0).unwrap();
    assert_eq!(record, deserialized_record);
}

#[test]
fn negative_zero_and_nan_round_trip_bit_for_bit() {
    for bits in [(-0.0f64).to_bits(), f64::NAN.to_bits(), f64::MIN_POSITIVE.to_bits() >> 3] {
        let record = Record(vec![Value::Float(bits)]);
        let mut buffer: Vec<u8> = Vec::new();
        record.serialize(&mut buffer).unwrap();
        let (back, _) = Record::deserialize(&buffer, 0).unwrap();
        match &back.0[0] {
            Value::Float(b) => assert_eq!(*b, bits),
            other => panic!("expected a float value, got {:?}", other),
        }
    }
}

#[test]
fn value_round_trips_every_variant() {
    let values = vec![
        Value::UnsignedInteger(u64::MAX),
        Value::Integer(i64::MIN),
        Value::Float(45.67f64.to_bits()),
        Value::String(String::new()),
        Value::String("åäö — ünïcode".to_string()),
        Value::Boolean(false),
        Value::Null,
    ];
    for value in values {
        let mut buffer: Vec<u8> = Vec::new();
        value.serialize(&mut buffer).unwrap();
        let (back, consumed) = Value::deserialize(&buffer, 0).unwrap();
        assert_eq!(back, value);
        assert_eq!(consumed, buffer.len());
        assert_eq!(value.serialized_size(), buffer.len());
    }
}

#[test]
fn deserialize_rejects_invalid_utf8_strings() {
    // tag 4, length 2, invalid UTF-8 continuation bytes
    let buffer = [4u8, 2, 0xC0, 0x00];
    let err = Value::deserialize(&buffer, 0).unwrap_err();
    assert!(matches!(err, SerializationError::InvalidData));
}

#[test]
fn deserialize_reports_truncated_string_bodies() {
    // tag 4, length 5, only two payload bytes present
    let buffer = [4u8, 5, b'h', b'i'];
    let err = Value::deserialize(&buffer, 0).unwrap_err();
    assert!(matches!(
        err,
        SerializationError::BufferTooSmall { required: 5, available: 2 }
    ));
}
