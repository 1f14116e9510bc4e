use databas::varint::{varint_decode, varint_decode_signed, varint_encode, varint_encode_signed,
    varint_size};

#[test]
fn test_varint_encode_decode() {
    // Encoding u64 as varint requires 10 bytes
    // SQLite is limited to signed types
    // An i64 varint requires only 9 bytes
    let values: Vec<u64> = vec![
        0,
        1,
        127,
        128,
        255,
        256,
        16383,
        16384,
        2097151,
        2097152,
        u32::MAX as u64,
        u64::MAX,
    ];
    for value in values {
        let mut buf: Vec<u8> = Vec::new();
        let encoded_size = varint_encode(value, &mut buf);
        let (decoded, consumed) = varint_decode(&buf, 0).unwrap();
        assert_eq!(value, decoded);
        assert_eq!(encoded_size, varint_size(value));
        assert_eq!(consumed, encoded_size);
    }
}

#[test]
fn test_varint_encode_decode_multiple() {
    let values = [0, 1, 127, 128, 255, 256, 16383, 16384, 2097151, 2097152, u32::MAX as u64, u64::MAX];
    let mut buf: Vec<u8> = Vec::new();
    for value in &values {
        varint_encode(*value, &mut buf);
    }
    let mut pos = 0;
    for value in &values {
        let (decoded, consumed) = varint_decode(&buf, pos).unwrap();
        assert_eq!(*value, decoded);
        pos += consumed;
    }
}

#[test]
fn test_encode_decode_signed_varint() {
    let values = [
        0_i64,
        -127,
        -128,
        -16383,
        -16384,
        i16::MAX as i64,
        i16::MIN as i64,
        i32::MAX as i64,
        i32::MIN as i64,
        i64::MAX,
        i64::MIN,
    ];
    for value in values {
        let mut buf: Vec<u8> = Vec::new();
        varint_encode_signed(value, &mut buf);
        let (decoded_value, _) = varint_decode_signed(&buf, 0).unwrap();
        assert_eq!(value, decoded_value);
    }
}

#[test]
fn varint_decode_rejects_overlong_runs() {
    let buf = vec![0x80u8; 11];
    let err = varint_decode(&buf, 0).unwrap_err();
    assert!(matches!(err, databas::record::SerializationError::InvalidVarInt));
}

#[test]
fn varint_decode_reports_truncation() {
    let buf = vec![0x80u8, 0x80];
    let err = varint_decode(&buf, 0).unwrap_err();
    assert!(matches!(
        err,
        databas::record::SerializationError::VarIntBufferTooSmall { available: 2 }
    ));
}
