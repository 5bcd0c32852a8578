use kvs::codec::decode_at;
use kvs::codec::encode;
use kvs::KvError;

#[test]
fn checksum_is_crc32_ieee() {
    // the standard CRC-32/IEEE check value
    assert_eq!(crc::crc32::checksum_ieee(b"123456789"), 0xCBF43926);
    // and it is what the header of a framed record stores
    let frame = encode(b"1234", b"56789");
    assert_eq!(
        u32::from_le_bytes([frame[0], frame[1], frame[2], frame[3]]),
        0xCBF43926
    );
}

#[test]
fn encode_layout_exact() {
    let frame = encode(b"key", b"value!");
    assert_eq!(frame.len(), 12 + 3 + 6);
    let checksum = crc::crc32::checksum_ieee(b"keyvalue!");
    assert_eq!(&frame[0..4], checksum.to_le_bytes().as_slice());
    assert_eq!(&frame[4..8], &[3, 0, 0, 0]);
    assert_eq!(&frame[8..12], &[6, 0, 0, 0]);
    assert_eq!(&frame[12..15], b"key");
    assert_eq!(&frame[15..21], b"value!");
}

#[test]
fn decode_roundtrip() {
    let frame = encode(b"some key", b"some value");
    let kv = decode_at(&frame, 0).unwrap();
    assert_eq!(kv.key, b"some key".to_vec());
    assert_eq!(kv.value, b"some value".to_vec());
}

#[test]
fn decode_roundtrip_empty_key_and_value() {
    let frame = encode(b"", b"");
    assert_eq!(frame.len(), 12);
    let kv = decode_at(&frame, 0).unwrap();
    assert_eq!(kv.key, Vec::<u8>::new());
    assert_eq!(kv.value, Vec::<u8>::new());
}

#[test]
fn decode_at_offset() {
    let mut log = encode(b"first", b"1");
    let second_at = log.len();
    log.extend_from_slice(&encode(b"second", b"2"));
    let kv = decode_at(&log, second_at).unwrap();
    assert_eq!(kv.key, b"second".to_vec());
    assert_eq!(kv.value, b"2".to_vec());
}

#[test]
fn flipping_any_body_byte_is_detected() {
    let frame = encode(b"the key", b"the value");
    for i in 12..frame.len() {
        for flip in [0x01u8, 0x80u8, 0xFFu8] {
            let mut bad = frame.clone();
            bad[i] ^= flip;
            assert_eq!(decode_at(&bad, 0).unwrap_err(), KvError::CorruptRecord);
        }
    }
}

#[test]
fn flipping_stored_checksum_is_detected() {
    let mut frame = encode(b"k", b"v");
    frame[2] ^= 0x10;
    assert_eq!(decode_at(&frame, 0).unwrap_err(), KvError::CorruptRecord);
}

#[test]
fn end_of_log_at_exact_end() {
    let frame = encode(b"k", b"v");
    assert_eq!(decode_at(&frame, frame.len()).unwrap_err(), KvError::EndOfLog);
    assert_eq!(decode_at(&Vec::new(), 0).unwrap_err(), KvError::EndOfLog);
}

#[test]
fn truncated_body_is_incomplete() {
    let mut frame = encode(b"key", b"value");
    frame.truncate(frame.len() - 1);
    assert_eq!(decode_at(&frame, 0).unwrap_err(), KvError::IncompleteRecord);
}

#[test]
fn truncated_header_is_incomplete() {
    let frame = encode(b"key", b"value");
    let stub = frame[..7].to_vec();
    assert_eq!(decode_at(&stub, 0).unwrap_err(), KvError::IncompleteRecord);
}
