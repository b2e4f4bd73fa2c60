use gaffa::compression::CompressionType;
use gaffa::error::GaffaError;
use gaffa::messages::Message;
use gaffa::record::DiskRecord;

#[test]
fn test_record_encode_decode_with_key() {
    let message = Message::new(b"test value".to_vec())
        .with_key(b"test key".to_vec())
        .with_timestamp(1234567890);

    let record = DiskRecord::new(42, message);
    let encoded = record.encode().unwrap();

    let decoded = DiskRecord::decode(&encoded[..]).unwrap();
    assert_eq!(record, decoded);
    assert_eq!(decoded.offset, 42);
    assert_eq!(decoded.timestamp, 1234567890);
    assert_eq!(decoded.key, Some(b"test key".to_vec()));
    assert_eq!(decoded.value, b"test value");
}

#[test]
fn test_record_encode_decode_without_key() {
    let message = Message::new(b"test value".to_vec()).with_timestamp(9876543210);

    let record = DiskRecord::new(0, message);
    let encoded = record.encode().unwrap();

    let decoded = DiskRecord::decode(&encoded[..]).unwrap();
    assert_eq!(record, decoded);
    assert_eq!(decoded.offset, 0);
    assert_eq!(decoded.timestamp, 9876543210);
    assert_eq!(decoded.key, None);
    assert_eq!(decoded.value, b"test value");
}

#[test]
fn test_record_crc_corruption() {
    let message = Message::new(b"test value".to_vec());
    let record = DiskRecord::new(0, message);
    let mut encoded = record.encode().unwrap();

    // Corrupt the data (flip a bit in the value)
    let data_offset = encoded.len() - 5;
    encoded[data_offset] ^= 0xFF;

    let result = DiskRecord::decode(&encoded[..]);
    assert!(result.is_err());
    assert!(matches!(result.unwrap_err(), GaffaError::Corruption(_)));
}

#[test]
fn test_record_serialized_size() {
    let message = Message::new(b"test".to_vec()).with_key(b"key".to_vec());
    let record = DiskRecord::new(0, message);

    let encoded = record.encode().unwrap();
    assert_eq!(encoded.len(), record.serialized_size());
}

#[test]
fn test_record_to_message() {
    let original_message = Message::new(b"test".to_vec())
        .with_key(b"key".to_vec())
        .with_timestamp(12345);

    let record = DiskRecord::new(10, original_message.clone());
    let converted_message = record.to_message();

    assert_eq!(converted_message.key, original_message.key);
    assert_eq!(converted_message.value, original_message.value);
    assert_eq!(converted_message.timestamp, original_message.timestamp);
}

#[test]
fn test_large_record() {
    let large_value = vec![0xABu8; 1024 * 1024]; // 1MB
    let message = Message::new(large_value.clone());
    let record = DiskRecord::new(999, message);

    let encoded = record.encode().unwrap();
    let decoded = DiskRecord::decode(&encoded[..]).unwrap();

    assert_eq!(decoded.value, large_value);
    assert_eq!(decoded.offset, 999);
}

#[test]
fn compressed_record_round_trips() {
    let value = b"abcabcabcabcabcabcabcabcabcabcabcabc".to_vec();
    for compression in [CompressionType::Gzip, CompressionType::Snappy, CompressionType::Lz4] {
        let message = Message::new(value.clone()).with_key(b"k".to_vec()).with_timestamp(7);
        let record = DiskRecord::new_with_compression(5, message, compression);
        let encoded = record.encode().unwrap();
        let (decoded, used) = DiskRecord::decode_prefix(&encoded[..]).unwrap();
        assert_eq!(used, encoded.len());
        assert_eq!(decoded.value, value);
        assert_eq!(decoded.compression, compression);
        assert_eq!(decoded.offset, 5);
        assert_eq!(decoded.timestamp, 7);
    }
}

#[test]
fn decode_prefix_leaves_what_follows() {
    let record = DiskRecord::new(3, Message::new(b"v".to_vec()).with_timestamp(1));
    let mut bytes = record.encode().unwrap();
    let len = bytes.len();
    bytes.extend_from_slice(&[9, 9, 9]);
    let (decoded, used) = DiskRecord::decode_prefix(&bytes[..]).unwrap();
    assert_eq!(used, len);
    assert_eq!(decoded, record);
}

#[test]
fn truncated_record_is_refused() {
    let record = DiskRecord::new(3, Message::new(b"value".to_vec()).with_timestamp(1));
    let bytes = record.encode().unwrap();
    assert!(DiskRecord::decode(&bytes[..10]).is_err());
    assert!(DiskRecord::decode(&bytes[..bytes.len() - 1]).is_err());
}

#[test]
fn serialized_size_without_key() {
    let record = DiskRecord::new(0, Message::new(b"abcd".to_vec()).with_timestamp(0));
    assert_eq!(record.serialized_size(), 37);
    assert_eq!(record.encode().unwrap().len(), record.serialized_size());
}

#[test]
fn serialized_size_matches_encoding_for_every_compression() {
    for compression in [
        CompressionType::Uncompressed,
        CompressionType::Gzip,
        CompressionType::Snappy,
        CompressionType::Lz4,
    ] {
        let message = Message::new(b"size me, size me, size me".repeat(20)).with_key(b"k".to_vec());
        let record = DiskRecord::new_with_compression(3, message, compression);
        assert_eq!(record.encode().unwrap().len(), record.serialized_size());
    }
}
