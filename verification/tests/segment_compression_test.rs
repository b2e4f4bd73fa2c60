use gaffa::compression::CompressionType;
use gaffa::messages::Message;
use gaffa::segment::{LogSegment, SegmentConfig};

#[test]
fn phase6_test_test_gzip_compression() {
    let config = SegmentConfig::default().with_compression(CompressionType::Gzip);
    let mut segment = LogSegment::create(0, config);

    let messages = vec![
        Message::new(b"Hello World! ".repeat(100)),
        Message::new(b"Test Message ".repeat(100)),
    ];
    let original_size: usize = messages.iter().map(|m| m.value.len()).sum();

    assert_eq!(segment.append(messages).unwrap(), 0);

    let file_size = segment.size();
    assert!(file_size < original_size as u64);

    let record = segment.read(0).unwrap();
    assert_eq!(record.value.len(), b"Hello World! ".repeat(100).len());
    assert_eq!(record.compression, CompressionType::Gzip);
}

#[test]
fn phase6_test_test_snappy_compression() {
    let config = SegmentConfig::default().with_compression(CompressionType::Snappy);
    let mut segment = LogSegment::create(0, config);

    segment.append(vec![Message::new(b"Snappy compression test data ".repeat(50))]).unwrap();

    let record = segment.read(0).unwrap();
    assert_eq!(record.compression, CompressionType::Snappy);
    assert_eq!(record.value, b"Snappy compression test data ".repeat(50));
}

#[test]
fn phase6_test_test_lz4_compression() {
    let config = SegmentConfig::default().with_compression(CompressionType::Lz4);
    let mut segment = LogSegment::create(0, config);

    segment.append(vec![Message::new(b"LZ4 is very fast! ".repeat(100))]).unwrap();

    let record = segment.read(0).unwrap();
    assert_eq!(record.compression, CompressionType::Lz4);
    assert_eq!(record.value, b"LZ4 is very fast! ".repeat(100));
}

#[test]
fn phase6_test_test_no_compression() {
    let mut segment = LogSegment::create(0, SegmentConfig::default());

    segment.append(vec![Message::new(b"No compression".to_vec())]).unwrap();

    let record = segment.read(0).unwrap();
    assert_eq!(record.compression, CompressionType::Uncompressed);
    assert_eq!(record.value, b"No compression");
}

#[test]
fn test_compression_with_batch() {
    let config = SegmentConfig::default().with_compression(CompressionType::Gzip);
    let mut segment = LogSegment::create(0, config);

    let messages: Vec<Message> = (0..100)
        .map(|i| Message::new(format!("Message {} ", i).repeat(10).as_bytes().to_vec()))
        .collect();
    segment.append(messages).unwrap();

    let records = segment.read_batch(0, 100).unwrap();
    assert_eq!(records.len(), 100);
    for (i, record) in records.iter().enumerate() {
        assert_eq!(record.compression, CompressionType::Gzip);
        assert_eq!(record.offset, i as u64);
        assert_eq!(record.value, format!("Message {} ", i).repeat(10).as_bytes().to_vec());
    }
}

#[test]
fn phase6_test_test_compression_ratios() {
    let test_data = b"AAAA".repeat(1000);
    let compressions = vec![
        CompressionType::Uncompressed,
        CompressionType::Gzip,
        CompressionType::Snappy,
        CompressionType::Lz4,
    ];
    for compression in compressions {
        let config = SegmentConfig::default().with_compression(compression);
        let mut segment = LogSegment::create(0, config);
        segment.append(vec![Message::new(test_data.clone())]).unwrap();

        let size = segment.size();
        let ratio = size as f64 / test_data.len() as f64;
        if compression != CompressionType::Uncompressed {
            assert!(ratio < 0.5, "Compression ratio should be < 50% for repetitive data");
        }
    }
}

#[test]
fn test_large_message_compression() {
    let config = SegmentConfig::default().with_compression(CompressionType::Lz4);
    let mut segment = LogSegment::create(0, config);

    let large_data = vec![0xAB; 1024 * 1024];
    segment.append(vec![Message::new(large_data.clone())]).unwrap();

    assert!(segment.size() < 1024 * 100);
    let record = segment.read(0).unwrap();
    assert_eq!(record.value, large_data);
}

#[test]
fn test_segment_persistence_with_compression() {
    let base_offset = 100;
    let (log, index) = {
        let config = SegmentConfig::default().with_compression(CompressionType::Gzip);
        let mut segment = LogSegment::create(base_offset, config);
        let messages = vec![
            Message::new(b"Compressed message 1".repeat(10).to_vec()),
            Message::new(b"Compressed message 2".repeat(10).to_vec()),
        ];
        segment.append(messages).unwrap();
        (segment.log_contents().to_vec(), segment.index_contents())
    };

    let config = SegmentConfig::default().with_compression(CompressionType::Gzip);
    let segment = LogSegment::open(base_offset, &log, &index, config);
    let record = segment.read(base_offset).unwrap();
    assert_eq!(record.compression, CompressionType::Gzip);
    assert_eq!(record.value, b"Compressed message 1".repeat(10));
    assert_eq!(segment.next_offset(), base_offset + 2);
}

#[test]
fn test_mixed_compression_types() {
    let mut segment = LogSegment::create(0, SegmentConfig::default());
    segment.append(vec![Message::new(b"Old message".to_vec())]).unwrap();

    let record = segment.read(0).unwrap();
    assert_eq!(record.compression, CompressionType::Uncompressed);
    assert_eq!(record.value, b"Old message");
}

#[test]
fn compressed_segment_log_is_smaller_than_uncompressed() {
    let value = b"abcabcabc".repeat(200);
    let mut plain = LogSegment::create(0, SegmentConfig::default());
    plain.append(vec![Message::new(value.clone())]).unwrap();
    let config = SegmentConfig::default().with_compression(CompressionType::Gzip);
    let mut packed = LogSegment::create(0, config);
    packed.append(vec![Message::new(value.clone())]).unwrap();
    assert_eq!(plain.size(), 33 + value.len() as u64);
    assert!(packed.size() < plain.size());
    assert_eq!(packed.read(0).unwrap().value, value);
}
