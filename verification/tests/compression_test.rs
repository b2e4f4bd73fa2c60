use gaffa::compression::{compress, decompress, CompressionType};
use gaffa::error::GaffaError;

fn test_data() -> Vec<u8> {
    b"Hello, World! This is a test message that will be compressed. \
      It contains some repetitive data to ensure good compression ratios. \
      Repetitive data, repetitive data, repetitive data!"
        .to_vec()
}

#[test]
fn test_compression_type_from_u8() {
    assert_eq!(CompressionType::from_u8(0).unwrap(), CompressionType::Uncompressed);
    assert_eq!(CompressionType::from_u8(1).unwrap(), CompressionType::Gzip);
    assert_eq!(CompressionType::from_u8(2).unwrap(), CompressionType::Snappy);
    assert_eq!(CompressionType::from_u8(3).unwrap(), CompressionType::Lz4);
    assert!(CompressionType::from_u8(99).is_err());
}

#[test]
fn test_compression_type_to_u8() {
    assert_eq!(CompressionType::Uncompressed.to_u8(), 0);
    assert_eq!(CompressionType::Gzip.to_u8(), 1);
    assert_eq!(CompressionType::Snappy.to_u8(), 2);
    assert_eq!(CompressionType::Lz4.to_u8(), 3);
}

#[test]
fn compression_test_no_compression() {
    let data = test_data();
    let compressed = compress(&data, CompressionType::Uncompressed).unwrap();
    assert_eq!(compressed, data);

    let decompressed = decompress(&compressed, CompressionType::Uncompressed).unwrap();
    assert_eq!(decompressed, data);
}

#[test]
fn compression_test_gzip_compression() {
    let data = test_data();
    let compressed = compress(&data, CompressionType::Gzip).unwrap();

    // Compression should reduce size for repetitive data
    assert!(compressed.len() < data.len());

    let decompressed = decompress(&compressed, CompressionType::Gzip).unwrap();
    assert_eq!(decompressed, data);
}

#[test]
fn compression_test_snappy_compression() {
    let data = test_data();
    let compressed = compress(&data, CompressionType::Snappy).unwrap();

    let decompressed = decompress(&compressed, CompressionType::Snappy).unwrap();
    assert_eq!(decompressed, data);
}

#[test]
fn compression_test_lz4_compression() {
    let data = test_data();
    let compressed = compress(&data, CompressionType::Lz4).unwrap();

    // Compression should reduce size
    assert!(compressed.len() < data.len());

    let decompressed = decompress(&compressed, CompressionType::Lz4).unwrap();
    assert_eq!(decompressed, data);
}

#[test]
fn test_compression_empty_data() {
    let data: Vec<u8> = Vec::new();

    for compression in [
        CompressionType::Uncompressed,
        CompressionType::Gzip,
        CompressionType::Snappy,
        CompressionType::Lz4,
    ] {
        let compressed = compress(&data, compression).unwrap();
        let decompressed = decompress(&compressed, compression).unwrap();
        assert_eq!(decompressed, data);
    }
}

#[test]
fn test_compression_large_data() {
    // Test with 1MB of data
    let data = vec![0xAB; 1024 * 1024];

    for compression in [CompressionType::Gzip, CompressionType::Snappy, CompressionType::Lz4] {
        let compressed = compress(&data, compression).unwrap();

        // Should compress very well (all same byte)
        assert!(compressed.len() < data.len() / 10);

        let decompressed = decompress(&compressed, compression).unwrap();
        assert_eq!(decompressed, data);
    }
}

#[test]
fn gzip_and_lz4_shrink_repetitive_text() {
    let data = test_data();
    let gzip = compress(&data, CompressionType::Gzip).unwrap();
    let lz4 = compress(&data, CompressionType::Lz4).unwrap();
    assert!(gzip.len() < data.len());
    assert!(lz4.len() < data.len());
}

#[test]
fn snappy_shrinks_long_repetitive_data() {
    let data = test_data().repeat(10);
    let snappy = compress(&data, CompressionType::Snappy).unwrap();
    assert!(snappy.len() < data.len());
    assert_eq!(decompress(&snappy, CompressionType::Snappy).unwrap(), data);
}

#[test]
fn unknown_compression_tag_is_invalid_message() {
    match CompressionType::from_u8(4) {
        Err(GaffaError::InvalidMessage(m)) => assert_eq!(m, "Unknown compression type: 4"),
        other => panic!("unexpected {:?}", other),
    }
}

#[test]
fn compression_tags_round_trip() {
    for tag in 0u8..4 {
        assert_eq!(CompressionType::from_u8(tag).unwrap().to_u8(), tag);
    }
}

#[test]
fn decompress_refuses_garbage() {
    let garbage = vec![0xFFu8, 0x00, 0x12, 0x34, 0x56];
    for compression in [CompressionType::Gzip, CompressionType::Snappy, CompressionType::Lz4] {
        match decompress(&garbage, compression) {
            Err(GaffaError::Compression(_)) => {}
            other => panic!("unexpected {:?}", other),
        }
    }
    // uncompressed data is passed through as is
    assert_eq!(decompress(&garbage, CompressionType::Uncompressed).unwrap(), garbage);
}

#[test]
fn compressed_bytes_differ_from_input() {
    let data = test_data();
    for compression in [CompressionType::Gzip, CompressionType::Snappy, CompressionType::Lz4] {
        assert_ne!(compress(&data, compression).unwrap(), data);
    }
}

#[test]
fn decompress_refuses_malformed_starts() {
    let is_compression_error = |r: Result<Vec<u8>, GaffaError>| matches!(r, Err(GaffaError::Compression(_)));
    // lz4 needs its four-byte size prefix
    assert!(is_compression_error(decompress(&[1, 2, 3], CompressionType::Lz4)));
    // gzip needs its magic bytes
    assert!(is_compression_error(decompress(b"plain text, no gzip header", CompressionType::Gzip)));
    assert!(is_compression_error(decompress(&[0x1f, 0x8b], CompressionType::Gzip)));
    // a snappy stream starts with its identifier chunk
    assert!(is_compression_error(decompress(b"abcdefgh", CompressionType::Snappy)));
    assert!(is_compression_error(decompress(&[0xff, 0x06], CompressionType::Snappy)));
    // an empty snappy stream holds nothing
    assert_eq!(decompress(&[], CompressionType::Snappy).unwrap(), Vec::<u8>::new());
}

