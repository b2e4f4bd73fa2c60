use gaffa::codec::{ClientCodec, GaffaCodec, MAX_MESSAGE_SIZE};
use gaffa::error::GaffaError;

#[test]
fn test_encode_decode_round_trip() {
    let mut codec = GaffaCodec;
    let mut buf: Vec<u8> = Vec::new();

    let response = bincode::serialize(&("test-topic".to_string(), 3u32)).unwrap();

    codec.encode(response, &mut buf).unwrap();
    assert!(buf.len() > 4);

    // Verify length prefix
    let length = u32::from_be_bytes([buf[0], buf[1], buf[2], buf[3]]) as usize;
    assert_eq!(buf.len(), 4 + length);
}

#[test]
fn test_decode_partial_message() {
    let mut codec = GaffaCodec;
    let mut buf: Vec<u8> = Vec::new();

    // A length prefix announcing 100 bytes, then only 10 of them
    buf.extend_from_slice(&100u32.to_be_bytes());
    buf.extend_from_slice(&[0u8; 10]);

    let result = codec.decode(&mut buf);
    assert!(result.unwrap().is_none());
    assert_eq!(buf.len(), 14);
}

#[test]
fn test_decode_multiple_messages() {
    let mut codec = GaffaCodec;
    let mut buf: Vec<u8> = Vec::new();

    let data = bincode::serialize(&("test".to_string(), 0u32, b"hello".to_vec())).unwrap();
    buf.extend_from_slice(&(data.len() as u32).to_be_bytes());
    buf.extend_from_slice(&data);

    let decoded = codec.decode(&mut buf).unwrap();
    assert!(decoded.is_some());
    assert!(buf.is_empty());
}

#[test]
fn test_max_message_size() {
    let mut codec = GaffaCodec;
    let mut buf: Vec<u8> = Vec::new();

    buf.extend_from_slice(&((MAX_MESSAGE_SIZE + 1) as u32).to_be_bytes());

    let result = codec.decode(&mut buf);
    assert!(result.is_err());
    match result.unwrap_err() {
        GaffaError::Protocol(msg) => assert!(msg.contains("too large")),
        _ => panic!("Expected Protocol error"),
    }
}

#[test]
fn frame_roundtrip_leaves_following_bytes() {
    let mut client = ClientCodec;
    let mut server = GaffaCodec;
    let mut wire: Vec<u8> = Vec::new();
    client.encode(b"first".to_vec(), &mut wire).unwrap();
    client.encode(b"second".to_vec(), &mut wire).unwrap();
    assert_eq!(&wire[0..4], &[0, 0, 0, 5]);
    assert_eq!(server.decode(&mut wire).unwrap(), Some(b"first".to_vec()));
    assert_eq!(server.decode(&mut wire).unwrap(), Some(b"second".to_vec()));
    assert!(wire.is_empty());
    assert_eq!(server.decode(&mut wire).unwrap(), None);
}

#[test]
fn short_header_waits() {
    let mut codec = ClientCodec;
    let mut buf = vec![0u8, 0, 1];
    assert_eq!(codec.decode(&mut buf).unwrap(), None);
    assert_eq!(buf, vec![0u8, 0, 1]);
}

#[test]
fn empty_message_frames_to_zero_length() {
    let mut codec = GaffaCodec;
    let mut buf: Vec<u8> = vec![9];
    codec.encode(Vec::new(), &mut buf).unwrap();
    assert_eq!(buf, vec![9u8, 0, 0, 0, 0]);
}

#[test]
fn oversized_message_is_refused_with_exact_text() {
    let mut codec = GaffaCodec;
    let mut buf: Vec<u8> = Vec::new();
    let big = vec![0u8; MAX_MESSAGE_SIZE + 1];
    match codec.encode(big, &mut buf) {
        Err(GaffaError::Protocol(msg)) => {
            assert_eq!(msg, "Message too large: 10485761 bytes (max: 10485760 bytes)")
        }
        _ => panic!("Expected Protocol error"),
    }
    assert!(buf.is_empty());
}

#[test]
fn message_of_exactly_max_size_is_accepted() {
    let mut codec = GaffaCodec;
    let mut buf: Vec<u8> = Vec::new();
    buf.extend_from_slice(&(MAX_MESSAGE_SIZE as u32).to_be_bytes());
    assert_eq!(codec.decode(&mut buf).unwrap(), None);
    assert_eq!(buf.len(), 4);
}
