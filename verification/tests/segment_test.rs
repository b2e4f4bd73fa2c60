use gaffa::messages::Message;
use gaffa::segment::{LogSegment, SegmentConfig, DEFAULT_MAX_SEGMENT_SIZE};

fn msgs(values: &[&[u8]]) -> Vec<Message> {
    values.iter().map(|v| Message::new(v.to_vec())).collect()
}

#[test]
fn test_segment_create_and_append() {
    let mut segment = LogSegment::create(0, SegmentConfig::default());
    let base_offset = segment.append(msgs(&[b"msg1", b"msg2", b"msg3"])).unwrap();
    assert_eq!(base_offset, 0);
    assert_eq!(segment.next_offset(), 3);
}

#[test]
fn test_segment_read() {
    let mut segment = LogSegment::create(0, SegmentConfig::default());
    segment.append(msgs(&[b"msg1", b"msg2", b"msg3"])).unwrap();

    let record = segment.read(1).unwrap();
    assert_eq!(record.offset, 1);
    assert_eq!(record.value, b"msg2");
}

#[test]
fn test_segment_read_batch() {
    let mut segment = LogSegment::create(0, SegmentConfig::default());
    segment.append(msgs(&[b"msg1", b"msg2", b"msg3", b"msg4", b"msg5"])).unwrap();

    let records = segment.read_batch(1, 3).unwrap();
    assert_eq!(records.len(), 3);
    assert_eq!(records[0].offset, 1);
    assert_eq!(records[1].offset, 2);
    assert_eq!(records[2].offset, 3);
}

#[test]
fn test_segment_persistence() {
    let base_offset = 100;

    // Create and write
    let (log, index) = {
        let mut segment = LogSegment::create(base_offset, SegmentConfig::default());
        segment.append(msgs(&[b"msg1", b"msg2"])).unwrap();
        (segment.log_contents().to_vec(), segment.index_contents())
    };

    // Reopen and verify
    let segment = LogSegment::open(base_offset, &log, &index, SegmentConfig::default());
    assert_eq!(segment.base_offset(), base_offset);
    assert_eq!(segment.next_offset(), base_offset + 2);

    let record = segment.read(base_offset).unwrap();
    assert_eq!(record.value, b"msg1");
}

#[test]
fn test_segment_should_rotate() {
    let config = SegmentConfig { max_size: 100, index_interval: 5, ..SegmentConfig::default() };

    let mut segment = LogSegment::create(0, config);
    assert!(!segment.should_rotate());

    let large_message = vec![Message::new(vec![0xAB; 50])];
    segment.append(large_message.clone()).unwrap();
    segment.append(large_message).unwrap();

    assert!(segment.should_rotate());
}

#[test]
fn test_segment_indexing() {
    let config = SegmentConfig {
        max_size: DEFAULT_MAX_SEGMENT_SIZE,
        index_interval: 2,
        ..SegmentConfig::default()
    };

    let mut segment = LogSegment::create(0, config);

    for i in 0..10 {
        let msg = vec![Message::new(format!("msg{}", i).into_bytes())];
        segment.append(msg).unwrap();
    }

    for i in 0..10 {
        let record = segment.read(i).unwrap();
        assert_eq!(record.offset, i);
    }
}

#[test]
fn test_segment_invalid_offset() {
    let mut segment = LogSegment::create(100, SegmentConfig::default());
    segment.append(msgs(&[b"msg1"])).unwrap();

    let result = segment.read(50);
    assert!(result.is_err());

    let result = segment.read(200);
    assert!(result.is_err());
}

#[test]
fn segment_reopen_drops_corrupted_tail() {
    let mut segment = LogSegment::create(0, SegmentConfig::default());
    segment.append(msgs(&[b"one", b"two"])).unwrap();
    let mut log = segment.log_contents().to_vec();
    let len = log.len();
    log[len - 1] ^= 0xFF;
    let reopened = LogSegment::open(0, &log, &segment.index_contents(), SegmentConfig::default());
    assert_eq!(reopened.next_offset(), 1);
    assert_eq!(reopened.read(0).unwrap().value, b"one");
    assert!(reopened.read(1).is_err());
}

#[test]
fn segment_size_tracks_log_bytes() {
    let mut segment = LogSegment::create(0, SegmentConfig::default());
    assert_eq!(segment.size(), 0);
    segment.append(msgs(&[b"abc"])).unwrap();
    assert_eq!(segment.size() as usize, segment.log_contents().len());
}

#[test]
fn segment_empty_append_refused() {
    let mut segment = LogSegment::create(0, SegmentConfig::default());
    assert!(segment.append(vec![]).is_err());
    assert_eq!(segment.next_offset(), 0);
}
