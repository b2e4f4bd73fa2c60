use gaffa::error::GaffaError;
use gaffa::messages::{Message, Request, Response};
use gaffa::partition::Partition;
use gaffa::server::process_request;
use gaffa::topic::{Topic, TopicManager};

fn msgs(values: &[&[u8]]) -> Vec<Message> {
    values.iter().map(|v| Message::new(v.to_vec())).collect()
}

#[test]
fn test_partition_append_and_fetch() {
    let mut partition = Partition::new("test-topic".to_string(), 0);
    let base_offset = partition.append(msgs(&[b"message1", b"message2", b"message3"])).unwrap();
    assert_eq!(base_offset, 0);

    let records = partition.fetch(0, 10).unwrap();
    assert_eq!(records.len(), 3);
    assert_eq!(records[0].offset, 0);
    assert_eq!(records[1].offset, 1);
    assert_eq!(records[2].offset, 2);
    assert_eq!(records[0].message.value, b"message1");
}

#[test]
fn test_partition_append_multiple_batches() {
    let mut partition = Partition::new("test-topic".to_string(), 0);
    let offset1 = partition.append(msgs(&[b"msg1", b"msg2"])).unwrap();
    assert_eq!(offset1, 0);
    let offset2 = partition.append(msgs(&[b"msg3"])).unwrap();
    assert_eq!(offset2, 2);

    let records = partition.fetch(1, 2).unwrap();
    assert_eq!(records.len(), 2);
    assert_eq!(records[0].offset, 1);
    assert_eq!(records[1].offset, 2);
}

#[test]
fn test_partition_fetch_with_limit() {
    let mut partition = Partition::new("test-topic".to_string(), 0);
    partition.append(msgs(&[b"msg1", b"msg2", b"msg3", b"msg4", b"msg5"])).unwrap();

    let records = partition.fetch(1, 2).unwrap();
    assert_eq!(records.len(), 2);
    assert_eq!(records[0].offset, 1);
    assert_eq!(records[1].offset, 2);
}

#[test]
fn test_partition_invalid_offset() {
    let mut partition = Partition::new("test-topic".to_string(), 0);
    partition.append(msgs(&[b"msg1"])).unwrap();

    let result = partition.fetch(10, 1);
    assert!(result.is_err());
    assert!(matches!(result.unwrap_err(), GaffaError::InvalidOffset(_)));
}

#[test]
fn test_partition_next_offset() {
    let mut partition = Partition::new("test-topic".to_string(), 0);
    assert_eq!(partition.next_offset(), 0);
    partition.append(msgs(&[b"msg1", b"msg2"])).unwrap();
    assert_eq!(partition.next_offset(), 2);
}

#[test]
fn test_partition_empty_messages() {
    let mut partition = Partition::new("test-topic".to_string(), 0);
    let result = partition.append(vec![]);
    assert!(result.is_err());
}

#[test]
fn partition_fetch_at_end_is_empty() {
    let mut partition = Partition::new("t".to_string(), 4);
    partition.append(msgs(&[b"a"])).unwrap();
    let records = partition.fetch(1, 5).unwrap();
    assert!(records.is_empty());
    assert_eq!(partition.partition_id(), 4);
}

#[test]
fn test_topic_creation() {
    let topic = Topic::new("test-topic".to_string(), 3);
    assert_eq!(topic.name(), "test-topic");
    assert_eq!(topic.num_partitions(), 3);
}

#[test]
fn test_topic_get_partition() {
    let topic = Topic::new("test-topic".to_string(), 3);

    let partition = topic.get_partition(0);
    assert!(partition.is_ok());
    assert_eq!(partition.unwrap().partition_id(), 0);

    let partition = topic.get_partition(5);
    assert!(partition.is_err());
}

#[test]
fn test_topic_append_and_fetch() {
    let mut topic = Topic::new("test-topic".to_string(), 2);
    let offset = topic.append(0, msgs(&[b"msg1", b"msg2"])).unwrap();
    assert_eq!(offset, 0);

    let records = topic.fetch(0, 0, 10).unwrap();
    assert_eq!(records.len(), 2);
    assert_eq!(records[0].partition, 0);
}

#[test]
fn test_topic_manager_create() {
    let mut manager = TopicManager::new("/tmp/gaffa".to_string());

    let result = manager.create_topic("test-topic".to_string(), 3);
    assert!(result.is_ok());
    let topic = manager.get_topic("test-topic").unwrap();
    assert_eq!(topic.name(), "test-topic");
    assert_eq!(topic.num_partitions(), 3);

    let result = manager.create_topic("test-topic".to_string(), 3);
    assert!(result.is_err());
}

#[test]
fn test_topic_manager_get() {
    let mut manager = TopicManager::new("/tmp/gaffa".to_string());
    manager.create_topic("test-topic".to_string(), 3).unwrap();

    let topic = manager.get_topic("test-topic");
    assert!(topic.is_ok());
    assert_eq!(topic.unwrap().name(), "test-topic");

    let topic = manager.get_topic("non-existent");
    assert!(topic.is_err());
}

#[test]
fn test_topic_manager_list() {
    let mut manager = TopicManager::new("/tmp/gaffa".to_string());
    assert_eq!(manager.list_topics().len(), 0);

    manager.create_topic("topic1".to_string(), 1).unwrap();
    manager.create_topic("topic2".to_string(), 2).unwrap();

    let topics = manager.list_topics();
    assert_eq!(topics.len(), 2);
    assert!(topics.contains(&"topic1".to_string()));
    assert!(topics.contains(&"topic2".to_string()));
}

#[test]
fn test_topic_manager_topic_count() {
    let mut manager = TopicManager::new("/tmp/gaffa".to_string());
    assert_eq!(manager.topic_count(), 0);

    manager.create_topic("topic1".to_string(), 1).unwrap();
    assert_eq!(manager.topic_count(), 1);

    manager.create_topic("topic2".to_string(), 2).unwrap();
    assert_eq!(manager.topic_count(), 2);
}

#[test]
fn duplicate_topic_error_text() {
    let mut manager = TopicManager::new("d".to_string());
    manager.create_topic("t".to_string(), 1).unwrap();
    match manager.create_topic("t".to_string(), 1) {
        Err(e) => assert_eq!(e.to_message(), "Invalid message: Topic 't' already exists"),
        Ok(()) => panic!("duplicate accepted"),
    }
}

#[test]
fn manager_append_to_missing_partition() {
    let mut manager = TopicManager::new("d".to_string());
    manager.create_topic("t".to_string(), 1).unwrap();
    let r = manager.append("t", 3, msgs(&[b"x"]));
    assert_eq!(r, Err(GaffaError::PartitionNotFound("t".to_string(), 3)));
}

#[test]
fn test_process_create_topic() {
    let mut topic_manager = TopicManager::new("/tmp/gaffa".to_string());
    let request = Request::CreateTopic { name: "test-topic".to_string(), partitions: 3 };

    match process_request(request, &mut topic_manager) {
        Response::CreateTopicSuccess { name, partitions } => {
            assert_eq!(name, "test-topic");
            assert_eq!(partitions, 3);
        }
        _ => panic!("Expected CreateTopicSuccess"),
    }
}

#[test]
fn test_process_create_duplicate_topic() {
    let mut topic_manager = TopicManager::new("/tmp/gaffa".to_string());
    topic_manager.create_topic("test-topic".to_string(), 3).unwrap();
    let request = Request::CreateTopic { name: "test-topic".to_string(), partitions: 3 };

    match process_request(request, &mut topic_manager) {
        Response::CreateTopicError { error } => assert!(error.contains("already exists")),
        _ => panic!("Expected CreateTopicError"),
    }
}

#[test]
fn test_process_produce() {
    let mut topic_manager = TopicManager::new("/tmp/gaffa".to_string());
    topic_manager.create_topic("test-topic".to_string(), 3).unwrap();

    let request = Request::Produce {
        topic: "test-topic".to_string(),
        partition: 0,
        messages: msgs(&[b"msg1", b"msg2"]),
    };

    match process_request(request, &mut topic_manager) {
        Response::ProduceSuccess { topic, partition, base_offset, count } => {
            assert_eq!(topic, "test-topic");
            assert_eq!(partition, 0);
            assert_eq!(base_offset, 0);
            assert_eq!(count, 2);
        }
        _ => panic!("Expected ProduceSuccess"),
    }
}

#[test]
fn test_process_produce_nonexistent_topic() {
    let mut topic_manager = TopicManager::new("/tmp/gaffa".to_string());
    let request = Request::Produce {
        topic: "nonexistent".to_string(),
        partition: 0,
        messages: msgs(&[b"msg"]),
    };

    match process_request(request, &mut topic_manager) {
        Response::ProduceError { error } => assert!(error.contains("not found")),
        _ => panic!("Expected ProduceError"),
    }
}

#[test]
fn test_process_fetch() {
    let mut topic_manager = TopicManager::new("/tmp/gaffa".to_string());
    topic_manager.create_topic("test-topic".to_string(), 1).unwrap();

    let produce_req = Request::Produce {
        topic: "test-topic".to_string(),
        partition: 0,
        messages: msgs(&[b"msg1", b"msg2"]),
    };
    process_request(produce_req, &mut topic_manager);

    let fetch_req = Request::Fetch {
        topic: "test-topic".to_string(),
        partition: 0,
        offset: 0,
        max_messages: 10,
    };

    match process_request(fetch_req, &mut topic_manager) {
        Response::FetchSuccess { topic, partition, records } => {
            assert_eq!(topic, "test-topic");
            assert_eq!(partition, 0);
            assert_eq!(records.len(), 2);
            assert_eq!(records[0].message.value, b"msg1");
            assert_eq!(records[1].message.value, b"msg2");
        }
        _ => panic!("Expected FetchSuccess"),
    }
}

#[test]
fn test_process_fetch_nonexistent_topic() {
    let mut topic_manager = TopicManager::new("/tmp/gaffa".to_string());
    let request = Request::Fetch {
        topic: "nonexistent".to_string(),
        partition: 0,
        offset: 0,
        max_messages: 10,
    };

    match process_request(request, &mut topic_manager) {
        Response::FetchError { error } => assert!(error.contains("not found")),
        _ => panic!("Expected FetchError"),
    }
}

#[test]
fn process_list_topics_and_partitions() {
    let mut topic_manager = TopicManager::new("d".to_string());
    topic_manager.create_topic("a".to_string(), 2).unwrap();
    match process_request(Request::ListTopics, &mut topic_manager) {
        Response::Topics { topics } => assert_eq!(topics, vec!["a".to_string()]),
        _ => panic!("Expected Topics"),
    }
    match process_request(Request::GetPartitions { topic: "a".to_string() }, &mut topic_manager) {
        Response::Partitions { topic, count } => {
            assert_eq!(topic, "a");
            assert_eq!(count, 2);
        }
        _ => panic!("Expected Partitions"),
    }
    match process_request(Request::GetMetadata { topics: vec![] }, &mut topic_manager) {
        Response::Metadata { topics } => {
            assert_eq!(topics.len(), 1);
            assert_eq!(topics[0].partitions.len(), 2);
        }
        _ => panic!("Expected Metadata"),
    }
}
