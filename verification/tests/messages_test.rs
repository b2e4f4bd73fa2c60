use gaffa::config::BrokerConfig;
use gaffa::messages::{Message, PartitionMetadata, TopicMetadata};

#[test]
fn test_message_creation() {
    let msg = Message::new(b"test value".to_vec());
    assert_eq!(msg.value, b"test value");
    assert!(msg.key.is_none());
    assert!(msg.timestamp > 0);
}

#[test]
fn test_message_with_key() {
    let msg = Message::new(b"test value".to_vec()).with_key(b"test key".to_vec());
    assert_eq!(msg.value, b"test value");
    assert_eq!(msg.key, Some(b"test key".to_vec()));
}

#[test]
fn test_partition_metadata() {
    let pm = PartitionMetadata::new(0);
    assert_eq!(pm.id, 0);
    assert_eq!(pm.leader, 0);
    assert_eq!(pm.replicas, vec![0]);
}

#[test]
fn test_topic_metadata() {
    let tm = TopicMetadata::new("test-topic".to_string(), 3);
    assert_eq!(tm.name, "test-topic");
    assert_eq!(tm.partitions.len(), 3);
    assert_eq!(tm.partitions[0].id, 0);
    assert_eq!(tm.partitions[1].id, 1);
    assert_eq!(tm.partitions[2].id, 2);
}

#[test]
fn test_default_config() {
    let config = BrokerConfig::default();
    assert_eq!(config.host, "127.0.0.1");
    assert_eq!(config.port, 9092);
    assert_eq!(config.data_dir, "/tmp/gaffa");
}

#[test]
fn default_config_replication_settings() {
    let config = BrokerConfig::default();
    assert_eq!(config.broker_id, 0);
    assert_eq!(config.replication_factor, 1);
    assert_eq!(config.max_isr_lag, 1000);
}

#[test]
fn message_with_timestamp_keeps_value_and_key() {
    let msg = Message::new(b"v".to_vec()).with_key(b"k".to_vec()).with_timestamp(42);
    assert_eq!(msg.timestamp, 42);
    assert_eq!(msg.value, b"v");
    assert_eq!(msg.key, Some(b"k".to_vec()));
}

#[test]
fn topic_metadata_without_partitions() {
    let tm = TopicMetadata::new("empty".to_string(), 0);
    assert!(tm.partitions.is_empty());
}
