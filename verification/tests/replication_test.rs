use gaffa::cluster::{BrokerInfo, ClusterMetadata};
use gaffa::messages::Message;
use gaffa::replication::{assign_replicas, ReplicationFetchRequest, ReplicationManager};
use gaffa::time::Duration;
use gaffa::topic::TopicManager;

#[test]
fn test_assign_partition_replicas() {
    let mut cluster = ClusterMetadata::new(1, Duration::from_secs(30), 100);
    cluster.register_broker(BrokerInfo::new(1, "localhost".to_string(), 9092));
    cluster.register_broker(BrokerInfo::new(2, "localhost".to_string(), 9093));
    cluster.register_broker(BrokerInfo::new(3, "localhost".to_string(), 9094));

    let topic_manager = TopicManager::new("/tmp/gaffa".to_string());

    let repl_mgr = ReplicationManager::new(cluster, topic_manager, 3, 100);

    let (leader, replicas) = repl_mgr.assign_partition_replicas("test-topic", 0);
    assert_eq!(replicas.len(), 3);
    assert_eq!(leader, replicas[0]);
}

#[test]
fn replication_test_replication_stats() {
    let mut cluster = ClusterMetadata::new(1, Duration::from_secs(30), 100);
    cluster.register_broker(BrokerInfo::new(1, "localhost".to_string(), 9092));

    cluster.set_partition_replicas("test-topic".to_string(), 0, 1, vec![1]);

    let topic_manager = TopicManager::new("/tmp/gaffa".to_string());

    let repl_mgr = ReplicationManager::new(cluster, topic_manager, 1, 100);

    let stats = repl_mgr.get_replication_stats();
    assert_eq!(stats.total_partitions, 1);
    assert_eq!(stats.leader_partitions, 1);
}

#[test]
fn replicas_rotate_with_partition() {
    let brokers = vec![
        BrokerInfo::new_at(1, "h".to_string(), 1, 0),
        BrokerInfo::new_at(2, "h".to_string(), 2, 0),
        BrokerInfo::new_at(3, "h".to_string(), 3, 0),
    ];
    assert_eq!(assign_replicas(&brokers, 9, 2, 0), (1, vec![1, 2]));
    assert_eq!(assign_replicas(&brokers, 9, 2, 1), (2, vec![2, 3]));
    assert_eq!(assign_replicas(&brokers, 9, 2, 2), (3, vec![3, 1]));
    assert_eq!(assign_replicas(&brokers, 9, 5, 4), (2, vec![2, 3, 1]));
}

#[test]
fn no_alive_brokers_assigns_self() {
    assert_eq!(assign_replicas(&vec![], 7, 3, 5), (7, vec![7]));
}

#[test]
fn leader_serves_replication_fetch() {
    let mut cluster = ClusterMetadata::new(1, Duration::from_secs(30), 100);
    cluster.set_partition_replicas("t".to_string(), 0, 1, vec![1, 2]);
    let mut topics = TopicManager::new("d".to_string());
    topics.create_topic("t".to_string(), 1).unwrap();
    topics.append("t", 0, vec![Message::new(b"a".to_vec()), Message::new(b"b".to_vec())]).unwrap();
    let mgr = ReplicationManager::new(cluster, topics, 2, 100);

    let resp = mgr
        .handle_replication_fetch(ReplicationFetchRequest {
            topic: "t".to_string(),
            partition: 0,
            offset: 1,
            max_records: 10,
        })
        .unwrap();
    assert_eq!(resp.records.len(), 1);
    assert_eq!(resp.records[0].message.value, b"b");
    assert_eq!(resp.leader_epoch, 0);

    let none = mgr.handle_replication_fetch(ReplicationFetchRequest {
        topic: "other".to_string(),
        partition: 0,
        offset: 0,
        max_records: 10,
    });
    assert!(none.is_none());
}

#[test]
fn follower_does_not_serve_fetch() {
    let mut cluster = ClusterMetadata::new(2, Duration::from_secs(30), 100);
    cluster.set_partition_replicas("t".to_string(), 0, 1, vec![1, 2]);
    let mgr = ReplicationManager::new(cluster, TopicManager::new("d".to_string()), 2, 100);
    let r = mgr.handle_replication_fetch(ReplicationFetchRequest {
        topic: "t".to_string(),
        partition: 0,
        offset: 0,
        max_records: 1,
    });
    assert!(r.is_none());
}

#[test]
fn acknowledge_and_lag_follow_offsets() {
    let mut cluster = ClusterMetadata::new(1, Duration::from_secs(30), 100);
    cluster.set_partition_replicas("t".to_string(), 0, 1, vec![1, 2]);
    cluster.update_replica_offset("t", 0, 2, 40);
    let mut mgr = ReplicationManager::new(cluster, TopicManager::new("d".to_string()), 2, 100);
    mgr.update_leader_offset("t", 0, 50);
    assert_eq!(mgr.get_replication_lag("t", 0, 2), Some(10));
    assert_eq!(mgr.get_replication_lag("t", 0, 3), None);
    assert!(mgr.can_acknowledge_write("t", 0, 40));
    assert!(!mgr.can_acknowledge_write("t", 0, 41));
    assert!(!mgr.can_acknowledge_write("nope", 0, 1));
}

#[test]
fn follower_step_tracks_local_log() {
    let mut cluster = ClusterMetadata::new(2, Duration::from_secs(30), 100);
    cluster.set_partition_replicas("t".to_string(), 0, 1, vec![1, 2]);
    let mut topics = TopicManager::new("d".to_string());
    topics.create_topic("t".to_string(), 1).unwrap();
    topics.append("t", 0, vec![Message::new(b"x".to_vec())]).unwrap();
    let mut mgr = ReplicationManager::new(cluster, topics, 2, 100);
    assert!(mgr.follower_step("t", 0));
    assert_eq!(mgr.cluster().get_partition_leader("t", 0), Some(1));

    let mut cluster = ClusterMetadata::new(1, Duration::from_secs(30), 100);
    cluster.set_partition_replicas("t".to_string(), 0, 1, vec![1]);
    let mut leader = ReplicationManager::new(cluster, TopicManager::new("d".to_string()), 1, 100);
    assert!(!leader.follower_step("t", 0));
}
