use gaffa::cluster::{BrokerInfo, ClusterMetadata, PartitionReplicaState};
use gaffa::time::Duration;

#[test]
fn test_partition_replica_state() {
    let mut state = PartitionReplicaState::new("test-topic".to_string(), 0, 1, vec![1, 2, 3]);

    assert_eq!(state.leader, 1);
    assert_eq!(state.isr.len(), 3);
    assert_eq!(state.high_watermark, 0);

    // Update leader offset
    state.update_replica_offset(1, 100, 10);
    assert_eq!(state.replica_offsets.get(&1), Some(&100));

    // Update follower offset
    state.update_replica_offset(2, 95, 10);
    assert!(state.isr.contains(&2)); // Within lag threshold

    // Follower falls behind
    state.update_replica_offset(3, 80, 10);
    assert!(!state.isr.contains(&3)); // Outside lag threshold

    // High watermark should be minimum of ISR
    assert_eq!(state.high_watermark, 95);
}

#[test]
fn cluster_test_leader_election() {
    let mut state = PartitionReplicaState::new("test-topic".to_string(), 0, 1, vec![1, 2, 3]);

    // Remove leader from ISR
    state.isr.remove(&1);

    // Elect new leader
    let new_leader = state.elect_new_leader();
    assert!(new_leader.is_some());
    assert_ne!(new_leader.unwrap(), 1);
    assert_eq!(state.leader_epoch, 1);
}

#[test]
fn test_cluster_metadata() {
    let mut cluster = ClusterMetadata::new(1, Duration::from_secs(30), 100);

    cluster.register_broker(BrokerInfo::new(1, "localhost".to_string(), 9092));
    cluster.register_broker(BrokerInfo::new(2, "localhost".to_string(), 9093));
    cluster.register_broker(BrokerInfo::new(3, "localhost".to_string(), 9094));

    assert_eq!(cluster.get_alive_brokers().len(), 3);

    cluster.set_partition_replicas("test-topic".to_string(), 0, 1, vec![1, 2, 3]);

    assert_eq!(cluster.get_partition_leader("test-topic", 0), Some(1));
    assert_eq!(cluster.get_partition_replicas("test-topic", 0).len(), 3);
    assert!(cluster.is_partition_leader("test-topic", 0));
}

#[test]
fn test_broker_failure() {
    let mut cluster = ClusterMetadata::new(1, Duration::from_secs(30), 100);

    cluster.register_broker(BrokerInfo::new(1, "localhost".to_string(), 9092));
    cluster.register_broker(BrokerInfo::new(2, "localhost".to_string(), 9093));

    cluster.set_partition_replicas("test-topic".to_string(), 0, 1, vec![1, 2]);

    // Simulate broker 1 failure
    let new_leaders = cluster.handle_broker_failure(1);
    assert_eq!(new_leaders.len(), 1);
    assert_eq!(new_leaders[0].2, 2); // New leader should be broker 2
}

#[test]
fn broker_alive_within_timeout_at_explicit_times() {
    let mut broker = BrokerInfo::new_at(1, "localhost".to_string(), 9092, 1_000);
    assert!(broker.is_alive_at(Duration::from_secs(30), 1_100));
    assert!(!broker.is_alive_at(Duration::from_millis(50), 1_100));
    broker.update_heartbeat_at(1_100);
    assert!(broker.is_alive_at(Duration::from_millis(50), 1_120));
}

#[test]
fn broker_heard_now_is_alive() {
    let broker = BrokerInfo::new(7, "localhost".to_string(), 9092);
    assert!(broker.is_alive(Duration::from_secs(30)));
}

#[test]
fn high_watermark_is_min_of_in_sync_offsets() {
    let mut state = PartitionReplicaState::new("t".to_string(), 0, 1, vec![1, 2]);
    state.update_replica_offset(1, 50, 100);
    state.update_replica_offset(2, 30, 100);
    assert_eq!(state.high_watermark, 30);
    state.update_replica_offset(2, 60, 100);
    assert_eq!(state.high_watermark, 50);
}

#[test]
fn lagging_follower_rejoins_isr_when_caught_up() {
    let mut state = PartitionReplicaState::new("t".to_string(), 0, 1, vec![1, 2]);
    state.update_replica_offset(1, 100, 10);
    state.update_replica_offset(2, 50, 10);
    assert!(!state.isr.contains(&2));
    state.update_replica_offset(2, 95, 10);
    assert!(state.isr.contains(&2));
}

#[test]
fn empty_isr_elects_first_replica() {
    let mut state = PartitionReplicaState::new("t".to_string(), 0, 1, vec![1]);
    state.isr.remove(&1);
    assert_eq!(state.elect_new_leader(), Some(1));
    assert_eq!(state.leader_epoch, 1);
    assert!(state.isr.contains(&1));
}

#[test]
fn no_election_without_replicas() {
    let mut state = PartitionReplicaState::new("t".to_string(), 0, 1, vec![]);
    assert_eq!(state.elect_new_leader(), None);
    assert_eq!(state.leader_epoch, 0);
}

#[test]
fn failure_of_follower_elects_nobody() {
    let mut cluster = ClusterMetadata::new(1, Duration::from_secs(30), 100);
    cluster.set_partition_replicas("t".to_string(), 0, 1, vec![1, 2]);
    let new_leaders = cluster.handle_broker_failure(2);
    assert!(new_leaders.is_empty());
    assert!(!cluster.get_partition_isr("t", 0).contains(&2));
    assert_eq!(cluster.get_partition_leader("t", 0), Some(1));
}

#[test]
fn alive_brokers_at_excludes_stale() {
    let mut cluster = ClusterMetadata::new(1, Duration::from_secs(1), 100);
    cluster.register_broker(BrokerInfo::new_at(1, "h".to_string(), 1, 10_000));
    cluster.register_broker(BrokerInfo::new_at(2, "h".to_string(), 2, 1_000));
    let alive = cluster.get_alive_brokers_at(10_500);
    assert_eq!(alive.len(), 1);
    assert_eq!(alive[0].id, 1);
    assert!(cluster.is_broker_alive_at(1, 10_500));
    assert!(!cluster.is_broker_alive_at(2, 10_500));
    assert!(!cluster.is_broker_alive_at(3, 10_500));
}

#[test]
fn unknown_partition_defaults() {
    let cluster = ClusterMetadata::new(1, Duration::from_secs(1), 100);
    assert_eq!(cluster.get_partition_leader("nope", 0), None);
    assert!(cluster.get_partition_replicas("nope", 0).is_empty());
    assert_eq!(cluster.get_high_watermark("nope", 0), 0);
    assert!(!cluster.is_partition_leader("nope", 0));
}
