use gaffa::client::{
    first_base_offset, heartbeat_outcome, produced_offset, topic_created, ConsumerState, HeartbeatOutcome,
    ProducerState,
};
use gaffa::error::GaffaError;
use gaffa::messages::{Message, PartitionAssignment, Record, Request, Response};
use gaffa::partitioner::{KeyHashPartitioner, RoundRobinPartitioner};
use gaffa::time::Duration;

#[test]
fn test_consumer_creation() {
    let consumer = ConsumerState::new();
    assert!(consumer.group_id().is_none());
    assert!(consumer.member_id().is_none());
    assert!(consumer.assignments().is_empty());
    assert_eq!(consumer.auto_commit_interval(), Duration::from_secs(5));
}

#[test]
fn test_producer_creation() {
    let producer = ProducerState::new(RoundRobinPartitioner::new());
    assert_eq!(producer.cached_partition_count("any"), None);
}

#[test]
fn join_needs_group() {
    let consumer = ConsumerState::new();
    match consumer.join_group_request(vec!["t".to_string()]) {
        Err(GaffaError::Protocol(s)) => assert_eq!(s, "Group ID not set"),
        _ => panic!("expected refusal"),
    }
    let consumer = ConsumerState::new().with_group_id("g".to_string());
    match consumer.join_group_request(vec!["t".to_string()]) {
        Ok(Request::JoinGroup { group_id, member_id, topics }) => {
            assert_eq!(group_id, "g");
            assert_eq!(member_id, None);
            assert_eq!(topics, vec!["t".to_string()]);
        }
        _ => panic!("expected join request"),
    }
}

#[test]
fn join_then_leave_updates_membership() {
    let mut consumer = ConsumerState::new().with_group_id("g".to_string());
    let assigned = consumer
        .finish_join(Response::JoinGroupSuccess {
            group_id: "g".to_string(),
            member_id: "g-1".to_string(),
            assignments: vec![PartitionAssignment::new("t".to_string(), 1)],
        })
        .unwrap();
    assert_eq!(assigned, vec![PartitionAssignment::new("t".to_string(), 1)]);
    assert_eq!(consumer.member_id(), Some(&"g-1".to_string()));
    match consumer.leave_group_request() {
        Ok(Request::LeaveGroup { group_id, member_id }) => {
            assert_eq!(group_id, "g");
            assert_eq!(member_id, "g-1");
        }
        _ => panic!("expected leave request"),
    }
    consumer.finish_leave(Response::LeaveGroupSuccess { group_id: "g".to_string() }).unwrap();
    assert!(consumer.member_id().is_none());
    assert!(consumer.assignments().is_empty());
}

#[test]
fn leave_refusals() {
    let consumer = ConsumerState::new();
    assert_eq!(consumer.leave_group_request().err(), Some(GaffaError::Protocol("Not in a group".to_string())));
    let consumer = ConsumerState::new().with_group_id("g".to_string());
    assert_eq!(consumer.leave_group_request().err(), Some(GaffaError::Protocol("Member ID not set".to_string())));
}

#[test]
fn offsets_advance_past_fetched_records() {
    let mut consumer = ConsumerState::new();
    consumer.subscribe_topic("t", 2);
    assert_eq!(consumer.get_offset("t", 0), Some(0));
    assert_eq!(consumer.get_offset("t", 1), Some(0));
    let records = vec![
        Record { topic: "t".to_string(), partition: 1, offset: 3, message: Message::new(b"a".to_vec()) },
        Record { topic: "t".to_string(), partition: 1, offset: 4, message: Message::new(b"b".to_vec()) },
    ];
    consumer.advance("t", 1, &records);
    assert_eq!(consumer.get_offset("t", 1), Some(5));
    consumer.advance("t", 0, &vec![]);
    assert_eq!(consumer.get_offset("t", 0), Some(0));
    consumer.seek("t", 0, 9);
    assert_eq!(consumer.poll_plan(), vec![("t".to_string(), 0, 9), ("t".to_string(), 1, 5)]);
}

#[test]
fn commit_requests_need_group() {
    let mut consumer = ConsumerState::new();
    consumer.commit_offset("t", 0, 7);
    assert_eq!(
        consumer.commit_requests().err(),
        Some(GaffaError::Protocol("Not in a consumer group".to_string()))
    );
    let consumer = consumer.with_group_id("g".to_string());
    let reqs = consumer.commit_requests().unwrap();
    assert_eq!(reqs.len(), 1);
    match &reqs[0] {
        Request::CommitOffset { group_id, topic, partition, offset } => {
            assert_eq!(group_id, "g");
            assert_eq!(topic, "t");
            assert_eq!(*partition, 0);
            assert_eq!(*offset, 7);
        }
        _ => panic!("expected commit"),
    }
}

#[test]
fn auto_commit_only_when_on_and_fetched() {
    let consumer = ConsumerState::new();
    assert!(!consumer.should_auto_commit(3));
    let consumer = consumer.with_auto_commit(Some(Duration::from_secs(1)));
    assert!(consumer.should_auto_commit(3));
    assert!(!consumer.should_auto_commit(0));
    assert_eq!(consumer.auto_commit_interval(), Duration::from_secs(1));
}

#[test]
fn responses_map_to_results() {
    assert_eq!(
        topic_created(Response::CreateTopicSuccess { name: "t".to_string(), partitions: 1 }),
        Ok(())
    );
    assert_eq!(
        topic_created(Response::CreateTopicError { error: "boom".to_string() }),
        Err(GaffaError::Protocol("boom".to_string()))
    );
    assert_eq!(
        produced_offset(Response::ProduceSuccess {
            topic: "t".to_string(),
            partition: 0,
            base_offset: 12,
            count: 1
        }),
        Ok(12)
    );
    assert!(produced_offset(Response::HeartbeatSuccess).is_err());
}

#[test]
fn heartbeat_outcomes() {
    assert!(matches!(heartbeat_outcome(Some(Ok(Response::HeartbeatSuccess))), HeartbeatOutcome::Acknowledged));
    assert!(matches!(
        heartbeat_outcome(Some(Ok(Response::HeartbeatError { error: "x".to_string(), needs_rejoin: true }))),
        HeartbeatOutcome::Refused { needs_rejoin: true, .. }
    ));
    assert!(matches!(heartbeat_outcome(None), HeartbeatOutcome::Stop));
    assert!(matches!(
        heartbeat_outcome(Some(Err(GaffaError::Connection("closed".to_string())))),
        HeartbeatOutcome::Stop
    ));
    assert!(matches!(heartbeat_outcome(Some(Ok(Response::Topics { topics: vec![] }))), HeartbeatOutcome::Unexpected));
}

#[test]
fn producer_batches_by_partition_in_first_use_order() {
    let mut producer = ProducerState::new(RoundRobinPartitioner::new());
    let msgs: Vec<Message> = (0..5u8).map(|i| Message::new(vec![i])).collect();
    let batches = producer.batch_messages(msgs, 2);
    assert_eq!(batches.len(), 2);
    assert_eq!(batches[0].0, 0);
    assert_eq!(batches[0].1.iter().map(|m| m.value[0]).collect::<Vec<_>>(), vec![0, 2, 4]);
    assert_eq!(batches[1].0, 1);
    assert_eq!(batches[1].1.iter().map(|m| m.value[0]).collect::<Vec<_>>(), vec![1, 3]);
}

#[test]
fn producer_keyed_messages_share_a_batch() {
    let mut producer = ProducerState::new(KeyHashPartitioner::new());
    let msgs = vec![
        Message::new(b"a".to_vec()).with_key(b"k".to_vec()),
        Message::new(b"b".to_vec()).with_key(b"k".to_vec()),
    ];
    let batches = producer.batch_messages(msgs, 4);
    assert_eq!(batches.len(), 1);
    assert_eq!(batches[0].1.len(), 2);
}

#[test]
fn producer_remembers_partition_counts() {
    let mut producer = ProducerState::new(RoundRobinPartitioner::new());
    assert_eq!(producer.partition_count_or_not_found("t"), Err(GaffaError::TopicNotFound("t".to_string())));
    producer.record_partitions(Response::Partitions { topic: "t".to_string(), count: 3 }).unwrap();
    assert_eq!(producer.cached_partition_count("t"), Some(3));
    assert_eq!(producer.partition_count_or_not_found("t"), Ok(3));
}

#[test]
fn first_nonzero_base_offset_wins() {
    assert_eq!(first_base_offset(0, 7), 7);
    assert_eq!(first_base_offset(3, 7), 3);
}
