use gaffa::coordinator::GroupCoordinator;
use gaffa::messages::{PartitionAssignment, Request, Response};
use gaffa::offsets::OffsetManager;
use gaffa::server::process_group_request;
use gaffa::time::Duration;
use gaffa::topic::TopicManager;

fn broker() -> (GroupCoordinator, OffsetManager, TopicManager) {
    let mut topics = TopicManager::new("/tmp/gaffa".to_string());
    topics.create_topic("t".to_string(), 3).unwrap();
    (GroupCoordinator::new(Duration::from_secs(30)), OffsetManager::new("/tmp/gaffa/offsets".to_string()), topics)
}

#[test]
fn join_assigns_partitions_of_existing_topics() {
    let (mut groups, mut offsets, topics) = broker();
    let request = Request::JoinGroup {
        group_id: "g".to_string(),
        member_id: Some("m1".to_string()),
        topics: vec!["t".to_string(), "missing".to_string()],
    };
    match process_group_request(request, &mut groups, &mut offsets, &topics) {
        Response::JoinGroupSuccess { group_id, member_id, assignments } => {
            assert_eq!(group_id, "g");
            assert_eq!(member_id, "m1");
            assert_eq!(
                assignments,
                vec![
                    PartitionAssignment::new("t".to_string(), 0),
                    PartitionAssignment::new("t".to_string(), 1),
                    PartitionAssignment::new("t".to_string(), 2),
                ]
            );
        }
        other => panic!("unexpected {:?}", other),
    }
    assert_eq!(groups.get_group_size("g"), Some(1));
    assert_eq!(groups.generation("g"), 1);
}

#[test]
fn join_without_id_gets_generated_one() {
    let (mut groups, mut offsets, topics) = broker();
    let request = Request::JoinGroup { group_id: "g".to_string(), member_id: None, topics: vec![] };
    match process_group_request(request, &mut groups, &mut offsets, &topics) {
        Response::JoinGroupSuccess { member_id, assignments, .. } => {
            assert!(member_id.starts_with("g-"));
            assert_eq!(member_id.len(), 10);
            assert!(assignments.is_empty());
        }
        other => panic!("unexpected {:?}", other),
    }
}

#[test]
fn leave_and_heartbeat_answers() {
    let (mut groups, mut offsets, topics) = broker();
    let join = Request::JoinGroup { group_id: "g".to_string(), member_id: Some("m".to_string()), topics: vec![] };
    process_group_request(join, &mut groups, &mut offsets, &topics);

    let hb = Request::Heartbeat { group_id: "g".to_string(), member_id: "m".to_string() };
    assert!(matches!(process_group_request(hb, &mut groups, &mut offsets, &topics), Response::HeartbeatSuccess));

    let bad = Request::Heartbeat { group_id: "g".to_string(), member_id: "x".to_string() };
    match process_group_request(bad, &mut groups, &mut offsets, &topics) {
        Response::HeartbeatError { error, needs_rejoin } => {
            assert_eq!(error, "Consumer not found: x");
            assert!(needs_rejoin);
        }
        other => panic!("unexpected {:?}", other),
    }

    let leave = Request::LeaveGroup { group_id: "g".to_string(), member_id: "m".to_string() };
    match process_group_request(leave, &mut groups, &mut offsets, &topics) {
        Response::LeaveGroupSuccess { group_id } => assert_eq!(group_id, "g"),
        other => panic!("unexpected {:?}", other),
    }
    assert_eq!(groups.get_group_size("g"), None);

    let again = Request::LeaveGroup { group_id: "g".to_string(), member_id: "m".to_string() };
    match process_group_request(again, &mut groups, &mut offsets, &topics) {
        Response::LeaveGroupError { error } => assert_eq!(error, "Consumer group not found: g"),
        other => panic!("unexpected {:?}", other),
    }
}

#[test]
fn commit_then_fetch_offset() {
    let (mut groups, mut offsets, topics) = broker();
    let fetch = || Request::FetchOffset { group_id: "g".to_string(), topic: "t".to_string(), partition: 1 };
    match process_group_request(fetch(), &mut groups, &mut offsets, &topics) {
        Response::FetchOffsetSuccess { offset, .. } => assert_eq!(offset, 0),
        other => panic!("unexpected {:?}", other),
    }
    let commit = Request::CommitOffset { group_id: "g".to_string(), topic: "t".to_string(), partition: 1, offset: 42 };
    match process_group_request(commit, &mut groups, &mut offsets, &topics) {
        Response::CommitOffsetSuccess { group_id, topic, partition } => {
            assert_eq!((group_id.as_str(), topic.as_str(), partition), ("g", "t", 1));
        }
        other => panic!("unexpected {:?}", other),
    }
    match process_group_request(fetch(), &mut groups, &mut offsets, &topics) {
        Response::FetchOffsetSuccess { group_id, topic, partition, offset } => {
            assert_eq!((group_id.as_str(), topic.as_str(), partition, offset), ("g", "t", 1, 42));
        }
        other => panic!("unexpected {:?}", other),
    }
    assert_eq!(offsets.group_file_text("g"), "t:1=42\n");
}
