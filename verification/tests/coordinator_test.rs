use gaffa::coordinator::{ConsumerGroup, GroupCoordinator, GroupMember};
use gaffa::messages::PartitionAssignment;
use gaffa::time::Duration;

#[test]
fn test_join_group() {
    let mut coordinator = GroupCoordinator::new(Duration::from_secs(30));
    coordinator.update_topic_partitions("topic1".to_string(), 3);

    let (member1, assignments1) =
        coordinator.join_group("group1".to_string(), None, vec!["topic1".to_string()]).unwrap();
    assert!(!member1.is_empty());
    assert_eq!(assignments1.len(), 3);

    let (member2, assignments2) =
        coordinator.join_group("group1".to_string(), None, vec!["topic1".to_string()]).unwrap();
    assert!(!member2.is_empty());
    assert_ne!(member1, member2);
    assert!(assignments2.len() > 0);
}

#[test]
fn test_leave_group() {
    let mut coordinator = GroupCoordinator::new(Duration::from_secs(30));
    coordinator.update_topic_partitions("topic1".to_string(), 3);

    let (member1, _assignments) = coordinator
        .join_group("group1".to_string(), Some("member1".to_string()), vec!["topic1".to_string()])
        .unwrap();

    coordinator.leave_group("group1", &member1).unwrap();

    let size = coordinator.get_group_size("group1");
    assert_eq!(size, None);
}

#[test]
fn test_heartbeat() {
    let mut coordinator = GroupCoordinator::new(Duration::from_secs(30));
    coordinator.update_topic_partitions("topic1".to_string(), 3);

    let (member1, _) = coordinator
        .join_group("group1".to_string(), Some("member1".to_string()), vec!["topic1".to_string()])
        .unwrap();

    let needs_rejoin = coordinator.heartbeat("group1", &member1).unwrap();
    assert_eq!(needs_rejoin, false);

    let result = coordinator.heartbeat("group1", "invalid");
    assert!(result.is_err());
}

#[test]
fn test_dead_member_detection() {
    let mut coordinator = GroupCoordinator::new(Duration::from_millis(100));
    coordinator.update_topic_partitions("topic1".to_string(), 3);

    // Joined at 1000 ms on the clock
    let (_member1, _) = coordinator.join_group_with(
        "group1".to_string(),
        "member1".to_string(),
        vec!["topic1".to_string()],
        1_000,
    );

    // 150 ms later the member is past its timeout
    coordinator.check_heartbeats_at(1_150);

    let size = coordinator.get_group_size("group1");
    assert_eq!(size, None);
}

#[test]
fn test_round_robin_assignment() {
    let mut coordinator = GroupCoordinator::new(Duration::from_secs(30));
    coordinator.update_topic_partitions("topic1".to_string(), 6);

    let (_m1, _a1) = coordinator
        .join_group("group1".to_string(), Some("member1".to_string()), vec!["topic1".to_string()])
        .unwrap();
    let (_m2, _a2) = coordinator
        .join_group("group1".to_string(), Some("member2".to_string()), vec!["topic1".to_string()])
        .unwrap();
    let (_m3, a3) = coordinator
        .join_group("group1".to_string(), Some("member3".to_string()), vec!["topic1".to_string()])
        .unwrap();

    assert_eq!(a3.len(), 2);
    let size = coordinator.get_group_size("group1");
    assert_eq!(size, Some(3));
}

#[test]
fn test_multiple_topics() {
    let mut coordinator = GroupCoordinator::new(Duration::from_secs(30));
    coordinator.update_topic_partitions("topic1".to_string(), 2);
    coordinator.update_topic_partitions("topic2".to_string(), 3);

    let (_member1, assignments) = coordinator
        .join_group("group1".to_string(), None, vec!["topic1".to_string(), "topic2".to_string()])
        .unwrap();

    assert_eq!(assignments.len(), 5);
}

#[test]
fn generated_member_id_has_group_prefix_and_suffix() {
    let mut coordinator = GroupCoordinator::new(Duration::from_secs(30));
    let (member, _) = coordinator.join_group("g".to_string(), None, vec![]).unwrap();
    assert!(member.starts_with("g-"));
    assert_eq!(member.len(), "g-".len() + 8);
    assert!(member[2..].chars().all(|c| c.is_ascii_hexdigit()));
}

#[test]
fn live_member_survives_heartbeat_check() {
    let mut coordinator = GroupCoordinator::new(Duration::from_millis(100));
    coordinator.join_group_with("g".to_string(), "m".to_string(), vec![], 1_000);
    assert_eq!(coordinator.heartbeat_at("g", "m", 1_080), Ok(false));
    coordinator.check_heartbeats_at(1_150);
    assert_eq!(coordinator.get_group_size("g"), Some(1));
    coordinator.check_heartbeats_at(1_181);
    assert_eq!(coordinator.get_group_size("g"), None);
}

#[test]
fn leaving_unknown_group_or_member_is_refused() {
    let mut coordinator = GroupCoordinator::new(Duration::from_secs(30));
    assert!(coordinator.leave_group("nope", "m").is_err());
    coordinator.join_group_with("g".to_string(), "m".to_string(), vec![], 0);
    assert!(coordinator.leave_group("g", "other").is_err());
    assert_eq!(coordinator.get_group_size("g"), Some(1));
}

#[test]
fn rejoin_keeps_one_member_entry() {
    let mut coordinator = GroupCoordinator::new(Duration::from_secs(30));
    coordinator.update_topic_partitions("t".to_string(), 4);
    coordinator.join_group_with("g".to_string(), "m".to_string(), vec!["t".to_string()], 0);
    let (_, a) = coordinator.join_group_with("g".to_string(), "m".to_string(), vec!["t".to_string()], 5);
    assert_eq!(coordinator.get_group_size("g"), Some(1));
    assert_eq!(a.len(), 4);
}

#[test]
fn rebalance_deals_partitions_round_robin() {
    let mut group = ConsumerGroup::new("g".to_string());
    for id in ["a", "b"] {
        group.add_member(GroupMember {
            member_id: id.to_string(),
            topics: vec!["t".to_string()],
            last_heartbeat: 0,
            assignments: vec![],
        });
    }
    group.rebalance(&vec![("t".to_string(), 3)]);
    assert_eq!(
        group.members[0].assignments,
        vec![PartitionAssignment::new("t".to_string(), 0), PartitionAssignment::new("t".to_string(), 2)]
    );
    assert_eq!(group.members[1].assignments, vec![PartitionAssignment::new("t".to_string(), 1)]);
    assert_eq!(group.generation, 1);
}

#[test]
fn groups_are_listed() {
    let mut coordinator = GroupCoordinator::new(Duration::from_secs(30));
    coordinator.join_group_with("g1".to_string(), "m".to_string(), vec![], 0);
    coordinator.join_group_with("g2".to_string(), "m".to_string(), vec![], 0);
    assert_eq!(coordinator.get_groups(), vec!["g1".to_string(), "g2".to_string()]);
}
