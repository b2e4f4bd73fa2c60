use gaffa::offsets::{parse_offsets_text, OffsetManager};

fn manager() -> OffsetManager {
    OffsetManager::new("/tmp/gaffa/offsets".to_string())
}

#[test]
fn test_commit_and_fetch_offset() {
    let mut manager = manager();
    manager.commit_offset("group1", "topic1", 0, 100);

    let offset = manager.fetch_offset("group1", "topic1", 0).unwrap();
    assert_eq!(offset, Some(100));

    let offset = manager.fetch_offset("group1", "topic1", 1).unwrap();
    assert_eq!(offset, None);
}

#[test]
fn test_multiple_groups() {
    let mut manager = manager();
    manager.commit_offset("group1", "topic1", 0, 100);
    manager.commit_offset("group2", "topic1", 0, 200);

    let offset1 = manager.fetch_offset("group1", "topic1", 0).unwrap();
    let offset2 = manager.fetch_offset("group2", "topic1", 0).unwrap();

    assert_eq!(offset1, Some(100));
    assert_eq!(offset2, Some(200));
}

#[test]
fn test_persistence() {
    // Commit, and keep what the group's offsets file would hold
    let text = {
        let mut manager = manager();
        manager.commit_offset("group1", "topic1", 0, 100);
        manager.commit_offset("group1", "topic2", 1, 200);
        manager.group_file_text("group1")
    };

    // A new manager loads the file
    let mut manager = manager();
    manager.load_group("group1", &text);

    let offset1 = manager.fetch_offset("group1", "topic1", 0).unwrap();
    let offset2 = manager.fetch_offset("group1", "topic2", 1).unwrap();

    assert_eq!(offset1, Some(100));
    assert_eq!(offset2, Some(200));
}

#[test]
fn test_get_group_offsets() {
    let mut manager = manager();
    manager.commit_offset("group1", "topic1", 0, 100);
    manager.commit_offset("group1", "topic1", 1, 200);
    manager.commit_offset("group2", "topic1", 0, 300);

    let group1_offsets = manager.get_group_offsets("group1");
    assert_eq!(group1_offsets.len(), 2);
    let get = |t: &str, p: u32| {
        group1_offsets.iter().find(|(k, _)| k.0 == t && k.1 == p).map(|(_, o)| *o)
    };
    assert_eq!(get("topic1", 0), Some(100));
    assert_eq!(get("topic1", 1), Some(200));
}

#[test]
fn test_delete_group() {
    let mut manager = manager();
    manager.commit_offset("group1", "topic1", 0, 100);

    manager.delete_group("group1");

    let offset = manager.fetch_offset("group1", "topic1", 0).unwrap();
    assert_eq!(offset, None);

    let group_offsets = manager.get_group_offsets("group1");
    assert_eq!(group_offsets.len(), 0);
}

#[test]
fn test_update_offset() {
    let mut manager = manager();
    manager.commit_offset("group1", "topic1", 0, 100);
    manager.commit_offset("group1", "topic1", 0, 200);

    let offset = manager.fetch_offset("group1", "topic1", 0).unwrap();
    assert_eq!(offset, Some(200));
}

#[test]
fn group_file_lines_format() {
    let mut manager = manager();
    manager.commit_offset("g", "orders", 3, 42);
    assert_eq!(manager.group_file_text("g"), "orders:3=42\n");
    assert_eq!(manager.group_file_text("other"), "");
}

#[test]
fn parse_skips_malformed_lines() {
    let parsed = parse_offsets_text("a:1=5\nbad line\nb:x=3\nc:2=\nd:4=9\r\n");
    assert_eq!(parsed, vec![("a".to_string(), 1, 5), ("d".to_string(), 4, 9)]);
}

#[test]
fn parse_splits_at_first_colon_and_accepts_plus() {
    let parsed = parse_offsets_text("ns:topic:0=7\nt:+2=+8");
    assert_eq!(parsed, vec![("t".to_string(), 2, 8)]);
}

#[test]
fn load_keeps_other_groups() {
    let mut manager = manager();
    manager.commit_offset("g2", "t", 0, 1);
    manager.load_group("g1", "t:0=9\n");
    assert_eq!(manager.fetch_offset("g1", "t", 0).unwrap(), Some(9));
    assert_eq!(manager.fetch_offset("g2", "t", 0).unwrap(), Some(1));
    assert_eq!(manager.data_dir(), "/tmp/gaffa/offsets");
}
