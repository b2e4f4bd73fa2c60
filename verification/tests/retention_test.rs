use gaffa::compression::CompressionType;
use gaffa::retention::{RetentionConfig, RetentionManager, RetentionPolicy, SegmentMetadata};
use gaffa::segment::SegmentConfig;
use gaffa::time::Duration;

fn now_secs() -> u64 {
    std::time::SystemTime::now().duration_since(std::time::UNIX_EPOCH).unwrap().as_secs()
}

fn create_segment(base_offset: u64, size: u64, age_secs: u64) -> SegmentMetadata {
    let now = now_secs();
    SegmentMetadata { base_offset, size, created_at: now - age_secs }
}

#[test]
fn test_time_retention_policy() {
    let config = RetentionConfig::time(Duration::from_secs(3600)); // 1 hour

    let segments = vec![
        create_segment(0, 1000, 7200),   // 2 hours old - should delete
        create_segment(100, 1000, 5400), // 1.5 hours old - should delete
        create_segment(200, 1000, 1800), // 30 min old - keep
        create_segment(300, 1000, 900),  // 15 min old - keep
    ];

    let manager = RetentionManager::new(config);
    let to_delete = manager.segments_to_delete(&segments);

    assert_eq!(to_delete.len(), 2);
    assert!(to_delete.contains(&0));
    assert!(to_delete.contains(&100));
}

#[test]
fn test_size_retention_policy() {
    let config = RetentionConfig::size(2500); // Max 2500 bytes

    let segments = vec![
        create_segment(0, 1000, 3600),   // Old, should delete
        create_segment(100, 1000, 1800), // Should delete to meet size limit
        create_segment(200, 1000, 900),  // Keep
        create_segment(300, 500, 300),   // Keep
    ];

    let manager = RetentionManager::new(config);
    let to_delete = manager.segments_to_delete(&segments);

    assert_eq!(to_delete.len(), 1);
    assert!(to_delete.contains(&0));
}

#[test]
fn test_combined_retention_policy() {
    let config = RetentionConfig::both(Duration::from_secs(3600), 5000);

    let segments = vec![
        create_segment(0, 1000, 7200),   // Too old - delete
        create_segment(100, 1000, 1800), // Within age, keep
        create_segment(200, 1000, 900),  // Keep
    ];

    let manager = RetentionManager::new(config);
    let to_delete = manager.segments_to_delete(&segments);

    assert_eq!(to_delete.len(), 1);
    assert!(to_delete.contains(&0));
}

#[test]
fn test_min_segments_protection() {
    let config = RetentionConfig::time(Duration::from_secs(60)).with_min_segments(2);

    let segments = vec![
        create_segment(0, 1000, 7200),   // Very old
        create_segment(100, 1000, 3600), // Old
        create_segment(200, 1000, 1800), // Old
        create_segment(300, 1000, 30),   // Recent
    ];

    let manager = RetentionManager::new(config);
    let to_delete = manager.segments_to_delete(&segments);

    // Should keep at least 2 segments
    assert!(segments.len() - to_delete.len() >= 2);
}

#[test]
fn test_unlimited_retention() {
    let config = RetentionConfig::unlimited();

    let segments = vec![
        create_segment(0, 1000, 86400 * 365), // 1 year old
        create_segment(100, 1000, 86400 * 30), // 30 days old
        create_segment(200, 1000, 3600),      // 1 hour old
    ];

    let manager = RetentionManager::new(config);
    let to_delete = manager.segments_to_delete(&segments);

    assert_eq!(to_delete.len(), 0);
}

#[test]
fn test_empty_segments() {
    let config = RetentionConfig::time(Duration::from_secs(3600));
    let manager = RetentionManager::new(config);
    let to_delete = manager.segments_to_delete(&[]);

    assert_eq!(to_delete.len(), 0);
}

#[test]
fn test_update_config() {
    let mut manager = RetentionManager::new(RetentionConfig::unlimited());
    assert_eq!(manager.config().policy, RetentionPolicy::Unlimited);

    manager.update_config(RetentionConfig::time(Duration::from_secs(3600)));
    assert_eq!(manager.config().policy, RetentionPolicy::Time(Duration::from_secs(3600)));
}

#[test]
fn test_segment_age_calculation() {
    let now = now_secs();

    let segment = SegmentMetadata { base_offset: 0, size: 1000, created_at: now - 3600 };

    let age = segment.age();
    // Should be approximately 1 hour (3600 seconds)
    assert!(age.as_secs() >= 3599 && age.as_secs() <= 3601);
}

#[test]
fn test_retention_config_builders() {
    let time_config = RetentionConfig::time(Duration::from_secs(3600));
    assert_eq!(time_config.policy, RetentionPolicy::Time(Duration::from_secs(3600)));

    let size_config = RetentionConfig::size(1000000);
    assert_eq!(size_config.policy, RetentionPolicy::Size(1000000));

    let both_config = RetentionConfig::both(Duration::from_secs(3600), 1000000);
    assert!(matches!(both_config.policy, RetentionPolicy::Both { .. }));

    let unlimited = RetentionConfig::unlimited();
    assert_eq!(unlimited.policy, RetentionPolicy::Unlimited);
}

#[test]
fn test_segment_config_builders() {
    let config = SegmentConfig::default()
        .with_compression(CompressionType::Lz4)
        .with_retention(RetentionConfig::time(Duration::from_secs(3600)));

    assert_eq!(config.compression, CompressionType::Lz4);
    assert_eq!(config.retention.policy, RetentionPolicy::Time(Duration::from_secs(3600)));
}

#[test]
fn retention_at_a_fixed_time() {
    let config = RetentionConfig::time(Duration::from_secs(100));
    let manager = RetentionManager::new(config);
    let segments = vec![
        SegmentMetadata { base_offset: 0, size: 10, created_at: 1000 },
        SegmentMetadata { base_offset: 10, size: 10, created_at: 1050 },
        SegmentMetadata { base_offset: 20, size: 10, created_at: 1150 },
    ];
    // at 1151: ages 151, 101, 1; the first two are over 100 seconds
    assert_eq!(manager.segments_to_delete_at(&segments, 1151), vec![0, 10]);
    // at 1100: ages 100, 50, 0 (a segment from the future is age 0)
    assert_eq!(manager.segments_to_delete_at(&segments, 1100), Vec::<u64>::new());
}

#[test]
fn retention_stops_at_first_kept_segment() {
    // oldest first: a young segment stops the scan, though a later one is old
    let manager = RetentionManager::new(RetentionConfig::time(Duration::from_secs(10)));
    let segments = vec![
        SegmentMetadata { base_offset: 0, size: 10, created_at: 0 },
        SegmentMetadata { base_offset: 1, size: 10, created_at: 995 },
        SegmentMetadata { base_offset: 2, size: 10, created_at: 0 },
    ];
    assert_eq!(manager.segments_to_delete_at(&segments, 1000), vec![0]);
}

#[test]
fn should_delete_segment_respects_minimum() {
    let config = RetentionConfig::size(100).with_min_segments(3);
    assert!(!config.should_delete_segment(Duration::from_secs(0), 1000, 3));
    assert!(config.should_delete_segment(Duration::from_secs(0), 1000, 4));
    assert!(!config.should_delete_segment(Duration::from_secs(0), 100, 4));
}

#[test]
fn default_retention_is_seven_days() {
    let config = RetentionConfig::default();
    assert_eq!(config.policy, RetentionPolicy::Time(Duration::from_secs(7 * 24 * 3600)));
    assert_eq!(config.min_segments, 1);
}

#[test]
fn segment_age_at_fixed_time() {
    let s = SegmentMetadata { base_offset: 0, size: 0, created_at: 500 };
    assert_eq!(s.age_at(800).as_secs(), 300);
    assert_eq!(s.age_at(400).as_secs(), 0);
}
