use gaffa::partitioner::{KeyHashPartitioner, Partitioner, RoundRobinPartitioner, StickyPartitioner};
use std::collections::HashMap;

#[test]
fn test_round_robin_distribution() {
    let mut partitioner = RoundRobinPartitioner::new();
    let num_partitions = 3;

    let partitions: Vec<u32> = (0..9).map(|_| partitioner.partition(None, num_partitions)).collect();

    // Should cycle through 0, 1, 2, 0, 1, 2, 0, 1, 2
    assert_eq!(partitions, vec![0, 1, 2, 0, 1, 2, 0, 1, 2]);
}

#[test]
fn test_round_robin_even_distribution() {
    let mut partitioner = RoundRobinPartitioner::new();
    let num_partitions = 3;
    let num_messages = 300;

    let mut counts = HashMap::new();
    for _ in 0..num_messages {
        let partition = partitioner.partition(None, num_partitions);
        *counts.entry(partition).or_insert(0) += 1;
    }

    // Each partition should get exactly 100 messages
    for partition in 0..num_partitions {
        assert_eq!(*counts.get(&partition).unwrap(), 100);
    }
}

#[test]
fn test_key_hash_same_key_same_partition() {
    let mut partitioner = KeyHashPartitioner::new();
    let num_partitions = 5;
    let key = b"user-123";

    // Same key should always go to same partition
    let partition1 = partitioner.partition(Some(key), num_partitions);
    let partition2 = partitioner.partition(Some(key), num_partitions);
    let partition3 = partitioner.partition(Some(key), num_partitions);

    assert_eq!(partition1, partition2);
    assert_eq!(partition2, partition3);
}

#[test]
fn test_key_hash_different_keys_distributed() {
    let mut partitioner = KeyHashPartitioner::new();
    let num_partitions = 5;

    let keys: Vec<&[u8]> = vec![
        b"key-1", b"key-2", b"key-3", b"key-4", b"key-5", b"key-6", b"key-7", b"key-8", b"key-9",
        b"key-10",
    ];

    let mut counts = HashMap::new();
    for key in keys {
        let partition = partitioner.partition(Some(key), num_partitions);
        *counts.entry(partition).or_insert(0) += 1;
    }

    // Should use more than one partition
    assert!(counts.len() > 1);
}

#[test]
fn test_key_hash_no_key_uses_zero() {
    let mut partitioner = KeyHashPartitioner::new();
    let num_partitions = 5;

    let partition = partitioner.partition(None, num_partitions);
    assert_eq!(partition, 0);
}

#[test]
fn test_key_hash_empty_key_uses_zero() {
    let mut partitioner = KeyHashPartitioner::new();
    let num_partitions = 5;

    let partition = partitioner.partition(Some(&[]), num_partitions);
    assert_eq!(partition, 0);
}

#[test]
fn test_sticky_partitioner() {
    let mut partitioner = StickyPartitioner::new(3);
    let num_partitions = 3;

    // First 3 messages should go to partition 0
    assert_eq!(partitioner.partition(None, num_partitions), 0);
    assert_eq!(partitioner.partition(None, num_partitions), 0);
    assert_eq!(partitioner.partition(None, num_partitions), 0);

    // Next 3 messages should go to partition 1
    assert_eq!(partitioner.partition(None, num_partitions), 1);
    assert_eq!(partitioner.partition(None, num_partitions), 1);
    assert_eq!(partitioner.partition(None, num_partitions), 1);

    // Next 3 messages should go to partition 2
    assert_eq!(partitioner.partition(None, num_partitions), 2);
    assert_eq!(partitioner.partition(None, num_partitions), 2);
    assert_eq!(partitioner.partition(None, num_partitions), 2);

    // Cycle back to partition 0
    assert_eq!(partitioner.partition(None, num_partitions), 0);
}

#[test]
fn test_partitioner_with_zero_partitions() {
    let mut rr = RoundRobinPartitioner::new();
    let mut kh = KeyHashPartitioner::new();
    let mut st = StickyPartitioner::new(10);

    assert_eq!(rr.partition(None, 0), 0);
    assert_eq!(kh.partition(Some(b"key"), 0), 0);
    assert_eq!(st.partition(None, 0), 0);
}

#[test]
fn test_partitioner_with_single_partition() {
    let mut rr = RoundRobinPartitioner::new();
    let mut kh = KeyHashPartitioner::new();

    for _ in 0..10 {
        assert_eq!(rr.partition(None, 1), 0);
        assert_eq!(kh.partition(Some(b"any-key"), 1), 0);
    }
}

#[test]
fn key_hash_matches_hash_bytes() {
    let mut kh = KeyHashPartitioner::new();
    let key = b"order-42";
    let expected = KeyHashPartitioner::hash_bytes(key) % 7;
    assert_eq!(kh.partition(Some(key), 7), expected);
}

#[test]
fn hash_bytes_is_not_the_identity() {
    // two different keys of the same length give different hashes
    assert_ne!(KeyHashPartitioner::hash_bytes(b"aaaa"), KeyHashPartitioner::hash_bytes(b"aaab"));
}

#[test]
fn sticky_partitioner_stays_in_range_when_partitions_shrink() {
    let mut st = StickyPartitioner::new(1);
    // moves on every message: 0, 1, 2, 3, 4 with five partitions
    for expected in 0..5u32 {
        assert_eq!(st.partition(None, 5), expected);
    }
    // with two partitions now, the partition in use is brought into range
    let p = st.partition(None, 2);
    assert!(p < 2);
}

#[test]
fn round_robin_counter_over_partition_counts() {
    let mut rr = RoundRobinPartitioner::new();
    assert_eq!(rr.partition(None, 4), 0);
    assert_eq!(rr.partition(None, 4), 1);
    // the counter carries on with a different count: 2 % 3
    assert_eq!(rr.partition(None, 3), 2);
    // no partitions: 0, and the counter does not move
    assert_eq!(rr.partition(None, 0), 0);
    assert_eq!(rr.partition(None, 3), 0);
}

#[test]
fn default_partitioners() {
    let mut st = StickyPartitioner::with_default_batch();
    for _ in 0..100 {
        assert_eq!(st.partition(None, 4), 0);
    }
    assert_eq!(st.partition(None, 4), 1);
    let mut rr = RoundRobinPartitioner::default();
    assert_eq!(rr.partition(None, 2), 0);
    let mut kh = KeyHashPartitioner::default();
    assert_eq!(kh.partition(None, 2), 0);
}

#[test]
fn sticky_picks_follow_batches_cyclically() {
    let mut st = StickyPartitioner::new(3);
    for j in 0..40u32 {
        assert_eq!(st.partition(Some(b"k"), 4), (j / 3) % 4);
    }
}
