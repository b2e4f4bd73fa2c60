
#[test]
fn partition_ids_from_directory_names() {
    let names: Vec<String> = ["partition-2", "partition-0", "other", "partition-x", "partition-+1", "partition-10", "partition-", "partition-4294967296"]
        .iter()
        .map(|s| s.to_string())
        .collect();
    assert_eq!(gaffa::topic::partition_ids("t", &names).unwrap(), vec![0, 1, 2, 10]);
}

#[test]
fn partition_ids_none_found() {
    let names = vec!["logs".to_string(), "partition-a".to_string()];
    match gaffa::topic::partition_ids("orders", &names) {
        Err(gaffa::error::GaffaError::Storage(m)) => assert_eq!(m, "No partitions found for topic: orders"),
        other => panic!("unexpected {:?}", other),
    }
}
