use gaffa::index::OffsetIndex;

#[test]
fn test_index_create_and_append() {
    let mut index = OffsetIndex::create();
    assert_eq!(index.size(), 0);

    index.append(0, 0);
    index.append(1, 100);
    index.append(2, 250);

    assert_eq!(index.size(), 3);
    assert_eq!(index.lookup(0), Some(0));
    assert_eq!(index.lookup(1), Some(100));
    assert_eq!(index.lookup(2), Some(250));
}

#[test]
fn test_index_lookup_exact_match() {
    let mut index = OffsetIndex::create();
    index.append(0, 0);
    index.append(5, 500);
    index.append(10, 1000);

    assert_eq!(index.lookup(0), Some(0));
    assert_eq!(index.lookup(5), Some(500));
    assert_eq!(index.lookup(10), Some(1000));
}

#[test]
fn test_index_lookup_floor() {
    let mut index = OffsetIndex::create();
    index.append(0, 0);
    index.append(5, 500);
    index.append(10, 1000);

    // The floor: the largest offset <= target
    assert_eq!(index.lookup(3), Some(0));
    assert_eq!(index.lookup(7), Some(500));
    assert_eq!(index.lookup(15), Some(1000));
}

#[test]
fn test_index_persistence() {
    // Create and write
    let bytes = {
        let mut index = OffsetIndex::create();
        index.append(0, 0);
        index.append(10, 1000);
        index.append(20, 2000);
        index.to_bytes()
    };

    // Reopen and verify
    let index = OffsetIndex::open(&bytes);
    assert_eq!(index.size(), 3);
    assert_eq!(index.lookup(0), Some(0));
    assert_eq!(index.lookup(10), Some(1000));
    assert_eq!(index.lookup(20), Some(2000));
}

#[test]
fn test_index_empty_lookup() {
    let index = OffsetIndex::create();
    assert_eq!(index.lookup(0), None);
    assert_eq!(index.lookup(100), None);
}

#[test]
fn test_index_entries() {
    let mut index = OffsetIndex::create();
    index.append(0, 0);
    index.append(5, 500);
    index.append(10, 1000);

    let entries = index.entries();
    assert_eq!(entries, vec![(0, 0), (5, 500), (10, 1000)]);
}

#[test]
fn test_index_large_dataset() {
    let mut index = OffsetIndex::create();

    for i in 0..1000u64 {
        index.append(i * 10, i * 1000);
    }

    assert_eq!(index.size(), 1000);

    assert_eq!(index.lookup(0), Some(0));
    assert_eq!(index.lookup(500 * 10), Some(500 * 1000));
    assert_eq!(index.lookup(999 * 10), Some(999 * 1000));

    // Floor lookups
    assert_eq!(index.lookup(505), Some(50 * 1000));
    assert_eq!(index.lookup(9999), Some(999 * 1000));
}

#[test]
fn index_bytes_are_big_endian_pairs() {
    assert_eq!(
        OffsetIndex::entry_to_bytes(1, 258),
        vec![0, 0, 0, 0, 0, 0, 0, 1, 0, 0, 0, 0, 0, 0, 1, 2]
    );
}

#[test]
fn index_open_ignores_partial_trailing_entry() {
    let mut bytes = OffsetIndex::entry_to_bytes(3, 30);
    bytes.extend_from_slice(&[1, 2, 3]);
    let index = OffsetIndex::open(&bytes);
    assert_eq!(index.entries(), vec![(3, 30)]);
}

#[test]
fn lookup_before_first_offset_is_none() {
    let mut index = OffsetIndex::create();
    index.append(5, 500);
    assert_eq!(index.lookup(4), None);
}
