use lsmdb::memtable::{MemTable, MemTableEntry, PER_ENTRY_OVERHEAD};

#[test]
fn put_get_remove_get() {
    let mut memtable = MemTable::new();
    assert_eq!(memtable.get(&[1, 1, 1]), None);

    memtable.put(1, vec![1, 1, 1], vec![0, 0, 0]);
    assert_eq!(memtable.data_size, 70);
    assert_eq!(
        memtable.get(&[1, 1, 1]),
        Some(&MemTableEntry {
            key: vec![1, 1, 1],
            value: Some(vec![0, 0, 0]),
            timestamp: 1,
        })
    );

    memtable.put(2, vec![3, 3, 3], vec![0, 1, 0, 1]);
    assert_eq!(memtable.data_size, 141);
    assert_eq!(
        memtable.get(&[3, 3, 3]),
        Some(&MemTableEntry {
            key: vec![3, 3, 3],
            value: Some(vec![0, 1, 0, 1]),
            timestamp: 2,
        })
    );

    memtable.put(3, vec![2, 2, 2], vec![1, 0, 1, 0, 1]);
    assert_eq!(memtable.data_size, 213);
    assert_eq!(
        memtable.get(&[2, 2, 2]),
        Some(&MemTableEntry {
            key: vec![2, 2, 2],
            value: Some(vec![1, 0, 1, 0, 1]),
            timestamp: 3,
        })
    );

    memtable.delete(4, vec![2, 2, 2]);
    assert_eq!(memtable.data_size, 208);
    assert_eq!(
        memtable.get(&[2, 2, 2]),
        Some(&MemTableEntry {
            key: vec![2, 2, 2],
            value: None,
            timestamp: 4,
        })
    );

    memtable.delete(5, vec![1, 1, 1]);
    assert_eq!(memtable.data_size, 205);
    assert_eq!(
        memtable.get(&[1, 1, 1]),
        Some(&MemTableEntry {
            key: vec![1, 1, 1],
            value: None,
            timestamp: 5,
        })
    );

    memtable.delete(6, vec![3, 3, 3]);
    assert_eq!(memtable.data_size, 201);
    assert_eq!(
        memtable.get(&[3, 3, 3]),
        Some(&MemTableEntry {
            key: vec![3, 3, 3],
            value: None,
            timestamp: 6,
        })
    );
}

#[test]
fn entries_stay_sorted_by_key() {
    let mut memtable = MemTable::new();
    memtable.put(1, vec![9], vec![0]);
    memtable.put(2, vec![1], vec![0]);
    memtable.delete(3, vec![5, 5]);
    memtable.put(4, vec![5], vec![0]);
    memtable.put(5, vec![1, 0], vec![0]);
    let keys: Vec<&Vec<u8>> = memtable.entries.iter().map(|e| &e.key).collect();
    assert_eq!(
        keys,
        vec![&vec![1u8], &vec![1, 0], &vec![5], &vec![5, 5], &vec![9]]
    );
    for pair in memtable.entries.windows(2) {
        assert!(pair[0].key < pair[1].key);
    }
}

#[test]
fn size_accounts_live_bytes_plus_overhead() {
    let mut memtable = MemTable::new();
    memtable.put(1, vec![1, 2], vec![3, 4, 5]);
    assert_eq!(memtable.size(), 2 + 3 + PER_ENTRY_OVERHEAD);
    // replacing with a shorter value shrinks the size by the difference
    memtable.put(2, vec![1, 2], vec![9]);
    assert_eq!(memtable.size(), 2 + 1 + PER_ENTRY_OVERHEAD);
    // replacing with a longer value grows it again
    memtable.put(3, vec![1, 2], vec![7, 7, 7, 7]);
    assert_eq!(memtable.size(), 2 + 4 + PER_ENTRY_OVERHEAD);
    // a delete keeps the key and overhead accounted
    memtable.delete(4, vec![1, 2]);
    assert_eq!(memtable.size(), 2 + PER_ENTRY_OVERHEAD);
    // a repeated delete only bumps the timestamp
    memtable.delete(5, vec![1, 2]);
    assert_eq!(memtable.size(), 2 + PER_ENTRY_OVERHEAD);
    assert_eq!(memtable.get(&[1, 2]).unwrap().timestamp, 5);
    // a put over a tombstone counts the new value again
    memtable.put(6, vec![1, 2], vec![8, 8]);
    assert_eq!(memtable.size(), 2 + 2 + PER_ENTRY_OVERHEAD);
    // a delete of an absent key inserts an accounted tombstone
    memtable.delete(7, vec![9]);
    assert_eq!(memtable.size(), 2 + 2 + PER_ENTRY_OVERHEAD + 1 + PER_ENTRY_OVERHEAD);
}

#[test]
fn get_index_reports_position() {
    let mut memtable = MemTable::new();
    memtable.put(1, vec![2], vec![0]);
    memtable.put(2, vec![4], vec![0]);
    memtable.put(3, vec![6], vec![0]);
    assert_eq!(memtable.get_index(&[2]), Ok(0));
    assert_eq!(memtable.get_index(&[4]), Ok(1));
    assert_eq!(memtable.get_index(&[6]), Ok(2));
    assert_eq!(memtable.get_index(&[1]), Err(0));
    assert_eq!(memtable.get_index(&[3]), Err(1));
    assert_eq!(memtable.get_index(&[7]), Err(3));
}
