use lsmdb::error::DBError;
use lsmdb::storage::{Directory, FileKind};
use lsmdb::wal::{WriteAheadLog, WriteAheadLogEntry, WriteAheadLogIterator};

#[test]
fn load_cycle() {
    let mut dir = Directory::new();
    let mut wal = WriteAheadLog::new(&mut dir).unwrap();
    wal.put(1, &[0, 0, 1], &[2, 2]);
    wal.put(3, &[0, 1, 0], &[3, 3, 3]);
    wal.put(4, &[0, 1, 1], &[4, 4, 4, 4]);
    wal.put(10, &[1, 0, 0], &[5, 5, 5, 5, 5]);
    wal.delete(11, &[0, 1, 1]);
    wal.delete(25, &[0, 1, 0]);
    wal.put(26, &[0, 1, 1], &[2, 1, 2]);
    wal.delete(30, &[0, 1, 1]);
    wal.flush(&mut dir).unwrap();
    let stamp = wal.stamp;
    drop(wal);

    let wal = WriteAheadLog::load(&dir, stamp).unwrap();
    let mut it = wal.into_iter(&mut dir).unwrap();
    let mut elems: Vec<WriteAheadLogEntry> = Vec::new();
    while let Some(entry) = it.next() {
        elems.push(entry);
    }
    assert_eq!(
        vec![
            WriteAheadLogEntry {
                key: vec![0, 0, 1],
                value: Some(vec![2, 2]),
                timestamp: 1,
            },
            WriteAheadLogEntry {
                key: vec![0, 1, 0],
                value: Some(vec![3, 3, 3]),
                timestamp: 3,
            },
            WriteAheadLogEntry {
                key: vec![0, 1, 1],
                value: Some(vec![4, 4, 4, 4]),
                timestamp: 4,
            },
            WriteAheadLogEntry {
                key: vec![1, 0, 0],
                value: Some(vec![5, 5, 5, 5, 5]),
                timestamp: 10,
            },
            WriteAheadLogEntry {
                key: vec![0, 1, 1],
                value: None,
                timestamp: 11,
            },
            WriteAheadLogEntry {
                key: vec![0, 1, 0],
                value: None,
                timestamp: 25,
            },
            WriteAheadLogEntry {
                key: vec![0, 1, 1],
                value: Some(vec![2, 1, 2]),
                timestamp: 26,
            },
            WriteAheadLogEntry {
                key: vec![0, 1, 1],
                value: None,
                timestamp: 30,
            },
        ],
        elems
    );
}

#[test]
fn replay_collapses_by_key_latest_wins() {
    let mut dir = Directory::new();
    let mut wal = WriteAheadLog::new(&mut dir).unwrap();
    wal.put(1, &[1], &[10]);
    wal.put(2, &[2], &[20]);
    wal.put(3, &[1], &[11]);
    wal.delete(4, &[2]);
    wal.flush(&mut dir).unwrap();
    drop(wal);

    let (_new_wal, memtable) = WriteAheadLog::load_dir(&mut dir).unwrap();
    assert_eq!(memtable.entries.len(), 2);
    let one = memtable.get(&[1]).unwrap();
    assert_eq!(one.value, Some(vec![11]));
    assert_eq!(one.timestamp, 3);
    let two = memtable.get(&[2]).unwrap();
    assert_eq!(two.value, None);
    assert_eq!(two.timestamp, 4);
}

#[test]
fn replay_leaves_exactly_one_wal() {
    let mut dir = Directory::new();
    let mut first = WriteAheadLog::new(&mut dir).unwrap();
    first.put(1, &[1], &[1]);
    first.flush(&mut dir).unwrap();
    let mut second = WriteAheadLog::new(&mut dir).unwrap();
    second.put(2, &[2], &[2]);
    second.flush(&mut dir).unwrap();
    assert_eq!(dir.scan_dir(FileKind::Wal).len(), 2);

    let (new_wal, memtable) = WriteAheadLog::load_dir(&mut dir).unwrap();
    let wals = dir.scan_dir(FileKind::Wal);
    assert_eq!(wals, vec![new_wal.stamp]);
    assert_eq!(memtable.entries.len(), 2);

    // replaying the consolidated directory again changes nothing material
    let (newer_wal, memtable2) = WriteAheadLog::load_dir(&mut dir).unwrap();
    assert_eq!(dir.scan_dir(FileKind::Wal), vec![newer_wal.stamp]);
    assert_eq!(memtable2.entries, memtable.entries);
}

#[test]
fn corrupt_tail_is_dropped_on_replay() {
    let mut dir = Directory::new();
    let mut wal = WriteAheadLog::new(&mut dir).unwrap();
    wal.put(1, &[1], &[10]);
    wal.flush(&mut dir).unwrap();
    let stamp = wal.stamp;
    // half a record at the tail, as a crash mid-write would leave
    dir.append(stamp, FileKind::Wal, &7u128.to_le_bytes()).unwrap();
    drop(wal);

    let full_len = dir.contents(stamp, FileKind::Wal).unwrap().len();
    let mut it = WriteAheadLogIterator::new(dir.contents(stamp, FileKind::Wal).unwrap().clone());
    assert!(it.next().is_some());
    assert!(it.next().is_none());
    // the iterator stopped short of the end: a corrupt tail, not a clean end
    assert!(it.pos < full_len);

    let (_new_wal, memtable) = WriteAheadLog::load_dir(&mut dir).unwrap();
    assert_eq!(memtable.entries.len(), 1);
    assert_eq!(memtable.get(&[1]).unwrap().value, Some(vec![10]));
}

#[test]
fn scan_dir_sorts_names_ascending() {
    let mut dir = Directory::new();
    dir.create(50, FileKind::Sst).unwrap();
    dir.create(2, FileKind::Sst).unwrap();
    dir.create(90, FileKind::Sst).unwrap();
    dir.create(7, FileKind::Sst).unwrap();
    // would fail if the scan handed the creation order back unchanged
    assert_eq!(dir.scan_dir(FileKind::Sst), vec![2, 7, 50, 90]);
    assert_eq!(dir.scan_dir(FileKind::Wal), Vec::<u128>::new());
}

#[test]
fn directory_errors() {
    let mut dir = Directory::new();
    dir.create(1, FileKind::Wal).unwrap();
    assert_eq!(dir.create(1, FileKind::Wal), Err(DBError::DuplicateFile));
    assert_eq!(dir.remove(2, FileKind::Wal), Err(DBError::MissingFile));
    assert_eq!(dir.append(1, FileKind::Sst, &[1]), Err(DBError::MissingFile));
    // the same name may exist under the other extension
    assert_eq!(dir.create(1, FileKind::Sst), Ok(()));
}
