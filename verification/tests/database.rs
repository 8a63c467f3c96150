use lsmdb::database::{Database, DatabaseOptions, FlushPolicy};
use lsmdb::error::DBError;
use lsmdb::memtable::MemTable;
use lsmdb::sstable::SstMetadata;
use lsmdb::storage::{Directory, FileKind};
use lsmdb::wal::WriteAheadLog;

#[test]
fn swapping_memtable_works() {
    let options = Database::options()
        .set_working_dir("./tests/swapping_memtable_works".to_string())
        .set_memtable_threshold(256);
    let mut db = options.init(Directory::new()).expect("failed to init db");

    db.put(b"key1".to_vec(), vec![1; 150]).unwrap();
    // first put: 4 + 150 + 64 = 218 <= 256, no swap yet
    assert_eq!(db.dir.scan_dir(FileKind::Sst).len(), 0);
    db.put(b"key2".to_vec(), vec![2; 150]).unwrap();
    // second put crossed the threshold: exactly one swap happened
    let ssts = db.dir.scan_dir(FileKind::Sst);
    assert_eq!(ssts.len(), 1);
    assert_eq!(db.on_disk_levels[0], ssts);
    // the new WAL backs an empty rw memtable: those records are frozen
    assert!(db.rw_memtable.entries.is_empty());
    assert_eq!(db.ro_memtable.entries.len(), 2);
    assert_eq!(db.dir.scan_dir(FileKind::Wal), vec![db.wal.stamp]);
}

fn write_sample_wal(dir: &mut Directory) -> u128 {
    let mut wal = WriteAheadLog::new(dir).unwrap();
    wal.put(1, &[0, 0, 1], &[2, 2]);
    wal.put(3, &[0, 1, 0], &[3, 3, 3]);
    wal.put(4, &[0, 1, 1], &[4, 4, 4, 4]);
    wal.put(10, &[1, 0, 0], &[5, 5, 5, 5, 5]);
    wal.delete(11, &[0, 1, 1]);
    wal.delete(25, &[0, 1, 0]);
    wal.put(26, &[0, 1, 1], &[2, 1, 2]);
    wal.delete(30, &[0, 1, 1]);
    wal.flush(dir).unwrap();
    wal.stamp
}

#[test]
fn recovery_after_crash() {
    let mut dir = Directory::new();
    // a run wrote these mutations and stopped without swapping or deleting
    write_sample_wal(&mut dir);

    let db = DatabaseOptions::new().init(dir).expect("failed to init db");
    let rw = &db.rw_memtable;
    assert_eq!(rw.entries.len(), 4);
    let e = rw.get(&[0, 0, 1]).unwrap();
    assert_eq!((e.value.as_deref(), e.timestamp), (Some(&[2u8, 2][..]), 1));
    let e = rw.get(&[0, 1, 0]).unwrap();
    assert_eq!((e.value.as_deref(), e.timestamp), (None, 25));
    let e = rw.get(&[0, 1, 1]).unwrap();
    assert_eq!((e.value.as_deref(), e.timestamp), (None, 30));
    let e = rw.get(&[1, 0, 0]).unwrap();
    assert_eq!(
        (e.value.as_deref(), e.timestamp),
        (Some(&[5u8, 5, 5, 5, 5][..]), 10)
    );
    // the surviving logs were consolidated into exactly one
    assert_eq!(db.dir.scan_dir(FileKind::Wal), vec![db.wal.stamp]);
}

#[test]
fn swap_preserves_durability() {
    let options = DatabaseOptions::new().set_memtable_threshold(256);
    let mut db = options.init(Directory::new()).unwrap();
    // the second put crosses the threshold and the swap completes
    db.put(vec![5, 5], vec![9; 150]).unwrap();
    db.put(vec![1, 1], vec![8; 150]).unwrap();
    assert!(db.rw_memtable.entries.is_empty());
    let dir = db.into_directory();

    // a fresh engine on the same directory: nothing to replay, the data is
    // durable in the level-0 SSTable
    let db2 = DatabaseOptions::new().init(dir).unwrap();
    assert!(db2.rw_memtable.entries.is_empty());
    assert_eq!(db2.on_disk_levels[0].len(), 1);
    let sst = db2.on_disk_levels[0][0];
    let bytes = db2.dir.contents(sst, FileKind::Sst).unwrap();
    let (meta, _) = SstMetadata::read(bytes, 0).unwrap();
    assert_eq!(meta.level(), 0);
    // low and high key are the least and greatest flushed keys
    assert_eq!(meta.low_key(), &vec![1, 1]);
    assert_eq!(meta.high_key(), &vec![5, 5]);
}

#[test]
fn per_mutation_flush_survives_a_crash() {
    let options = DatabaseOptions::new().set_flush_policy(FlushPolicy::PerMutation);
    let mut db = options.init(Directory::new()).unwrap();
    db.put(vec![1], vec![42]).unwrap();
    db.delete(vec![2]).unwrap();
    let dir = db.into_directory(); // crash: buffers are lost, files survive

    let db2 = DatabaseOptions::new().init(dir).unwrap();
    assert_eq!(db2.rw_memtable.get(&[1]).unwrap().value, Some(vec![42]));
    assert_eq!(db2.rw_memtable.get(&[2]).unwrap().value, None);
}

#[test]
fn buffered_mutations_are_lost_without_flush() {
    // under the default on-swap policy an acknowledged mutation has only
    // reached the user-space buffer
    let mut db = DatabaseOptions::new().init(Directory::new()).unwrap();
    db.put(vec![1], vec![42]).unwrap();
    let dir = db.into_directory(); // crash before any flush

    let db2 = DatabaseOptions::new().init(dir).unwrap();
    assert!(db2.rw_memtable.get(&[1]).is_none());
}

#[test]
fn unreadable_sstable_fails_init() {
    let mut dir = Directory::new();
    dir.create(9, FileKind::Sst).unwrap();
    dir.append(9, FileKind::Sst, &[1, 2, 3]).unwrap();
    match DatabaseOptions::new().init(dir) {
        Err(DBError::MalformedSSTable) => {}
        other => panic!("expected a corruption error, got {:?}", other.is_ok()),
    }
}

#[test]
fn sstable_level_outside_hierarchy_fails_init() {
    let mut dir = Directory::new();
    let meta = SstMetadata::new(7, 40, 40, Vec::new(), Vec::new());
    let mut bytes: Vec<u8> = Vec::new();
    meta.write(&mut bytes);
    dir.create(9, FileKind::Sst).unwrap();
    dir.append(9, FileKind::Sst, &bytes).unwrap();
    // level 7 does not exist in a 7-level hierarchy (levels 0..=6)
    match DatabaseOptions::new().init(dir) {
        Err(DBError::MalformedSSTable) => {}
        other => panic!("expected a corruption error, got {:?}", other.is_ok()),
    }
}

#[test]
fn init_classifies_sstables_by_level() {
    let options = DatabaseOptions::new().set_memtable_threshold(10);
    let mut db = options.init(Directory::new()).unwrap();
    db.put(vec![1], vec![1; 20]).unwrap(); // swap
    db.put(vec![2], vec![2; 20]).unwrap(); // swap
    let dir = db.into_directory();

    let db2 = DatabaseOptions::new().init(dir).unwrap();
    assert_eq!(db2.on_disk_levels.len(), 7);
    // both flushes sit on level 0, newest first
    assert_eq!(db2.on_disk_levels[0].len(), 2);
    assert!(db2.on_disk_levels[0][0] > db2.on_disk_levels[0][1]);
    for level in &db2.on_disk_levels[1..] {
        assert!(level.is_empty());
    }
}

#[test]
fn exhausted_timestamps_are_reported() {
    let mut dir = Directory::new();
    dir.create(u128::MAX, FileKind::Wal).unwrap();
    let wal = WriteAheadLog::load(&dir, u128::MAX).unwrap();
    let db = Database {
        wal,
        rw_memtable: MemTable::new(),
        ro_memtable: MemTable::new(),
        dir,
        on_disk_levels: vec![Vec::new()],
        options: DatabaseOptions::new().set_memtable_threshold(0),
        last_timestamp: u128::MAX,
        ops_since_flush: 0,
    };
    let mut db = db;
    // the put lands, but the swap it triggers cannot name a fresh file
    assert_eq!(db.put(vec![1], vec![2]), Err(DBError::InvariantViolation));
    assert_eq!(db.rw_memtable.get(&[1]).unwrap().value, Some(vec![2]));
}

#[test]
fn options_builder_sets_every_field() {
    let o = DatabaseOptions::new()
        .set_working_dir("somewhere".to_string())
        .set_memtable_threshold(123)
        .set_level_zero_memtables_limit(4)
        .set_level_num(3)
        .set_level_factor(12)
        .set_flush_policy(FlushPolicy::EveryN(5));
    assert_eq!(o.working_dir, "somewhere");
    assert_eq!(o.memtable_threshold, 123);
    assert_eq!(o.level_zero_memtables_limit, 4);
    assert_eq!(o.level_num, 3);
    assert_eq!(o.level_factor, 12);
    assert_eq!(o.flush_policy, FlushPolicy::EveryN(5));
    let d = Database::options();
    assert_eq!(d.memtable_threshold, 67_108_864);
    assert_eq!(d.level_zero_memtables_limit, 8);
    assert_eq!(d.level_num, 7);
    assert_eq!(d.level_factor, 10);
    assert_eq!(d.flush_policy, FlushPolicy::OnSwap);
}

#[test]
fn init_orders_deeper_levels_by_low_key() {
    let mut dir = Directory::new();
    let tables: Vec<(u128, Vec<u8>)> = vec![(10, vec![9]), (20, vec![1]), (30, vec![5])];
    for (stamp, low) in tables {
        let meta = SstMetadata::new(1, 41, 41, low, vec![9, 9]);
        let mut bytes: Vec<u8> = Vec::new();
        meta.write(&mut bytes);
        dir.create(stamp, FileKind::Sst).unwrap();
        dir.append(stamp, FileKind::Sst, &bytes).unwrap();
    }
    let db = DatabaseOptions::new().init(dir).unwrap();
    // level 1 is kept ascending by each table's low key, not by name
    assert_eq!(db.on_disk_levels[1], vec![20, 30, 10]);
    assert!(db.on_disk_levels[0].is_empty());
}

#[test]
fn every_n_policy_flushes_each_nth_mutation() {
    let options = DatabaseOptions::new().set_flush_policy(FlushPolicy::EveryN(2));
    let mut db = options.init(Directory::new()).unwrap();
    db.put(vec![1], vec![10]).unwrap();
    // one mutation: still only buffered
    let dir = db.into_directory();
    let db2 = DatabaseOptions::new().init(dir).unwrap();
    assert!(db2.rw_memtable.get(&[1]).is_none());

    let options = DatabaseOptions::new().set_flush_policy(FlushPolicy::EveryN(2));
    let mut db = options.init(Directory::new()).unwrap();
    db.put(vec![1], vec![10]).unwrap();
    db.put(vec![2], vec![20]).unwrap();
    // the second mutation flushed both
    let dir = db.into_directory();
    let db2 = DatabaseOptions::new().init(dir).unwrap();
    assert_eq!(db2.rw_memtable.get(&[1]).unwrap().value, Some(vec![10]));
    assert_eq!(db2.rw_memtable.get(&[2]).unwrap().value, Some(vec![20]));
}
