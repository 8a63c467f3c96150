use vstd::prelude::*;
use vstd::slice::slice_to_vec;
use vstd::std_specs::vec::vec_index_mut;

use crate::error::DBError;
use crate::memtable::{
    compare_keys, lemma_lex_lt_trichotomy, lex_lt, size_after_delete, size_after_put, size_of,
    KeyOrder, MemTable, PER_ENTRY_OVERHEAD,
};
use crate::sstable::{parse_meta, spec_encode_meta, SstMetadata, SstMetadataModel};
use crate::storage::{Directory, DirectoryModel, FileKind};
use crate::utils::{timestamp_now, RecordModel};
use crate::wal::{
    apply_record, apply_records, clean_stream, encode_records, lemma_clean_append,
    lemma_clean_empty, lemma_encode_push, parse_records, replay_would_overflow, WriteAheadLog,
};

verus! {

/// When buffered WAL records are handed to the file: after every mutation,
/// after every n-th mutation, or only when the memtable is swapped out. Under
/// the last two, an acknowledged mutation has only reached the buffer.
#[derive(Default, Clone, Copy, Debug, PartialEq, Eq, Structural)]
pub enum FlushPolicy {
    /// Flush after every mutation.
    PerMutation,
    /// Flush after every n-th mutation.
    EveryN(u64),
    /// Flush only when the memtable is swapped out.
    #[default]
    OnSwap,
}

/// Configuration of the engine, built by chained setters.
#[derive(Default, Clone, Debug)]
pub struct DatabaseOptions {
    /// Directory under which the embedding program keeps the `.wal` and
    /// `.sst` files; the engine itself works on an in-memory image of it.
    pub working_dir: String,
    /// Bytes of rw memtable footprint above which a swap triggers.
    pub memtable_threshold: usize,
    /// Limit of memtable flushes kept on level 0 before compaction is due.
    pub level_zero_memtables_limit: usize,
    /// Number of levels in the on-disk hierarchy.
    pub level_num: usize,
    /// Size factor between adjacent levels.
    pub level_factor: usize,
    /// When buffered WAL records are written out to the file.
    pub flush_policy: FlushPolicy,
}

impl DatabaseOptions {
    pub fn new() -> (r: Self)
        ensures
            r.working_dir@ == "."@,
            r.memtable_threshold == 67108864,
            r.level_zero_memtables_limit == 8,
            r.level_num == 7,
            r.level_factor == 10,
            r.flush_policy == FlushPolicy::OnSwap,
    {
        Self {
            working_dir: ".".to_string(),
            memtable_threshold: 67108864,  // 64 MiB
            level_zero_memtables_limit: 8,
            level_num: 7,
            level_factor: 10,
            flush_policy: FlushPolicy::OnSwap,
        }
    }

    pub fn set_working_dir(self, dir: String) -> (r: Self)
        ensures
            r == (Self { working_dir: dir, ..self }),
    {
        Self { working_dir: dir, ..self }
    }

    pub fn set_memtable_threshold(self, threshold: usize) -> (r: Self)
        ensures
            r == (Self { memtable_threshold: threshold, ..self }),
    {
        Self { memtable_threshold: threshold, ..self }
    }

    pub fn set_level_zero_memtables_limit(self, count: usize) -> (r: Self)
        ensures
            r == (Self { level_zero_memtables_limit: count, ..self }),
    {
        Self { level_zero_memtables_limit: count, ..self }
    }

    pub fn set_level_num(self, num: usize) -> (r: Self)
        ensures
            r == (Self { level_num: num, ..self }),
    {
        Self { level_num: num, ..self }
    }

    pub fn set_level_factor(self, factor: usize) -> (r: Self)
        ensures
            r == (Self { level_factor: factor, ..self }),
    {
        Self { level_factor: factor, ..self }
    }

    pub fn set_flush_policy(self, policy: FlushPolicy) -> (r: Self)
        ensures
            r == (Self { flush_policy: policy, ..self }),
    {
        Self { flush_policy: policy, ..self }
    }

    /// Opens the engine on the given directory image with these options.
    pub fn init(self, dir: Directory) -> (r: Result<Database, DBError>)
        requires
            dir.wf(),
        ensures
            match r {
                Ok(db) => Database::init_post(self, dir, db),
                Err(e) => Database::init_err(self, dir, e),
            },
    {
        Database::init(self, dir)
    }
}

/// The number of levels the options configure; at least one.
pub open spec fn level_count(options: DatabaseOptions) -> int {
    if options.level_num > 0 {
        options.level_num as int
    } else {
        1
    }
}

/// Some SSTable's metadata header cannot be read at all.
#[verifier::opaque]
pub open spec fn has_unreadable_sstable(d: DirectoryModel) -> bool {
    exists|st: u128| #[trigger] d.ssts.contains_key(st) && parse_meta(d.ssts[st]) is None
}

/// Some SSTable's metadata header cannot be read, or names a level outside
/// the configured hierarchy.
#[verifier::opaque]
pub open spec fn has_bad_sstable(options: DatabaseOptions, d: DirectoryModel) -> bool {
    exists|st: u128|
        #[trigger] d.ssts.contains_key(st) && match parse_meta(d.ssts[st]) {
            Some((mm, n)) => mm.level >= level_count(options),
            None => true,
        }
}

/// The metadata header a level-0 flush of `entries` carries: the data
/// section, which doubles as the values table, follows the header, and the
/// (empty) lookup table would sit at the file's end.
pub open spec fn sst_meta_of(entries: Seq<RecordModel>) -> SstMetadataModel
    recommends
        entries.len() > 0,
{
    let low = entries.first().key;
    let high = entries.last().key;
    let header = 40 + low.len() + high.len();
    let data_len = encode_records(entries).len();
    SstMetadataModel {
        level: 0,
        lookup_table_offset: (header + data_len) as usize,
        values_table_offset: header as usize,
        low_key: low,
        high_key: high,
    }
}

/// The full contents of a level-0 SSTable flushed from `entries`: metadata
/// header, then the records in (key-sorted) entry order.
pub open spec fn sst_file_bytes(entries: Seq<RecordModel>) -> Seq<u8>
    recommends
        entries.len() > 0,
{
    spec_encode_meta(sst_meta_of(entries)) + encode_records(entries)
}

/// The low key carried in the metadata of the SSTable named `st`.
pub open spec fn sst_low_key(d: DirectoryModel, st: u128) -> Seq<u8> {
    parse_meta(d.ssts[st])->Some_0.0.low_key
}

/// The embedded storage engine: one writable WAL, the rw memtable it backs,
/// the ro memtable awaiting flush, the working directory image, and the
/// index of on-disk SSTables by level.
pub struct Database {
    /// Write-ahead log for data loss prevention.
    pub wal: WriteAheadLog,
    /// Read-write memtable: the mutations not yet frozen.
    pub rw_memtable: MemTable,
    /// Read-only memtable: holds a frozen table while its SSTable is written.
    pub ro_memtable: MemTable,
    /// The working directory image that the embedding program persists.
    pub dir: Directory,
    /// For each level, the SSTable file names; level 0 newest first.
    pub on_disk_levels: Vec<Vec<u128>>,
    /// Configuration.
    pub options: DatabaseOptions,
    /// The largest timestamp handed out so far; names and mutation
    /// timestamps are bumped past it to stay unique and increasing.
    pub last_timestamp: u128,
    /// Mutations since the last flush, for `FlushPolicy::EveryN`.
    pub ops_since_flush: u64,
}

/// One mutation `rec` was appended to the WAL stream and applied to the rw
/// memtable, and nothing was swapped or flushed to an SSTable.
pub open spec fn applied_no_swap(pre: Database, post: Database, rec: RecordModel) -> bool {
    &&& post.wal.stamp == pre.wal.stamp
    &&& parse_records(post.wal_stream()) == parse_records(pre.wal_stream()).push(rec)
    &&& post.rw_memtable.as_map() == apply_record(pre.rw_memtable.as_map(), rec)
    &&& post.ro_memtable == pre.ro_memtable
    &&& post.dir@.ssts == pre.dir@.ssts
    &&& post.on_disk_levels == pre.on_disk_levels
}

/// One mutation `rec` was appended and applied, and the grown memtable was
/// then swapped out: the old WAL file is gone, a fresh empty one is current,
/// the frozen table sits in `ro_memtable`, and its contents were written as a
/// new SSTable at the head of level 0.
pub open spec fn applied_with_swap(pre: Database, post: Database, rec: RecordModel) -> bool {
    &&& post.ro_memtable.as_map() == apply_record(pre.rw_memtable.as_map(), rec)
    &&& post.rw_memtable@ == Seq::<RecordModel>::empty()
    &&& post.wal.stamp != pre.wal.stamp
    &&& post.dir@.wals.dom() == set![post.wal.stamp]
    &&& parse_records(post.wal_stream()) == Seq::<RecordModel>::empty()
    &&& post.on_disk_levels@.len() == pre.on_disk_levels@.len()
    &&& ({
        let sst = post.on_disk_levels@[0]@[0];
        &&& !pre.dir@.ssts.contains_key(sst)
        &&& sst > pre.last_timestamp
        &&& post.dir@.ssts == pre.dir@.ssts.insert(sst, sst_file_bytes(post.ro_memtable@))
        &&& post.on_disk_levels@[0]@ == seq![sst] + pre.on_disk_levels@[0]@
    })
}

impl Database {
    /// The full mutation stream of the current WAL: its file contents
    /// followed by the not yet flushed buffer.
    pub open spec fn wal_stream(self) -> Seq<u8> {
        self.dir@.wals[self.wal.stamp] + self.wal.buffer@
    }

    /// The engine's invariant. Both memtables are well formed; the directory
    /// holds exactly one `.wal` file, the current one; the WAL stream is a
    /// clean record stream; and replaying that stream from scratch yields
    /// exactly the rw memtable - which is what makes a crash recoverable.
    pub open spec fn wf(self) -> bool {
        &&& self.dir.wf()
        &&& self.rw_memtable.wf()
        &&& self.ro_memtable.wf()
        &&& self.dir@.wals.dom() == set![self.wal.stamp]
        &&& clean_stream(self.wal_stream())
        &&& self.rw_memtable.as_map() == apply_records(
            Map::<Seq<u8>, RecordModel>::empty(),
            parse_records(self.wal_stream()),
        )
        &&& self.wal.stamp <= self.last_timestamp
        &&& forall|st: u128| #[trigger]
            self.dir@.ssts.contains_key(st) ==> st <= self.last_timestamp
        &&& self.on_disk_levels@.len() >= 1
    }

    /// What a successful `init` on `dir` with `options` establishes.
    pub open spec fn init_post(options: DatabaseOptions, dir: Directory, db: Database) -> bool {
        &&& db.wf()
        &&& db.options == options
        &&& db.dir@.ssts == dir@.ssts
        &&& db.dir@.wals.dom() == set![db.wal.stamp]
        &&& db.wal.buffer@ == Seq::<u8>::empty()
        &&& db.ro_memtable@ == Seq::<RecordModel>::empty()
        &&& db.rw_memtable.as_map() == apply_records(
            Map::<Seq<u8>, RecordModel>::empty(),
            parse_records(db.dir@.wals[db.wal.stamp]),
        )
        &&& exists|stamps: Seq<u128>|
            {
                &&& #[trigger] crate::wal::is_ascending_listing(dir@.wals, stamps)
                &&& parse_records(db.dir@.wals[db.wal.stamp]) == crate::wal::records_of_stamps(
                    dir@.wals,
                    stamps,
                )
            }
        &&& db.on_disk_levels@.len() == (if options.level_num > 0 {
            options.level_num as int
        } else {
            1
        })
        &&& forall|l: int, k: int|
            0 <= l < db.on_disk_levels@.len() && 0 <= k < db.on_disk_levels@[l]@.len() ==> {
                &&& db.dir@.ssts.contains_key(#[trigger] db.on_disk_levels@[l]@[k])
                &&& parse_meta(db.dir@.ssts[db.on_disk_levels@[l]@[k]]) matches Some((mm, n))
                    && mm.level == l
            }
        &&& forall|st: u128| #[trigger]
            db.dir@.ssts.contains_key(st) ==> exists|l: int, k: int|
                0 <= l < db.on_disk_levels@.len() && 0 <= k < db.on_disk_levels@[l]@.len()
                    && db.on_disk_levels@[l]@[k] == st
        &&& forall|i: int, j: int|
            0 <= i < j < db.on_disk_levels@[0]@.len() ==> db.on_disk_levels@[0]@[i]
                > db.on_disk_levels@[0]@[j]
        &&& forall|l: int, i: int, j: int|
            #![trigger db.on_disk_levels@[l]@[i], db.on_disk_levels@[l]@[j]]
            1 <= l < db.on_disk_levels@.len() && 0 <= i < j < db.on_disk_levels@[l]@.len()
                ==> !lex_lt(
                sst_low_key(db.dir@, db.on_disk_levels@[l]@[j]),
                sst_low_key(db.dir@, db.on_disk_levels@[l]@[i]),
            )
    }

    /// The errors `init` can surface, each owed to its own cause: a WAL named
    /// at the top of the name space, replaying the surviving records running
    /// the size counter past the machine word, or an SSTable whose header is
    /// unreadable or names a level outside the configured hierarchy.
    pub open spec fn init_err(options: DatabaseOptions, dir: Directory, e: DBError) -> bool {
        ||| (e == DBError::DuplicateFile && dir@.wals.contains_key(u128::MAX))
        ||| (e == DBError::InvariantViolation && replay_would_overflow(dir@.wals))
        ||| (e == DBError::MalformedSSTable && has_bad_sstable(options, dir@))
    }

    pub fn options() -> (r: DatabaseOptions)
        ensures
            r.working_dir@ == "."@,
            r.memtable_threshold == 67108864,
            r.level_zero_memtables_limit == 8,
            r.level_num == 7,
            r.level_factor == 10,
            r.flush_policy == FlushPolicy::OnSwap,
    {
        DatabaseOptions::new()
    }

    /// Opens the engine on a directory image: replays and consolidates the
    /// surviving WALs into a fresh one backing the replayed rw memtable,
    /// creates an empty ro memtable, and indexes the existing SSTables by the
    /// level in their metadata - level 0 newest first.
    #[verifier::rlimit(100)]
    pub fn init(options: DatabaseOptions, dir: Directory) -> (r: Result<Database, DBError>)
        requires
            dir.wf(),
        ensures
            match r {
                Ok(db) => Self::init_post(options, dir, db),
                Err(e) => Self::init_err(options, dir, e),
            },
    {
        let mut work = dir;
        let (wal, rw_memtable) = match WriteAheadLog::load_dir(&mut work) {
            Ok(p) => p,
            Err(e) => {
                return Err(e);
            },
        };
        let ro_memtable = MemTable::new();
        let pairs = match find_existing_ssts(&work) {
            Ok(p) => p,
            Err(e) => {
                proof {
                    reveal(has_unreadable_sstable);
                    reveal(has_bad_sstable);
                    let st = choose|st: u128|
                        #[trigger] work@.ssts.contains_key(st) && parse_meta(work@.ssts[st])
                            is None;
                    assert(dir@.ssts.contains_key(st));
                }
                return Err(e);
            },
        };
        let level_num = if options.level_num > 0 {
            options.level_num
        } else {
            1
        };
        let mut on_disk_levels: Vec<Vec<u128>> = Vec::new();
        let mut li: usize = 0;
        while li < level_num
            invariant
                0 <= li <= level_num,
                on_disk_levels@.len() == li,
                forall|l: int| 0 <= l < li ==> on_disk_levels@[l]@.len() == 0,
            decreases level_num - li,
        {
            on_disk_levels.push(Vec::new());
            li += 1;
        }
        let mut si: usize = 0;
        while si < pairs.len()
            invariant
                work.wf(),
                work@.ssts == dir@.ssts,
                0 <= si <= pairs@.len(),
                on_disk_levels@.len() == level_num,
                level_num >= 1,
                level_num == level_count(options),
                forall|k: int|
                    0 <= k < pairs@.len() ==> work@.ssts.contains_key(#[trigger] pairs@[k].0) && (
                    parse_meta(work@.ssts[pairs@[k].0]) matches Some((mm, n)) && mm
                        == pairs@[k].1@),
                forall|i: int, j: int| 0 <= i < j < pairs@.len() ==> pairs@[i].0 < pairs@[j].0,
                forall|l: int, k: int|
                    0 <= l < on_disk_levels@.len() && 0 <= k < on_disk_levels@[l]@.len() ==> {
                        &&& work@.ssts.contains_key(#[trigger] on_disk_levels@[l]@[k])
                        &&& (parse_meta(work@.ssts[on_disk_levels@[l]@[k]]) matches Some((mm, n))
                            && mm.level == l)
                    },
                forall|l: int, k: int|
                    0 <= l < on_disk_levels@.len() && 0 <= k < on_disk_levels@[l]@.len()
                        ==> exists|p: int|
                        0 <= p < si && pairs@[p].0 == #[trigger] on_disk_levels@[l]@[k],
                forall|p: int|
                    0 <= p < si ==> exists|l: int, k: int|
                        0 <= l < on_disk_levels@.len() && 0 <= k < on_disk_levels@[l]@.len()
                            && on_disk_levels@[l]@[k] == #[trigger] pairs@[p].0,
                forall|i: int, j: int|
                    0 <= i < j < on_disk_levels@[0]@.len() ==> on_disk_levels@[0]@[i]
                        > on_disk_levels@[0]@[j],
                forall|l: int, i: int, j: int|
                    #![trigger on_disk_levels@[l]@[i], on_disk_levels@[l]@[j]]
                    1 <= l < on_disk_levels@.len() && 0 <= i < j < on_disk_levels@[l]@.len()
                        ==> !lex_lt(
                        sst_low_key(work@, on_disk_levels@[l]@[j]),
                        sst_low_key(work@, on_disk_levels@[l]@[i]),
                    ),
            decreases pairs@.len() - si,
        {
            let stamp = pairs[si].0;
            let lvl = pairs[si].1.level();
            if lvl >= level_num {
                proof {
                    reveal(has_bad_sstable);
                    assert(work@.ssts.contains_key(stamp));
                    assert(dir@.ssts.contains_key(stamp));
                    assert(parse_meta(dir@.ssts[stamp]) matches Some((mm, n)) && mm.level
                        >= level_count(options));
                }
                return Err(DBError::MalformedSSTable);
            }
            let ghost before = on_disk_levels@;
            let pos: usize;
            if lvl == 0 {
                pos = 0;
                proof {
                    assert forall|k: int|
                        0 <= k < on_disk_levels@[0]@.len() implies on_disk_levels@[0]@[k]
                        < stamp by {
                        let p = choose|p: int|
                            0 <= p < si && pairs@[p].0 == on_disk_levels@[0]@[k];
                        assert(pairs@[p].0 < pairs@[si as int].0);
                    }
                }
            } else {
                pos = find_low_key_position(&work, &on_disk_levels[lvl], pairs[si].1.low_key());
            }
            let ll = vec_index_mut(&mut on_disk_levels, lvl);
            ll.insert(pos, stamp);
            si += 1;
            proof {
                let after = on_disk_levels@;
                let li = lvl as int;
                let pi = pos as int;
                assert(after[li]@ == before[li]@.insert(pi, stamp));
                before[li]@.insert_ensures(pi, stamp);
                assert(sst_low_key(work@, stamp) == pairs@[si - 1].1@.low_key);
                assert forall|p: int|
                    0 <= p < si implies exists|l: int, k: int|
                    0 <= l < after.len() && 0 <= k < after[l]@.len() && after[l]@[k]
                        == #[trigger] pairs@[p].0 by {
                    if p < si - 1 {
                        let (l, k) = choose|l: int, k: int|
                            0 <= l < before.len() && 0 <= k < before[l]@.len() && before[l]@[k]
                                == pairs@[p].0;
                        if l != li || k < pi {
                            assert(after[l]@[k] == pairs@[p].0);
                        } else {
                            assert(after[l]@[k + 1] == pairs@[p].0);
                        }
                    } else {
                        assert(after[li]@[pi] == stamp);
                    }
                }
                if li >= 1 {
                    assert forall|i: int, j: int|
                        #![trigger after[li]@[i], after[li]@[j]]
                        0 <= i < j < after[li]@.len() implies !lex_lt(
                        sst_low_key(work@, after[li]@[j]),
                        sst_low_key(work@, after[li]@[i]),
                    ) by {
                        if j == pi {
                            if i < pi {
                                assert(after[li]@[i] == before[li]@[i]);
                            }
                        } else if i == pi {
                            assert(after[li]@[j] == before[li]@[j - 1]);
                            lemma_lex_lt_trichotomy(
                                sst_low_key(work@, stamp),
                                sst_low_key(work@, before[li]@[j - 1]),
                            );
                        } else {
                            let ii = if i < pi {
                                i
                            } else {
                                i - 1
                            };
                            let jj = if j < pi {
                                j
                            } else {
                                j - 1
                            };
                            assert(after[li]@[i] == before[li]@[ii]);
                            assert(after[li]@[j] == before[li]@[jj]);
                        }
                    }
                }
            }
        }
        let mut last_timestamp = wal.stamp;
        let pairs_len = pairs.len();
        if pairs_len > 0 {
            let top = pairs[pairs_len - 1].0;
            if top > last_timestamp {
                last_timestamp = top;
            }
            proof {
                assert forall|st: u128| #[trigger]
                    work@.ssts.contains_key(st) implies st <= last_timestamp by {
                    let k = choose|k: int| 0 <= k < pairs@.len() && pairs@[k].0 == st;
                    if k < pairs_len - 1 {
                        assert(pairs@[k].0 < pairs@[pairs_len - 1].0);
                    }
                }
            }
        } else {
            proof {
                assert forall|st: u128| #[trigger]
                    work@.ssts.contains_key(st) implies st <= last_timestamp by {
                    let k = choose|k: int| 0 <= k < pairs@.len() && pairs@[k].0 == st;
                }
            }
        }
        let db = Database {
            wal,
            rw_memtable,
            ro_memtable,
            dir: work,
            on_disk_levels,
            options,
            last_timestamp,
            ops_since_flush: 0,
        };
        proof {
            assert(db.wal_stream() =~= db.dir@.wals[db.wal.stamp]);
        }
        Ok(db)
    }
}

/// Bumps past `last` so that timestamps stay strictly increasing even while
/// the clock stalls or runs backwards; saturates only at the top of u128.
fn next_timestamp(now: u128, last: u128) -> (r: u128)
    ensures
        r >= now,
        r >= last,
        last < u128::MAX ==> r > last,
{
    if now > last {
        now
    } else if last < u128::MAX {
        last + 1
    } else {
        last
    }
}

impl Database {
    /// Records `key -> value`: appends the mutation to the WAL (flushing it
    /// per the flush policy), applies it to the rw memtable, and swaps the
    /// memtable out if it then exceeds the threshold.
    pub fn put(&mut self, key: Vec<u8>, value: Vec<u8>) -> (r: Result<(), DBError>)
        requires
            old(self).wf(),
            size_of(old(self).rw_memtable@) + key@.len() + value@.len() + PER_ENTRY_OVERHEAD
                <= usize::MAX,
        ensures
            final(self).wf(),
            final(self).options == old(self).options,
            final(self).last_timestamp >= old(self).last_timestamp,
            match r {
                Ok(()) => ({
                    let swapped = size_after_put(
                        old(self).rw_memtable.as_map(),
                        old(self).rw_memtable.data_size as int,
                        key@,
                        value@,
                    ) > old(self).options.memtable_threshold;
                    let rec = if swapped {
                        final(self).ro_memtable.as_map()[key@]
                    } else {
                        final(self).rw_memtable.as_map()[key@]
                    };
                    &&& rec.key == key@
                    &&& rec.value == Some(value@)
                    &&& (old(self).last_timestamp < u128::MAX
                        ==> rec.timestamp > old(self).last_timestamp)
                    &&& rec.timestamp <= final(self).last_timestamp
                    &&& if swapped {
                        applied_with_swap(*old(self), *final(self), rec)
                    } else {
                        applied_no_swap(*old(self), *final(self), rec)
                    }
                }),
                Err(e) => ({
                    let rec = final(self).rw_memtable.as_map()[key@];
                    &&& e == DBError::InvariantViolation
                    &&& rec.key == key@
                    &&& rec.value == Some(value@)
                    &&& (old(self).last_timestamp < u128::MAX
                        ==> rec.timestamp > old(self).last_timestamp)
                    &&& rec.timestamp <= final(self).last_timestamp
                    &&& applied_no_swap(*old(self), *final(self), rec)
                    &&& size_after_put(
                        old(self).rw_memtable.as_map(),
                        old(self).rw_memtable.data_size as int,
                        key@,
                        value@,
                    ) > old(self).options.memtable_threshold
                    &&& (rec.timestamp == u128::MAX || old(self).wal.stamp == u128::MAX || 40
                        + final(self).rw_memtable@.first().key.len()
                        + final(self).rw_memtable@.last().key.len() + encode_records(
                        final(self).rw_memtable@,
                    ).len() > usize::MAX)
                }),
            },
    {
        let now = timestamp_now();
        let ts = next_timestamp(now, self.last_timestamp);
        self.last_timestamp = ts;
        let ghost rec = (RecordModel { timestamp: ts, key: key@, value: Some(value@) });
        proof {
            crate::memtable::lemma_size_of_nonneg(self.rw_memtable@);
        }
        self.wal.put(ts, key.as_slice(), value.as_slice());
        proof {
            assert(self.wal_stream() =~= old(self).wal_stream() + crate::utils::spec_encode_record(
                rec,
            ));
            lemma_clean_append(old(self).wal_stream(), rec);
        }
        self.flush_by_policy();
        proof {
            crate::wal::lemma_apply_push(
                Map::<Seq<u8>, RecordModel>::empty(),
                parse_records(old(self).wal_stream()),
                rec,
            );
        }
        self.rw_memtable.put(ts, key, value);
        let ghost mid = *self;
        proof {
            assert(applied_no_swap(*old(self), mid, rec));
        }
        if self.rw_memtable.size() > self.options.memtable_threshold {
            proof {
                if self.rw_memtable@.len() == 0 {
                    assert(size_of(self.rw_memtable@) == 0);
                }
            }
            match self.swap_memtable() {
                Ok(()) => {
                    proof {
                        assert(applied_with_swap(*old(self), *self, rec));
                    }
                    Ok(())
                },
                Err(e) => {
                    proof {
                        assert(applied_no_swap(*old(self), *self, rec));
                    }
                    Err(e)
                },
            }
        } else {
            proof {
                assert(applied_no_swap(*old(self), *self, rec));
            }
            Ok(())
        }
    }

    /// Records a delete of `key`: appends a tombstone to the WAL, applies it
    /// to the rw memtable, and swaps the memtable out if it then exceeds the
    /// threshold.
    pub fn delete(&mut self, key: Vec<u8>) -> (r: Result<(), DBError>)
        requires
            old(self).wf(),
            size_of(old(self).rw_memtable@) + key@.len() + PER_ENTRY_OVERHEAD <= usize::MAX,
        ensures
            final(self).wf(),
            final(self).options == old(self).options,
            final(self).last_timestamp >= old(self).last_timestamp,
            match r {
                Ok(()) => ({
                    let swapped = size_after_delete(
                        old(self).rw_memtable.as_map(),
                        old(self).rw_memtable.data_size as int,
                        key@,
                    ) > old(self).options.memtable_threshold;
                    let rec = if swapped {
                        final(self).ro_memtable.as_map()[key@]
                    } else {
                        final(self).rw_memtable.as_map()[key@]
                    };
                    &&& rec.key == key@
                    &&& rec.value is None
                    &&& (old(self).last_timestamp < u128::MAX
                        ==> rec.timestamp > old(self).last_timestamp)
                    &&& rec.timestamp <= final(self).last_timestamp
                    &&& if swapped {
                        applied_with_swap(*old(self), *final(self), rec)
                    } else {
                        applied_no_swap(*old(self), *final(self), rec)
                    }
                }),
                Err(e) => ({
                    let rec = final(self).rw_memtable.as_map()[key@];
                    &&& e == DBError::InvariantViolation
                    &&& rec.key == key@
                    &&& rec.value is None
                    &&& (old(self).last_timestamp < u128::MAX
                        ==> rec.timestamp > old(self).last_timestamp)
                    &&& rec.timestamp <= final(self).last_timestamp
                    &&& applied_no_swap(*old(self), *final(self), rec)
                    &&& size_after_delete(
                        old(self).rw_memtable.as_map(),
                        old(self).rw_memtable.data_size as int,
                        key@,
                    ) > old(self).options.memtable_threshold
                    &&& (rec.timestamp == u128::MAX || old(self).wal.stamp == u128::MAX || 40
                        + final(self).rw_memtable@.first().key.len()
                        + final(self).rw_memtable@.last().key.len() + encode_records(
                        final(self).rw_memtable@,
                    ).len() > usize::MAX)
                }),
            },
    {
        let now = timestamp_now();
        let ts = next_timestamp(now, self.last_timestamp);
        self.last_timestamp = ts;
        let ghost rec = (RecordModel { timestamp: ts, key: key@, value: None });
        proof {
            crate::memtable::lemma_size_of_nonneg(self.rw_memtable@);
        }
        self.wal.delete(ts, key.as_slice());
        proof {
            assert(self.wal_stream() =~= old(self).wal_stream() + crate::utils::spec_encode_record(
                rec,
            ));
            lemma_clean_append(old(self).wal_stream(), rec);
        }
        self.flush_by_policy();
        proof {
            crate::wal::lemma_apply_push(
                Map::<Seq<u8>, RecordModel>::empty(),
                parse_records(old(self).wal_stream()),
                rec,
            );
        }
        self.rw_memtable.delete(ts, key);
        let ghost mid = *self;
        proof {
            assert(applied_no_swap(*old(self), mid, rec));
        }
        if self.rw_memtable.size() > self.options.memtable_threshold {
            proof {
                if self.rw_memtable@.len() == 0 {
                    assert(size_of(self.rw_memtable@) == 0);
                }
            }
            match self.swap_memtable() {
                Ok(()) => {
                    proof {
                        assert(applied_with_swap(*old(self), *self, rec));
                    }
                    Ok(())
                },
                Err(e) => {
                    proof {
                        assert(applied_no_swap(*old(self), *self, rec));
                    }
                    Err(e)
                },
            }
        } else {
            proof {
                assert(applied_no_swap(*old(self), *self, rec));
            }
            Ok(())
        }
    }

    /// Flushes the WAL buffer when the flush policy calls for it after a
    /// mutation. The WAL stream - file plus buffer - is unchanged either way.
    fn flush_by_policy(&mut self)
        requires
            old(self).dir.wf(),
            old(self).dir@.wals.dom() == set![old(self).wal.stamp],
        ensures
            final(self).dir.wf(),
            final(self).wal.stamp == old(self).wal.stamp,
            final(self).wal_stream() == old(self).wal_stream(),
            final(self).rw_memtable == old(self).rw_memtable,
            final(self).ro_memtable == old(self).ro_memtable,
            final(self).dir@.ssts == old(self).dir@.ssts,
            final(self).dir@.wals.dom() == old(self).dir@.wals.dom(),
            final(self).on_disk_levels == old(self).on_disk_levels,
            final(self).options == old(self).options,
            final(self).last_timestamp == old(self).last_timestamp,
            old(self).options.flush_policy == FlushPolicy::PerMutation
                ==> final(self).wal.buffer@ == Seq::<u8>::empty(),
    {
        let do_flush = match self.options.flush_policy {
            FlushPolicy::PerMutation => true,
            FlushPolicy::EveryN(n) => n == 0 || self.ops_since_flush >= n - 1,
            FlushPolicy::OnSwap => false,
        };
        if do_flush {
            proof {
                assert(self.dir@.wals.contains_key(self.wal.stamp)) by {
                    assert(self.dir@.wals.dom().contains(self.wal.stamp));
                }
            }
            match self.wal.flush(&mut self.dir) {
                Ok(()) => {},
                Err(_) => {
                    proof {
                        assert(false);
                    }
                    vstd::pervasive::unreached()
                },
            }
            self.ops_since_flush = 0;
            proof {
                assert(self.wal_stream() =~= old(self).wal_stream());
                assert(self.dir@.wals.dom() =~= old(self).dir@.wals.dom());
            }
        } else {
            self.ops_since_flush = if self.ops_since_flush < u64::MAX {
                self.ops_since_flush + 1
            } else {
                self.ops_since_flush
            };
        }
    }

    /// Freezes the rw memtable and flushes it: flushes and rotates the WAL,
    /// moves the rw memtable into the ro slot, writes the frozen entries as a
    /// new level-0 SSTable - metadata header, then the records in key order -
    /// records its name at the head of level 0, and only then deletes the old
    /// WAL file. That ordering is load-bearing: the old WAL outlives the
    /// mutations it protects until they are durable in the SSTable.
    #[verifier::rlimit(100)]
    pub fn swap_memtable(&mut self) -> (r: Result<(), DBError>)
        requires
            old(self).wf(),
            old(self).rw_memtable@.len() > 0,
        ensures
            final(self).wf(),
            final(self).options == old(self).options,
            final(self).last_timestamp >= old(self).last_timestamp,
            match r {
                Ok(()) => {
                    &&& final(self).ro_memtable == old(self).rw_memtable
                    &&& final(self).rw_memtable@ == Seq::<RecordModel>::empty()
                    &&& final(self).wal.stamp != old(self).wal.stamp
                    &&& !final(self).dir@.wals.contains_key(old(self).wal.stamp)
                    &&& final(self).dir@.wals.dom() == set![final(self).wal.stamp]
                    &&& parse_records(final(self).wal_stream()) == Seq::<RecordModel>::empty()
                    &&& final(self).on_disk_levels@.len() == old(self).on_disk_levels@.len()
                    &&& ({
                        let sst = final(self).on_disk_levels@[0]@[0];
                        &&& !old(self).dir@.ssts.contains_key(sst)
                        &&& sst > old(self).last_timestamp
                        &&& final(self).dir@.ssts == old(self).dir@.ssts.insert(
                            sst,
                            sst_file_bytes(old(self).rw_memtable@),
                        )
                        &&& final(self).on_disk_levels@[0]@
                            == seq![sst] + old(self).on_disk_levels@[0]@
                    })
                },
                Err(e) => {
                    &&& e == DBError::InvariantViolation
                    &&& *final(self) == *old(self)
                    &&& (old(self).last_timestamp == u128::MAX || old(self).wal.stamp == u128::MAX
                        || 40 + old(self).rw_memtable@.first().key.len()
                            + old(self).rw_memtable@.last().key.len()
                            + encode_records(old(self).rw_memtable@).len() > usize::MAX)
                },
            },
    {
        if self.last_timestamp == u128::MAX || self.wal.stamp == u128::MAX {
            return Err(DBError::InvariantViolation);
        }
        let n = self.rw_memtable.entries.len();
        let mut data: Vec<u8> = Vec::new();
        proof {
            assert(self.rw_memtable@.take(0) =~= Seq::<RecordModel>::empty());
            assert(encode_records(Seq::<RecordModel>::empty()) == Seq::<u8>::empty());
        }
        let mut ei: usize = 0;
        while ei < n
            invariant
                0 <= ei <= n,
                n == self.rw_memtable@.len(),
                n == self.rw_memtable.entries@.len(),
                data@ == encode_records(self.rw_memtable@.take(ei as int)),
            decreases n - ei,
        {
            let e = &self.rw_memtable.entries[ei];
            let ghost rec = e@;
            let ghost prev = data@;
            proof {
                assert(self.rw_memtable@[ei as int] == self.rw_memtable.entries@[ei as int]@);
            }
            match &e.value {
                Some(v) => {
                    crate::utils::CommonBinaryFormatRef::new(
                        e.timestamp,
                        e.key.as_slice(),
                        Some(v.as_slice()),
                    ).write(&mut data);
                },
                None => {
                    crate::utils::CommonBinaryFormatRef::new(
                        e.timestamp,
                        e.key.as_slice(),
                        None,
                    ).write(&mut data);
                },
            }
            proof {
                assert(data@ == prev + crate::utils::spec_encode_record(rec));
                lemma_encode_push(self.rw_memtable@.take(ei as int), rec);
                assert(self.rw_memtable@.take(ei as int).push(rec) =~= self.rw_memtable@.take(
                    ei as int + 1,
                ));
            }
            ei += 1;
        }
        proof {
            assert(self.rw_memtable@.take(n as int) =~= self.rw_memtable@);
        }
        let low_key = slice_to_vec(self.rw_memtable.entries[0].key.as_slice());
        let high_key = slice_to_vec(self.rw_memtable.entries[n - 1].key.as_slice());
        proof {
            assert(self.rw_memtable@[0] == self.rw_memtable.entries@[0]@);
            assert(self.rw_memtable@[n - 1] == self.rw_memtable.entries@[n - 1]@);
        }
        let header = match 40usize.checked_add(low_key.len()) {
            Some(a) => match a.checked_add(high_key.len()) {
                Some(b) => b,
                None => {
                    return Err(DBError::InvariantViolation);
                },
            },
            None => {
                return Err(DBError::InvariantViolation);
            },
        };
        let total = match header.checked_add(data.len()) {
            Some(t) => t,
            None => {
                return Err(DBError::InvariantViolation);
            },
        };
        let meta = SstMetadata::new(0, total, header, low_key, high_key);
        let mut out: Vec<u8> = Vec::new();
        meta.write(&mut out);
        let ghost data_bytes = data@;
        out.append(&mut data);
        proof {
            assert(meta@ == sst_meta_of(old(self).rw_memtable@));
            assert(out@ =~= sst_file_bytes(old(self).rw_memtable@));
        }
        let old_stamp = self.wal.stamp;
        proof {
            assert(self.dir@.wals.contains_key(old_stamp)) by {
                assert(self.dir@.wals.dom().contains(old_stamp));
            }
        }
        match self.wal.flush(&mut self.dir) {
            Ok(()) => {},
            Err(_) => {
                proof {
                    assert(false);
                }
                return vstd::pervasive::unreached();
            },
        }
        let new_wal = match WriteAheadLog::new(&mut self.dir) {
            Ok(w) => w,
            Err(_) => {
                proof {
                    assert(self.dir@.wals.dom().contains(u128::MAX));
                    assert(false);
                }
                return vstd::pervasive::unreached();
            },
        };
        self.wal = new_wal;
        self.ro_memtable = MemTable::new();
        core::mem::swap(&mut self.rw_memtable, &mut self.ro_memtable);
        let now = timestamp_now();
        let sst_stamp = next_timestamp(now, self.last_timestamp);
        if self.wal.stamp > self.last_timestamp {
            self.last_timestamp = self.wal.stamp;
        }
        if sst_stamp > self.last_timestamp {
            self.last_timestamp = sst_stamp;
        }
        proof {
            assert(!self.dir@.ssts.contains_key(sst_stamp)) by {
                if self.dir@.ssts.contains_key(sst_stamp) {
                    assert(sst_stamp <= old(self).last_timestamp);
                }
            }
        }
        match self.dir.create(sst_stamp, FileKind::Sst) {
            Ok(()) => {},
            Err(_) => {
                proof {
                    assert(false);
                }
                return vstd::pervasive::unreached();
            },
        }
        match self.dir.append(sst_stamp, FileKind::Sst, out.as_slice()) {
            Ok(()) => {},
            Err(_) => {
                proof {
                    assert(false);
                }
                return vstd::pervasive::unreached();
            },
        }
        let ghost levels_before = self.on_disk_levels@;
        let l0 = vec_index_mut(&mut self.on_disk_levels, 0);
        l0.insert(0, sst_stamp);
        proof {
            levels_before[0]@.insert_ensures(0, sst_stamp);
        }
        match self.dir.remove(old_stamp, FileKind::Wal) {
            Ok(()) => {},
            Err(_) => {
                proof {
                    assert(self.dir@.wals.dom().contains(old_stamp));
                    assert(false);
                }
                return vstd::pervasive::unreached();
            },
        }
        proof {
            lemma_clean_empty();
            assert(self.dir@.wals.dom() =~= set![self.wal.stamp]);
            assert(self.wal_stream() =~= Seq::<u8>::empty());
            assert(apply_records(
                Map::<Seq<u8>, RecordModel>::empty(),
                Seq::<RecordModel>::empty(),
            ) == Map::<Seq<u8>, RecordModel>::empty());
            assert(self.dir@.ssts =~= old(self).dir@.ssts.insert(
                sst_stamp,
                sst_file_bytes(old(self).rw_memtable@),
            ));
            assert(self.on_disk_levels@[0]@ =~= seq![sst_stamp] + old(self).on_disk_levels@[0]@);
        }
        Ok(())
    }

    /// Hands back the directory image, dropping the engine: the files
    /// survive; the unflushed WAL buffer and the memtables are lost, exactly
    /// as when the process stops.
    pub fn into_directory(self) -> (d: Directory)
        ensures
            d == self.dir,
    {
        self.dir
    }
}

/// Crash safety: for a well-formed engine whose WAL buffer has been flushed,
/// the one surviving `.wal` file replays to exactly the rw memtable. What a
/// crash loses is thus at most the buffered tail; under the per-mutation
/// flush policy the buffer is empty after every call.
pub proof fn lemma_crash_recovery(db: Database)
    requires
        db.wf(),
        db.wal.buffer@.len() == 0,
    ensures
        db.dir@.wals.dom() == set![db.wal.stamp],
        apply_records(
            Map::<Seq<u8>, RecordModel>::empty(),
            parse_records(db.dir@.wals[db.wal.stamp]),
        ) == db.rw_memtable.as_map(),
{
    assert(db.wal_stream() =~= db.dir@.wals[db.wal.stamp]);
}

/// Where a table with the given low key belongs in a level kept ascending by
/// low key: after every table whose low key is not greater.
fn find_low_key_position(dir: &Directory, level: &Vec<u128>, low_key: &Vec<u8>) -> (pos: usize)
    requires
        dir.wf(),
        forall|k: int|
            0 <= k < level@.len() ==> dir@.ssts.contains_key(#[trigger] level@[k]) && parse_meta(
                dir@.ssts[level@[k]],
            ) is Some,
        forall|i: int, j: int|
            #![trigger level@[i], level@[j]]
            0 <= i < j < level@.len() ==> !lex_lt(
                sst_low_key(dir@, level@[j]),
                sst_low_key(dir@, level@[i]),
            ),
    ensures
        0 <= pos <= level@.len(),
        forall|k: int|
            0 <= k < pos ==> !lex_lt(low_key@, sst_low_key(dir@, #[trigger] level@[k])),
        forall|k: int|
            pos <= k < level@.len() ==> lex_lt(low_key@, sst_low_key(dir@, #[trigger] level@[k])),
{
    let n = level.len();
    let mut pos: usize = 0;
    while pos < n
        invariant
            0 <= pos <= n,
            n == level@.len(),
            dir.wf(),
            forall|k: int|
                0 <= k < level@.len() ==> dir@.ssts.contains_key(#[trigger] level@[k])
                    && parse_meta(dir@.ssts[level@[k]]) is Some,
            forall|i: int, j: int|
                #![trigger level@[i], level@[j]]
                0 <= i < j < level@.len() ==> !lex_lt(
                    sst_low_key(dir@, level@[j]),
                    sst_low_key(dir@, level@[i]),
                ),
            forall|k: int|
                0 <= k < pos ==> !lex_lt(low_key@, sst_low_key(dir@, #[trigger] level@[k])),
        decreases n - pos,
    {
        let st = level[pos];
        let bytes = match dir.contents(st, FileKind::Sst) {
            Some(b) => b,
            None => {
                proof {
                    assert(false);
                }
                vstd::pervasive::unreached()
            },
        };
        let meta = match SstMetadata::read(bytes.as_slice(), 0) {
            Ok((m, _)) => m,
            Err(_) => {
                proof {
                    assert(bytes@.skip(0) =~= bytes@);
                    assert(false);
                }
                vstd::pervasive::unreached()
            },
        };
        proof {
            assert(bytes@.skip(0) =~= bytes@);
            assert(meta@.low_key == sst_low_key(dir@, st));
        }
        match compare_keys(low_key.as_slice(), meta.low_key().as_slice()) {
            KeyOrder::Less => {
                proof {
                    assert forall|k: int| pos <= k < level@.len() implies lex_lt(
                        low_key@,
                        sst_low_key(dir@, #[trigger] level@[k]),
                    ) by {
                        if k > pos {
                            lemma_lex_lt_trichotomy(
                                sst_low_key(dir@, level@[pos as int]),
                                sst_low_key(dir@, level@[k]),
                            );
                            if lex_lt(
                                sst_low_key(dir@, level@[pos as int]),
                                sst_low_key(dir@, level@[k]),
                            ) {
                                crate::memtable::lemma_lex_lt_trans(
                                    low_key@,
                                    sst_low_key(dir@, level@[pos as int]),
                                    sst_low_key(dir@, level@[k]),
                                );
                            }
                        }
                    }
                }
                return pos;
            },
            _ => {
                pos += 1;
            },
        }
    }
    pos
}

/// Scans the directory for `.sst` files, ascending by name, and reads each
/// one's metadata header. An unreadable header is corruption.
fn find_existing_ssts(dir: &Directory) -> (r: Result<Vec<(u128, SstMetadata)>, DBError>)
    requires
        dir.wf(),
    ensures
        match r {
            Ok(v) => {
                &&& forall|k: int|
                    0 <= k < v@.len() ==> dir@.ssts.contains_key(#[trigger] v@[k].0) && (parse_meta(
                        dir@.ssts[v@[k].0],
                    ) matches Some((mm, n)) && mm == v@[k].1@)
                &&& forall|i: int, j: int| 0 <= i < j < v@.len() ==> v@[i].0 < v@[j].0
                &&& forall|st: u128| #[trigger]
                    dir@.ssts.contains_key(st) ==> exists|k: int|
                        0 <= k < v@.len() && v@[k].0 == st
            },
            Err(e) => e == DBError::MalformedSSTable && has_unreadable_sstable(dir@),
        },
{
    let stamps = dir.scan_dir(FileKind::Sst);
    let mut found: Vec<(u128, SstMetadata)> = Vec::new();
    let mut i: usize = 0;
    while i < stamps.len()
        invariant
            dir.wf(),
            0 <= i <= stamps@.len(),
            found@.len() == i,
            forall|i2: int, j2: int| 0 <= i2 < j2 < stamps@.len() ==> stamps@[i2] < stamps@[j2],
            forall|st: u128| #[trigger] stamps@.contains(st) <==> dir@.ssts.contains_key(st),
            forall|k: int| 0 <= k < i ==> #[trigger] found@[k].0 == stamps@[k],
            forall|k: int|
                0 <= k < i ==> dir@.ssts.contains_key(#[trigger] found@[k].0) && (parse_meta(
                    dir@.ssts[found@[k].0],
                ) matches Some((mm, n)) && mm == found@[k].1@),
        decreases stamps@.len() - i,
    {
        let stamp = stamps[i];
        proof {
            assert(stamps@.contains(stamp)) by {
                assert(stamps@[i as int] == stamp);
            }
        }
        let bytes = match dir.contents(stamp, FileKind::Sst) {
            Some(v) => v,
            None => {
                proof {
                    assert(false);
                }
                vstd::pervasive::unreached()
            },
        };
        match SstMetadata::read(bytes.as_slice(), 0) {
            Ok((meta, _)) => {
                proof {
                    assert(bytes@.skip(0) =~= bytes@);
                }
                found.push((stamp, meta));
            },
            Err(e) => {
                proof {
                    reveal(has_unreadable_sstable);
                    assert(bytes@.skip(0) =~= bytes@);
                    assert(dir@.ssts.contains_key(stamp));
                }
                return Err(e);
            },
        }
        i += 1;
    }
    proof {
        assert forall|st: u128| #[trigger] dir@.ssts.contains_key(st) implies exists|k: int|
            0 <= k < found@.len() && found@[k].0 == st by {
            assert(stamps@.contains(st));
            let j = choose|j: int| 0 <= j < stamps@.len() && stamps@[j] == st;
            assert(found@[j].0 == st);
        }
        assert forall|i2: int, j2: int| 0 <= i2 < j2 < found@.len() implies found@[i2].0
            < found@[j2].0 by {
            assert(found@[i2].0 == stamps@[i2]);
            assert(found@[j2].0 == stamps@[j2]);
        }
    }
    Ok(found)
}

} // verus!
