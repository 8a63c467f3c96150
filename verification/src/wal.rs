use vstd::prelude::*;
use vstd::slice::slice_to_vec;

use crate::error::DBError;
use crate::memtable::{size_after_delete, size_after_put, MemTable, PER_ENTRY_OVERHEAD};
use crate::storage::{Directory, FileKind};
use crate::utils::{
    lemma_parse_record_consumed, lemma_record_round_trip, parse_record, spec_encode_record,
    record_wf, timestamp_now, view_opt, CommonBinaryFormat, CommonBinaryFormatRef, RecordModel,
};

verus! {

/// All records readable from `b` in order, up to the first point where no
/// whole record follows: a clean end of stream, or a corrupt tail, which is
/// dropped.
pub open spec fn parse_records(b: Seq<u8>) -> Seq<RecordModel>
    decreases b.len(),
    via parse_records_dec
{
    match parse_record(b) {
        Some((r, n)) => seq![r] + parse_records(b.skip(n)),
        None => Seq::<RecordModel>::empty(),
    }
}

#[via_fn]
proof fn parse_records_dec(b: Seq<u8>) {
    lemma_parse_record_consumed(b);
}

/// The concatenated wire encodings of `rs`.
pub open spec fn encode_records(rs: Seq<RecordModel>) -> Seq<u8>
    decreases rs.len(),
{
    if rs.len() == 0 {
        Seq::<u8>::empty()
    } else {
        spec_encode_record(rs.first()) + encode_records(rs.drop_first())
    }
}

/// Every record fits the wire format's length fields.
pub open spec fn records_wf(rs: Seq<RecordModel>) -> bool {
    forall|i: int| 0 <= i < rs.len() ==> record_wf(#[trigger] rs[i])
}

/// A byte stream is clean when it is exactly the encoding of the records
/// parsed from it: no corrupt tail.
pub open spec fn clean_stream(b: Seq<u8>) -> bool {
    &&& records_wf(parse_records(b))
    &&& encode_records(parse_records(b)) == b
}

/// Appending one record to an encoded stream extends its parse by exactly
/// that record.
pub proof fn lemma_encode_push(rs: Seq<RecordModel>, r: RecordModel)
    ensures
        encode_records(rs.push(r)) == encode_records(rs) + spec_encode_record(r),
    decreases rs.len(),
{
    if rs.len() == 0 {
        assert(rs.push(r).drop_first() =~= Seq::<RecordModel>::empty());
        assert(rs.push(r).first() == r);
        assert(encode_records(Seq::<RecordModel>::empty()) == Seq::<u8>::empty());
        assert(encode_records(rs.push(r)) =~= spec_encode_record(r));
        assert(encode_records(rs) + spec_encode_record(r) =~= spec_encode_record(r));
    } else {
        assert(rs.push(r).drop_first() =~= rs.drop_first().push(r));
        lemma_encode_push(rs.drop_first(), r);
        assert(encode_records(rs.push(r)) =~= encode_records(rs) + spec_encode_record(r));
    }
}

/// Round trip for streams: an encoded record stream parses back exactly.
pub proof fn lemma_records_round_trip(rs: Seq<RecordModel>)
    requires
        records_wf(rs),
    ensures
        parse_records(encode_records(rs)) == rs,
    decreases rs.len(),
{
    if rs.len() == 0 {
        assert(parse_records(encode_records(rs)) =~= rs);
    } else {
        let e0 = spec_encode_record(rs.first());
        let rest = encode_records(rs.drop_first());
        lemma_record_round_trip(rs.first(), rest);
        assert((e0 + rest).skip(e0.len() as int) =~= rest);
        assert forall|i: int| 0 <= i < rs.drop_first().len() implies record_wf(
            #[trigger] rs.drop_first()[i],
        ) by {
            assert(rs.drop_first()[i] == rs[i + 1]);
        }
        lemma_records_round_trip(rs.drop_first());
        assert(parse_records(encode_records(rs)) =~= rs);
    }
}

/// An empty stream is clean and holds no records.
pub proof fn lemma_clean_empty()
    ensures
        clean_stream(Seq::<u8>::empty()),
        parse_records(Seq::<u8>::empty()) == Seq::<RecordModel>::empty(),
{
    assert(encode_records(Seq::<RecordModel>::empty()) =~= Seq::<u8>::empty());
}

/// Appending one well-formed encoded record keeps a stream clean and appends
/// exactly that record to its parse.
pub proof fn lemma_clean_append(b: Seq<u8>, r: RecordModel)
    requires
        clean_stream(b),
        record_wf(r),
    ensures
        clean_stream(b + spec_encode_record(r)),
        parse_records(b + spec_encode_record(r)) == parse_records(b).push(r),
{
    let rs = parse_records(b);
    let rs2 = rs.push(r);
    assert forall|i: int| 0 <= i < rs2.len() implies record_wf(#[trigger] rs2[i]) by {
        if i < rs.len() {
            assert(rs2[i] == rs[i]);
        }
    }
    lemma_encode_push(rs, r);
    lemma_records_round_trip(rs2);
    assert(encode_records(rs2) == b + spec_encode_record(r));
}

/// Applying one mutation record to the key map: the record becomes the
/// latest entry for its key.
pub open spec fn apply_record(
    m: Map<Seq<u8>, RecordModel>,
    r: RecordModel,
) -> Map<Seq<u8>, RecordModel> {
    m.insert(r.key, r)
}

/// Applying a record sequence in order: for each key, the last record wins.
pub open spec fn apply_records(
    m: Map<Seq<u8>, RecordModel>,
    rs: Seq<RecordModel>,
) -> Map<Seq<u8>, RecordModel>
    decreases rs.len(),
{
    if rs.len() == 0 {
        m
    } else {
        apply_records(apply_record(m, rs.first()), rs.drop_first())
    }
}

/// Applying one more record applies it after the rest.
pub proof fn lemma_apply_push(m: Map<Seq<u8>, RecordModel>, rs: Seq<RecordModel>, r: RecordModel)
    ensures
        apply_records(m, rs.push(r)) == apply_record(apply_records(m, rs), r),
    decreases rs.len(),
{
    if rs.len() == 0 {
        assert(rs.push(r).drop_first() =~= Seq::<RecordModel>::empty());
        assert(rs.push(r).first() == r);
        assert(apply_records(apply_record(m, r), Seq::<RecordModel>::empty()) == apply_record(
            m,
            r,
        ));
        assert(apply_records(m, Seq::<RecordModel>::empty()) == m);
    } else {
        assert(rs.push(r).drop_first() =~= rs.drop_first().push(r));
        assert(rs.push(r).first() == rs.first());
        lemma_apply_push(apply_record(m, rs.first()), rs.drop_first(), r);
    }
}

/// A key no record bears is left untouched by replay.
pub proof fn lemma_apply_untouched(m: Map<Seq<u8>, RecordModel>, rs: Seq<RecordModel>, k: Seq<u8>)
    requires
        forall|i: int| 0 <= i < rs.len() ==> (#[trigger] rs[i]).key != k,
    ensures
        apply_records(m, rs).contains_key(k) == m.contains_key(k),
        m.contains_key(k) ==> apply_records(m, rs)[k] == m[k],
    decreases rs.len(),
{
    if rs.len() > 0 {
        assert(rs.first().key != k) by {
            assert(rs[0].key != k);
        }
        assert forall|i: int| 0 <= i < rs.drop_first().len() implies (#[trigger] rs.drop_first()[i]).key
            != k by {
            assert(rs.drop_first()[i] == rs[i + 1]);
        }
        lemma_apply_untouched(apply_record(m, rs.first()), rs.drop_first(), k);
    }
}

/// Replay's domain: a key is present exactly when it was present before or
/// some record bears it.
pub proof fn lemma_apply_domain(m: Map<Seq<u8>, RecordModel>, rs: Seq<RecordModel>, k: Seq<u8>)
    ensures
        apply_records(m, rs).contains_key(k) <==> m.contains_key(k) || exists|i: int|
            0 <= i < rs.len() && (#[trigger] rs[i]).key == k,
    decreases rs.len(),
{
    if rs.len() > 0 {
        lemma_apply_domain(apply_record(m, rs.first()), rs.drop_first(), k);
        if exists|i: int| 0 <= i < rs.drop_first().len() && (#[trigger] rs.drop_first()[i]).key
            == k {
            let i = choose|i: int|
                0 <= i < rs.drop_first().len() && (#[trigger] rs.drop_first()[i]).key == k;
            assert(rs[i + 1].key == k);
        }
        if rs.first().key == k {
            assert(rs[0].key == k);
        }
        if exists|i: int| 0 <= i < rs.len() && (#[trigger] rs[i]).key == k {
            let i = choose|i: int| 0 <= i < rs.len() && (#[trigger] rs[i]).key == k;
            if i > 0 {
                assert(rs.drop_first()[i - 1].key == k);
            }
        }
    }
}

/// Replay collapses by key, the latest record winning: after applying `rs`,
/// a key whose last record is `rs[i]` maps to exactly `rs[i]`.
pub proof fn lemma_apply_latest_wins(m: Map<Seq<u8>, RecordModel>, rs: Seq<RecordModel>, i: int)
    requires
        0 <= i < rs.len(),
        forall|j: int| i < j < rs.len() ==> (#[trigger] rs[j]).key != rs[i].key,
    ensures
        apply_records(m, rs).contains_key(rs[i].key),
        apply_records(m, rs)[rs[i].key] == rs[i],
    decreases rs.len(),
{
    let m1 = apply_record(m, rs.first());
    if i == 0 {
        assert forall|j: int| 0 <= j < rs.drop_first().len() implies (#[trigger] rs.drop_first()[j]).key
            != rs[0].key by {
            assert(rs.drop_first()[j] == rs[j + 1]);
        }
        lemma_apply_untouched(m1, rs.drop_first(), rs[0].key);
        assert(m1.contains_key(rs[0].key) && m1[rs[0].key] == rs[0]);
    } else {
        assert forall|j: int|
            i - 1 < j < rs.drop_first().len() implies (#[trigger] rs.drop_first()[j]).key
            != rs.drop_first()[i - 1].key by {
            assert(rs.drop_first()[j] == rs[j + 1]);
            assert(rs.drop_first()[i - 1] == rs[i]);
        }
        lemma_apply_latest_wins(m1, rs.drop_first(), i - 1);
        assert(rs.drop_first()[i - 1] == rs[i]);
    }
}

/// Concatenation encodes piecewise.
pub proof fn lemma_encode_concat(a: Seq<RecordModel>, b: Seq<RecordModel>)
    ensures
        encode_records(a + b) == encode_records(a) + encode_records(b),
    decreases a.len(),
{
    if a.len() == 0 {
        assert(a + b =~= b);
        assert(encode_records(a) == Seq::<u8>::empty());
        assert(encode_records(a) + encode_records(b) =~= encode_records(b));
    } else {
        assert((a + b).len() > 0);
        assert((a + b).first() == a.first());
        assert((a + b).drop_first() =~= a.drop_first() + b);
        lemma_encode_concat(a.drop_first(), b);
        assert(encode_records(a + b) =~= encode_records(a) + encode_records(b));
    }
}

/// Applying a concatenation applies the parts in order.
pub proof fn lemma_apply_concat(
    m: Map<Seq<u8>, RecordModel>,
    a: Seq<RecordModel>,
    b: Seq<RecordModel>,
)
    ensures
        apply_records(m, a + b) == apply_records(apply_records(m, a), b),
    decreases a.len(),
{
    if a.len() == 0 {
        assert(a + b =~= b);
        assert(apply_records(m, a) == m);
    } else {
        assert((a + b).len() > 0);
        assert((a + b).first() == a.first());
        assert((a + b).drop_first() =~= a.drop_first() + b);
        lemma_apply_concat(apply_record(m, a.first()), a.drop_first(), b);
    }
}

/// All records of the named wal files of `m`, in the given name order.
pub open spec fn records_of_stamps(m: Map<u128, Seq<u8>>, stamps: Seq<u128>) -> Seq<RecordModel>
    decreases stamps.len(),
{
    if stamps.len() == 0 {
        Seq::<RecordModel>::empty()
    } else {
        parse_records(m[stamps.first()]) + records_of_stamps(m, stamps.drop_first())
    }
}

/// `stamps` lists exactly the names in `m`, strictly ascending.
pub open spec fn is_ascending_listing(m: Map<u128, Seq<u8>>, stamps: Seq<u128>) -> bool {
    &&& forall|i: int, j: int| 0 <= i < j < stamps.len() ==> stamps[i] < stamps[j]
    &&& forall|st: u128| #[trigger] stamps.contains(st) <==> m.contains_key(st)
}

/// Listing one more file appends that file's records.
proof fn lemma_records_take_snoc(m: Map<u128, Seq<u8>>, stamps: Seq<u128>, k: int)
    requires
        0 <= k < stamps.len(),
    ensures
        records_of_stamps(m, stamps.take(k + 1)) == records_of_stamps(m, stamps.take(k))
            + parse_records(m[stamps[k]]),
    decreases k,
{
    if k == 0 {
        assert(stamps.take(1) =~= seq![stamps[0]]);
        assert(stamps.take(0) =~= Seq::<u128>::empty());
        assert(seq![stamps[0]].first() == stamps[0]);
        assert(seq![stamps[0]].drop_first() =~= Seq::<u128>::empty());
        assert(records_of_stamps(m, Seq::<u128>::empty()) == Seq::<RecordModel>::empty());
        assert(records_of_stamps(m, stamps.take(1)) =~= parse_records(m[stamps[0]]));
        assert(records_of_stamps(m, stamps.take(0)) + parse_records(m[stamps[0]])
            =~= parse_records(m[stamps[0]]));
    } else {
        let t1 = stamps.take(k + 1);
        let t0 = stamps.take(k);
        assert(t1.len() > 0 && t0.len() > 0);
        assert(t1.first() == stamps[0]);
        assert(t0.first() == stamps[0]);
        assert(t1.drop_first() =~= stamps.drop_first().take(k));
        assert(t0.drop_first() =~= stamps.drop_first().take(k - 1));
        lemma_records_take_snoc(m, stamps.drop_first(), k - 1);
        assert(stamps.drop_first()[k - 1] == stamps[k]);
        assert(records_of_stamps(m, t1) =~= records_of_stamps(m, t0) + parse_records(
            m[stamps[k]],
        ));
    }
}

/// The accounted size of a memtable rebuilt by replaying `rs` from scratch,
/// following the sizing rules of put and delete.
pub open spec fn replayed_size(rs: Seq<RecordModel>) -> int
    decreases rs.len(),
{
    if rs.len() == 0 {
        0
    } else {
        let m = apply_records(Map::<Seq<u8>, RecordModel>::empty(), rs.drop_last());
        let s = replayed_size(rs.drop_last());
        match rs.last().value {
            Some(v) => size_after_put(m, s, rs.last().key, v),
            None => size_after_delete(m, s, rs.last().key),
        }
    }
}

/// The worst-case growth of the size counter from one replayed record: what
/// it must be able to take in before the record is applied.
pub open spec fn record_growth(r: RecordModel) -> int {
    r.key.len() + (match r.value {
        Some(v) => v.len() as int,
        None => 0,
    }) + PER_ENTRY_OVERHEAD
}

/// Replaying `rs` runs the size counter past the machine word at some record.
#[verifier::opaque]
pub open spec fn replay_overflows(rs: Seq<RecordModel>) -> bool {
    exists|i: int|
        0 <= i < rs.len() && replayed_size(rs.take(i)) + record_growth(#[trigger] rs[i])
            > usize::MAX
}

/// Replaying the wal files of `wals` in ascending name order runs the size
/// counter past the machine word.
#[verifier::opaque]
pub open spec fn replay_would_overflow(wals: Map<u128, Seq<u8>>) -> bool {
    exists|stamps: Seq<u128>|
        #[trigger] is_ascending_listing(wals, stamps) && replay_overflows(
            records_of_stamps(wals, stamps),
        )
}

/// A file listing splits into a prefix and the rest.
proof fn lemma_records_split(m: Map<u128, Seq<u8>>, stamps: Seq<u128>, k: int)
    requires
        0 <= k <= stamps.len(),
    ensures
        records_of_stamps(m, stamps) == records_of_stamps(m, stamps.take(k)) + records_of_stamps(
            m,
            stamps.skip(k),
        ),
    decreases k,
{
    if k == 0 {
        assert(stamps.take(0) =~= Seq::<u128>::empty());
        assert(stamps.skip(0) =~= stamps);
        assert(records_of_stamps(m, Seq::<u128>::empty()) == Seq::<RecordModel>::empty());
        assert(records_of_stamps(m, stamps.take(0)) + records_of_stamps(m, stamps.skip(0))
            =~= records_of_stamps(m, stamps));
    } else {
        lemma_records_split(m, stamps, k - 1);
        lemma_records_take_snoc(m, stamps, k - 1);
        assert(stamps.skip(k - 1).len() > 0);
        assert(stamps.skip(k - 1).first() == stamps[k - 1]);
        assert(stamps.skip(k - 1).drop_first() =~= stamps.skip(k));
        assert(records_of_stamps(m, stamps.skip(k - 1)) == parse_records(m[stamps[k - 1]])
            + records_of_stamps(m, stamps.skip(k)));
        assert(records_of_stamps(m, stamps) =~= records_of_stamps(m, stamps.take(k))
            + records_of_stamps(m, stamps.skip(k)));
    }
}

/// One durable mutation read back from a write-ahead log.
#[derive(Debug, Clone, PartialEq, Eq)]
pub struct WriteAheadLogEntry {
    pub key: Vec<u8>,
    /// `None` if the mutation was a delete.
    pub value: Option<Vec<u8>>,
    pub timestamp: u128,
}

impl View for WriteAheadLogEntry {
    type V = RecordModel;

    open spec fn view(&self) -> RecordModel {
        RecordModel { timestamp: self.timestamp, key: self.key@, value: view_opt(self.value) }
    }
}

/// The append side of a write-ahead log: the name of its file in the working
/// directory, and the records encoded but not yet flushed to it.
pub struct WriteAheadLog {
    /// The numeric timestamp naming the `<stamp>.wal` file.
    pub stamp: u128,
    /// Encoded records awaiting a `flush` into the file.
    pub buffer: Vec<u8>,
}

impl WriteAheadLog {
    /// Creates a new, empty log file in the directory, named by the current
    /// timestamp, bumped past every existing log name so that names stay
    /// unique and ascending in creation order. Fails only when a log named
    /// `u128::MAX` leaves no name available.
    pub fn new(dir: &mut Directory) -> (r: Result<WriteAheadLog, DBError>)
        requires
            old(dir).wf(),
        ensures
            final(dir).wf(),
            final(dir)@.ssts == old(dir)@.ssts,
            match r {
                Ok(w) => {
                    &&& w.buffer@ == Seq::<u8>::empty()
                    &&& !old(dir)@.wals.contains_key(w.stamp)
                    &&& final(dir)@.wals == old(dir)@.wals.insert(w.stamp, Seq::<u8>::empty())
                    &&& forall|st: u128| old(dir)@.wals.contains_key(st) ==> st < w.stamp
                },
                Err(e) => {
                    &&& e == DBError::DuplicateFile
                    &&& old(dir)@.wals.contains_key(u128::MAX)
                    &&& final(dir)@.wals == old(dir)@.wals
                },
            },
    {
        let now = timestamp_now();
        let existing = dir.scan_dir(FileKind::Wal);
        let stamp: u128;
        if existing.len() == 0 {
            stamp = now;
            proof {
                assert forall|st: u128| old(dir)@.wals.contains_key(st) implies st < stamp by {
                    assert(existing@.contains(st));
                }
            }
        } else {
            let top = existing[existing.len() - 1];
            proof {
                assert(existing@.contains(top)) by {
                    assert(existing@[existing@.len() - 1] == top);
                }
            }
            if top == u128::MAX {
                return Err(DBError::DuplicateFile);
            }
            stamp = if now > top {
                now
            } else {
                top + 1
            };
            proof {
                assert forall|st: u128| old(dir)@.wals.contains_key(st) implies st < stamp by {
                    assert(existing@.contains(st));
                    let j = choose|j: int| 0 <= j < existing@.len() && existing@[j] == st;
                    if j < existing@.len() - 1 {
                        assert(existing@[j] < existing@[existing@.len() - 1]);
                    }
                }
            }
        }
        match dir.create(stamp, FileKind::Wal) {
            Ok(()) => Ok(WriteAheadLog { stamp, buffer: Vec::new() }),
            Err(_) => {
                proof {
                    assert(false);
                }
                vstd::pervasive::unreached()
            },
        }
    }

    /// Opens the existing log file named `stamp` for further appends.
    pub fn load(dir: &Directory, stamp: u128) -> (r: Result<WriteAheadLog, DBError>)
        requires
            dir.wf(),
        ensures
            match r {
                Ok(w) => dir@.wals.contains_key(stamp) && w.stamp == stamp && w.buffer@
                    == Seq::<u8>::empty(),
                Err(e) => e == DBError::MissingFile && !dir@.wals.contains_key(stamp),
            },
    {
        match dir.contents(stamp, FileKind::Wal) {
            Some(_) => Ok(WriteAheadLog { stamp, buffer: Vec::new() }),
            None => Err(DBError::MissingFile),
        }
    }

    /// Startup recovery: reads every `.wal` file in ascending name order,
    /// replays each record into a fresh memtable, re-encodes it into one
    /// fresh consolidated log, flushes that log, and deletes the old files.
    /// A corrupt tail of a file is dropped at the first unreadable record.
    /// Afterwards the directory holds exactly one `.wal` file, and it encodes
    /// exactly the surviving records; the memtable holds, for each key, the
    /// last surviving record, as `apply_records` states.
    pub fn load_dir(dir: &mut Directory) -> (r: Result<(WriteAheadLog, MemTable), DBError>)
        requires
            old(dir).wf(),
        ensures
            final(dir).wf(),
            final(dir)@.ssts == old(dir)@.ssts,
            match r {
                Ok((w, mt)) => {
                    &&& mt.wf()
                    &&& w.buffer@ == Seq::<u8>::empty()
                    &&& final(dir)@.wals.dom() == set![w.stamp]
                    &&& clean_stream(final(dir)@.wals[w.stamp])
                    &&& mt.as_map() == apply_records(
                        Map::<Seq<u8>, RecordModel>::empty(),
                        parse_records(final(dir)@.wals[w.stamp]),
                    )
                    &&& exists|stamps: Seq<u128>|
                        {
                            &&& #[trigger] is_ascending_listing(old(dir)@.wals, stamps)
                            &&& parse_records(final(dir)@.wals[w.stamp]) == records_of_stamps(
                                old(dir)@.wals,
                                stamps,
                            )
                        }
                },
                Err(e) => {
                    &&& (e == DBError::DuplicateFile && old(dir)@.wals.contains_key(u128::MAX))
                        || (e == DBError::InvariantViolation && replay_would_overflow(
                        old(dir)@.wals,
                    ))
                    &&& forall|st: u128|
                        old(dir)@.wals.contains_key(st) ==> final(dir)@.wals.contains_key(st)
                },
            },
    {
        let ghost old_wals = old(dir)@.wals;
        let old_stamps = dir.scan_dir(FileKind::Wal);
        let mut memtable = MemTable::new();
        let mut new_wal = match Self::new(dir) {
            Ok(w) => w,
            Err(e) => {
                return Err(e);
            },
        };
        let ghost new_stamp = new_wal.stamp;
        proof {
            assert(old_stamps@.take(0) =~= Seq::<u128>::empty());
            assert(records_of_stamps(old_wals, Seq::<u128>::empty())
                == Seq::<RecordModel>::empty());
            assert(encode_records(Seq::<RecordModel>::empty()) == Seq::<u8>::empty());
            assert(apply_records(
                Map::<Seq<u8>, RecordModel>::empty(),
                Seq::<RecordModel>::empty(),
            ) == Map::<Seq<u8>, RecordModel>::empty());
        }
        let mut fi: usize = 0;
        while fi < old_stamps.len()
            invariant
                dir.wf(),
                old_wals == old(dir)@.wals,
                0 <= fi <= old_stamps@.len(),
                forall|i: int, j: int|
                    0 <= i < j < old_stamps@.len() ==> old_stamps@[i] < old_stamps@[j],
                forall|st: u128| #[trigger] old_stamps@.contains(st) <==> old_wals.contains_key(st),
                forall|st: u128| old_wals.contains_key(st) ==> st < new_stamp,
                !old_wals.contains_key(new_stamp),
                new_wal.stamp == new_stamp,
                dir@.wals == old_wals.insert(new_stamp, Seq::<u8>::empty()),
                dir@.ssts == old(dir)@.ssts,
                memtable.wf(),
                records_wf(records_of_stamps(old_wals, old_stamps@.take(fi as int))),
                new_wal.buffer@ == encode_records(
                    records_of_stamps(old_wals, old_stamps@.take(fi as int)),
                ),
                memtable.as_map() == apply_records(
                    Map::<Seq<u8>, RecordModel>::empty(),
                    records_of_stamps(old_wals, old_stamps@.take(fi as int)),
                ),
                memtable.data_size == replayed_size(
                    records_of_stamps(old_wals, old_stamps@.take(fi as int)),
                ),
            decreases old_stamps@.len() - fi,
        {
            let ghost r0 = records_of_stamps(old_wals, old_stamps@.take(fi as int));
            let stamp = old_stamps[fi];
            proof {
                assert(old_stamps@.contains(stamp)) by {
                    assert(old_stamps@[fi as int] == stamp);
                }
                assert(old_wals.contains_key(stamp));
                assert(stamp != new_stamp);
            }
            let bytes = match dir.contents(stamp, FileKind::Wal) {
                Some(v) => slice_to_vec(v.as_slice()),
                None => {
                    proof {
                        assert(false);
                    }
                    vstd::pervasive::unreached()
                },
            };
            let mut it = WriteAheadLogIterator::new(bytes);
            let ghost file_bytes = it.source@;
            let ghost mut done: Seq<RecordModel> = Seq::<RecordModel>::empty();
            proof {
                assert(file_bytes.skip(0) =~= file_bytes);
                assert(done + parse_records(it.remaining()) =~= parse_records(file_bytes));
                assert(encode_records(done) == Seq::<u8>::empty());
                assert(new_wal.buffer@ =~= encode_records(r0) + encode_records(done));
                assert(apply_records(memtable.as_map(), done) == memtable.as_map());
                assert(r0 + done =~= r0);
            }
            let mut going = true;
            while going
                invariant
                    dir.wf(),
                    old_wals == old(dir)@.wals,
                    dir@.wals == old_wals.insert(new_stamp, Seq::<u8>::empty()),
                    dir@.ssts == old(dir)@.ssts,
                    0 <= fi < old_stamps@.len(),
                    forall|i: int, j: int|
                        0 <= i < j < old_stamps@.len() ==> old_stamps@[i] < old_stamps@[j],
                    forall|st: u128| #[trigger]
                        old_stamps@.contains(st) <==> old_wals.contains_key(st),
                    file_bytes == old_wals[old_stamps@[fi as int]],
                    r0 == records_of_stamps(old_wals, old_stamps@.take(fi as int)),
                    it.wf(),
                    it.source@ == file_bytes,
                    memtable.wf(),
                    new_wal.stamp == new_stamp,
                    records_wf(done),
                    parse_records(file_bytes) == done + parse_records(it.remaining()),
                    !going ==> parse_records(it.remaining()) == Seq::<RecordModel>::empty(),
                    new_wal.buffer@ == encode_records(r0) + encode_records(done),
                    memtable.as_map() == apply_records(
                        apply_records(Map::<Seq<u8>, RecordModel>::empty(), r0),
                        done,
                    ),
                    memtable.data_size == replayed_size(r0 + done),
                decreases it.source@.len() - it.pos, if going {
                        1int
                    } else {
                        0int
                    },
            {
                let ghost rem = it.remaining();
                match it.next() {
                    Some(entry) => {
                        let ghost rec = entry@;
                        proof {
                            lemma_parse_record_consumed(rem);
                            assert(it.remaining() =~= rem.skip(
                                parse_record(rem)->Some_0.1,
                            ));
                            assert(parse_records(rem) == seq![rec] + parse_records(it.remaining()));
                            assert(done + (seq![rec] + parse_records(it.remaining())) =~= done.push(
                                rec,
                            ) + parse_records(it.remaining()));
                        }
                        let key_len = entry.key.len();
                        let value_len = match &entry.value {
                            Some(v) => v.len(),
                            None => 0,
                        };
                        let fits = match key_len.checked_add(value_len) {
                            Some(a) => match a.checked_add(PER_ENTRY_OVERHEAD) {
                                Some(b) => b.checked_add(memtable.size()).is_some(),
                                None => false,
                            },
                            None => false,
                        };
                        if !fits {
                            proof {
                                assert forall|st: u128|
                                    old(dir)@.wals.contains_key(st) implies dir@.wals.contains_key(
                                    st,
                                ) by {
                                    assert(dir@.wals.dom().contains(st));
                                }
                                reveal(replay_would_overflow);
                                reveal(replay_overflows);
                                let all = records_of_stamps(old_wals, old_stamps@);
                                lemma_records_split(old_wals, old_stamps@, fi as int);
                                let rest_stamps = old_stamps@.skip(fi as int);
                                assert(rest_stamps.len() > 0);
                                assert(rest_stamps.first() == old_stamps@[fi as int]);
                                assert(records_of_stamps(old_wals, rest_stamps) == parse_records(
                                    file_bytes,
                                ) + records_of_stamps(old_wals, rest_stamps.drop_first()));
                                let later = records_of_stamps(old_wals, rest_stamps.drop_first());
                                let after_rec = parse_records(it.remaining());
                                assert(all == r0 + ((done + (seq![rec] + after_rec)) + later));
                                let i = r0.len() + done.len();
                                assert(all.len() >= i + 1 + after_rec.len() + later.len());
                                assert(all.take(i as int) =~= r0 + done);
                                assert(all[i as int] == rec);
                                assert(record_growth(rec) == key_len + value_len
                                    + PER_ENTRY_OVERHEAD);
                                assert(replayed_size(all.take(i as int)) + record_growth(
                                    all[i as int],
                                ) > usize::MAX);
                                assert(replay_overflows(all));
                                assert(is_ascending_listing(old_wals, old_stamps@));
                                assert(replay_would_overflow(old_wals));
                            }
                            return Err(DBError::InvariantViolation);
                        }
                        proof {
                            lemma_encode_push(done, rec);
                            lemma_apply_push(
                                apply_records(Map::<Seq<u8>, RecordModel>::empty(), r0),
                                done,
                                rec,
                            );
                            lemma_apply_concat(Map::<Seq<u8>, RecordModel>::empty(), r0, done);
                            assert forall|i: int| 0 <= i < done.push(rec).len() implies record_wf(
                                #[trigger] done.push(rec)[i],
                            ) by {
                                if i < done.len() {
                                    assert(done.push(rec)[i] == done[i]);
                                }
                            }
                        }
                        let ghost pre_map = memtable.as_map();
                        let ghost pre_size = memtable.data_size as int;
                        match entry.value {
                            Some(v) => {
                                new_wal.put(entry.timestamp, entry.key.as_slice(), v.as_slice());
                                memtable.put(entry.timestamp, entry.key, v);
                            },
                            None => {
                                new_wal.delete(entry.timestamp, entry.key.as_slice());
                                memtable.delete(entry.timestamp, entry.key);
                            },
                        }
                        proof {
                            assert((r0 + done).push(rec).drop_last() =~= r0 + done);
                            assert((r0 + done).push(rec).last() == rec);
                            assert(pre_map == apply_records(
                                Map::<Seq<u8>, RecordModel>::empty(),
                                r0 + done,
                            ));
                            assert(pre_size == replayed_size(r0 + done));
                            assert(memtable.data_size == replayed_size((r0 + done).push(rec)));
                            assert(r0 + done.push(rec) =~= (r0 + done).push(rec));
                            done = done.push(rec);
                        }
                    },
                    None => {
                        going = false;
                    },
                }
            }
            fi += 1;
            proof {
                lemma_records_take_snoc(old_wals, old_stamps@, fi - 1);
                assert(parse_records(it.remaining()) == Seq::<RecordModel>::empty());
                assert(parse_records(file_bytes) =~= done);
                assert(file_bytes == old_wals[stamp]);
                assert(records_of_stamps(old_wals, old_stamps@.take(fi as int)) == r0 + done);
                lemma_encode_concat(r0, done);
                lemma_apply_concat(Map::<Seq<u8>, RecordModel>::empty(), r0, done);
                assert forall|i: int|
                    0 <= i < (r0 + done).len() implies record_wf(#[trigger] (r0 + done)[i]) by {
                    if i < r0.len() {
                        assert((r0 + done)[i] == r0[i]);
                    } else {
                        assert((r0 + done)[i] == done[i - r0.len()]);
                    }
                }
            }
        }
        let ghost all_records = records_of_stamps(old_wals, old_stamps@.take(
            old_stamps@.len() as int,
        ));
        proof {
            assert(old_stamps@.take(old_stamps@.len() as int) =~= old_stamps@);
        }
        match new_wal.flush(dir) {
            Ok(()) => {},
            Err(_) => {
                proof {
                    assert(false);
                }
                return vstd::pervasive::unreached();
            },
        }
        let ghost consolidated = Seq::<u8>::empty() + encode_records(all_records);
        proof {
            assert(consolidated =~= encode_records(all_records));
            lemma_records_round_trip(all_records);
            assert(dir@.wals == old_wals.insert(new_stamp, Seq::<u8>::empty()).insert(
                new_stamp,
                consolidated,
            ));
            assert(dir@.wals.contains_key(new_stamp));
            assert(dir@.wals[new_stamp] == consolidated);
            assert forall|st: u128| #[trigger] dir@.wals.contains_key(st) implies st == new_stamp
                || (old_wals.contains_key(st) && !old_stamps@.take(0).contains(st)) by {}
        }
        let mut fd: usize = 0;
        while fd < old_stamps.len()
            invariant
                dir.wf(),
                old_wals == old(dir)@.wals,
                0 <= fd <= old_stamps@.len(),
                forall|i: int, j: int|
                    0 <= i < j < old_stamps@.len() ==> old_stamps@[i] < old_stamps@[j],
                forall|st: u128| #[trigger] old_stamps@.contains(st) <==> old_wals.contains_key(st),
                forall|st: u128| old_wals.contains_key(st) ==> st < new_stamp,
                dir@.ssts == old(dir)@.ssts,
                dir@.wals.contains_key(new_stamp),
                dir@.wals[new_stamp] == consolidated,
                forall|st: u128| #[trigger]
                    dir@.wals.contains_key(st) <==> st == new_stamp || (old_wals.contains_key(st)
                        && !old_stamps@.take(fd as int).contains(st)),
            decreases old_stamps@.len() - fd,
        {
            let stamp = old_stamps[fd];
            proof {
                assert(old_stamps@.contains(stamp)) by {
                    assert(old_stamps@[fd as int] == stamp);
                }
                assert(stamp < new_stamp);
                assert(!old_stamps@.take(fd as int).contains(stamp)) by {
                    if old_stamps@.take(fd as int).contains(stamp) {
                        let j = choose|j: int|
                            0 <= j < fd as int && old_stamps@.take(fd as int)[j] == stamp;
                        assert(old_stamps@[j] < old_stamps@[fd as int]);
                    }
                }
                assert(dir@.wals.contains_key(stamp));
            }
            let ghost before = dir@.wals;
            match dir.remove(stamp, FileKind::Wal) {
                Ok(()) => {},
                Err(_) => {
                    proof {
                        assert(false);
                    }
                    return vstd::pervasive::unreached();
                },
            }
            fd += 1;
            proof {
                assert forall|st: u128| #[trigger]
                    dir@.wals.contains_key(st) <==> st == new_stamp || (old_wals.contains_key(st)
                        && !old_stamps@.take(fd as int).contains(st)) by {
                    assert(old_stamps@.take(fd as int).contains(st) <==> old_stamps@.take(
                        fd as int - 1,
                    ).contains(st) || st == stamp) by {
                        if old_stamps@.take(fd as int).contains(st) {
                            let j = choose|j: int|
                                0 <= j < fd as int && #[trigger] old_stamps@.take(fd as int)[j]
                                    == st;
                            if j < fd as int - 1 {
                                assert(old_stamps@.take(fd as int - 1)[j] == st);
                            }
                        }
                        if old_stamps@.take(fd as int - 1).contains(st) {
                            let j = choose|j: int|
                                0 <= j < fd as int - 1 && #[trigger] old_stamps@.take(
                                    fd as int - 1,
                                )[j] == st;
                            assert(old_stamps@.take(fd as int)[j] == st);
                        }
                        if st == stamp {
                            assert(old_stamps@.take(fd as int)[fd as int - 1] == st);
                        }
                    }
                }
            }
        }
        proof {
            assert(old_stamps@.take(old_stamps@.len() as int) =~= old_stamps@);
            assert(dir@.wals.dom() =~= set![new_stamp]) by {
                assert forall|st: u128| #[trigger] dir@.wals.dom().contains(st) implies st
                    == new_stamp by {
                    if st != new_stamp {
                        assert(old_wals.contains_key(st));
                        assert(old_stamps@.contains(st));
                    }
                }
                assert(dir@.wals.contains_key(new_stamp));
            }
            assert(is_ascending_listing(old_wals, old_stamps@));
            assert(parse_records(dir@.wals[new_stamp]) == records_of_stamps(
                old_wals,
                old_stamps@,
            ));
        }
        Ok((new_wal, memtable))
    }

    /// Encodes one live-value record into the log's buffer. Durability
    /// requires a later `flush`.
    pub fn put(&mut self, timestamp: u128, key: &[u8], value: &[u8])
        ensures
            final(self).stamp == old(self).stamp,
            final(self).buffer@ == old(self).buffer@ + spec_encode_record(
                (RecordModel { timestamp, key: key@, value: Some(value@) }),
            ),
    {
        CommonBinaryFormatRef::new(timestamp, key, Some(value)).write(&mut self.buffer);
    }

    /// Encodes one tombstone record into the log's buffer. Durability
    /// requires a later `flush`.
    pub fn delete(&mut self, timestamp: u128, key: &[u8])
        ensures
            final(self).stamp == old(self).stamp,
            final(self).buffer@ == old(self).buffer@ + spec_encode_record(
                (RecordModel { timestamp, key: key@, value: None }),
            ),
    {
        CommonBinaryFormatRef::new(timestamp, key, None).write(&mut self.buffer);
    }

    /// Appends the buffered records to the log's file and empties the buffer.
    pub fn flush(&mut self, dir: &mut Directory) -> (r: Result<(), DBError>)
        requires
            old(dir).wf(),
        ensures
            final(dir).wf(),
            final(self).stamp == old(self).stamp,
            final(dir)@.ssts == old(dir)@.ssts,
            match r {
                Ok(()) => {
                    &&& old(dir)@.wals.contains_key(old(self).stamp)
                    &&& final(dir)@.wals == old(dir)@.wals.insert(
                        old(self).stamp,
                        old(dir)@.wals[old(self).stamp] + old(self).buffer@,
                    )
                    &&& final(self).buffer@ == Seq::<u8>::empty()
                },
                Err(e) => {
                    &&& e == DBError::MissingFile
                    &&& !old(dir)@.wals.contains_key(old(self).stamp)
                    &&& final(dir)@.wals == old(dir)@.wals
                    &&& final(self).buffer@ == old(self).buffer@
                },
            },
    {
        match dir.append(self.stamp, FileKind::Wal, self.buffer.as_slice()) {
            Ok(()) => {
                self.buffer.clear();
                Ok(())
            },
            Err(e) => Err(e),
        }
    }

    /// Flushes this log and hands back an iterator over every record in its
    /// file.
    pub fn into_iter(self, dir: &mut Directory) -> (r: Result<WriteAheadLogIterator, DBError>)
        requires
            old(dir).wf(),
        ensures
            final(dir).wf(),
            final(dir)@.ssts == old(dir)@.ssts,
            match r {
                Ok(it) => {
                    &&& old(dir)@.wals.contains_key(self.stamp)
                    &&& final(dir)@.wals == old(dir)@.wals.insert(
                        self.stamp,
                        old(dir)@.wals[self.stamp] + self.buffer@,
                    )
                    &&& it.source@ == old(dir)@.wals[self.stamp] + self.buffer@
                    &&& it.pos == 0
                },
                Err(e) => {
                    &&& e == DBError::MissingFile
                    &&& !old(dir)@.wals.contains_key(self.stamp)
                    &&& final(dir)@.wals == old(dir)@.wals
                },
            },
    {
        let mut wal = self;
        match wal.flush(dir) {
            Ok(()) => {
                match dir.contents(wal.stamp, FileKind::Wal) {
                    Some(bytes) => Ok(WriteAheadLogIterator::new(slice_to_vec(bytes.as_slice()))),
                    None => {
                        proof {
                            assert(false);
                        }
                        vstd::pervasive::unreached()
                    },
                }
            },
            Err(e) => Err(e),
        }
    }
}

/// Decodes the records of one write-ahead log file front to back. It stops
/// at a clean end of stream and also, silently, at a corrupt tail; the two
/// can be told apart by whether `pos` reached the end of `source`.
pub struct WriteAheadLogIterator {
    /// The file's bytes.
    pub source: Vec<u8>,
    /// How many bytes have been decoded so far.
    pub pos: usize,
}

impl WriteAheadLogIterator {
    /// The undecoded tail of the source.
    pub open spec fn remaining(self) -> Seq<u8> {
        self.source@.skip(self.pos as int)
    }

    /// The position never runs past the source.
    pub open spec fn wf(self) -> bool {
        self.pos <= self.source@.len()
    }

    pub fn new(source: Vec<u8>) -> (r: Self)
        ensures
            r.wf(),
            r.source@ == source@,
            r.pos == 0,
    {
        WriteAheadLogIterator { source, pos: 0 }
    }

    /// Decodes the next record, if a whole one remains.
    pub fn next(&mut self) -> (r: Option<WriteAheadLogEntry>)
        requires
            old(self).wf(),
        ensures
            final(self).wf(),
            final(self).source@ == old(self).source@,
            match r {
                Some(e) => {
                    &&& parse_record(old(self).remaining()) matches Some((m, n)) && e@ == m
                        && final(self).pos == old(self).pos + n
                },
                None => parse_record(old(self).remaining()) is None && final(self).pos == old(
                    self,
                ).pos,
            },
    {
        match CommonBinaryFormat::read(self.source.as_slice(), self.pos) {
            Ok(Some((record, next))) => {
                self.pos = next;
                Some(
                    WriteAheadLogEntry {
                        key: record.key,
                        value: record.value,
                        timestamp: record.timestamp,
                    },
                )
            },
            Ok(None) => {
                proof {
                    assert(old(self).remaining().len() == 0);
                }
                None
            },
            Err(_) => None,
        }
    }
}

} // verus!
