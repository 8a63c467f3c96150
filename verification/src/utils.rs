use vstd::prelude::*;
use vstd::bytes::*;
use vstd::slice::{slice_index_get, slice_subrange, slice_to_vec};

use crate::error::DBError;

verus! {

/// Mathematical model of one mutation record: a timestamp, a key, and either
/// a live value or a tombstone (`None`).
pub struct RecordModel {
    pub timestamp: u128,
    pub key: Seq<u8>,
    pub value: Option<Seq<u8>>,
}

/// The view of an optional value: `None` stays a tombstone.
pub open spec fn view_opt<T: View>(v: Option<T>) -> Option<T::V> {
    match v {
        Some(x) => Some(x@),
        None => None,
    }
}

/// A record can be laid out on the wire only when its key and value fit the
/// 8-byte little-endian length fields.
pub open spec fn record_wf(r: RecordModel) -> bool {
    &&& r.key.len() <= u64::MAX
    &&& match r.value {
        Some(v) => v.len() <= u64::MAX,
        None => true,
    }
}

/// The wire layout of one record:
/// timestamp (16 bytes LE) | tombstone (1 byte; 0 = value follows, 1 = delete)
/// | key length (8 bytes LE) | value length (8 bytes LE, present only for a
/// live value) | key bytes | value bytes (present only for a live value).
pub open spec fn spec_encode_record(r: RecordModel) -> Seq<u8> {
    match r.value {
        Some(v) => spec_u128_to_le_bytes(r.timestamp) + seq![0u8]
            + spec_u64_to_le_bytes(r.key.len() as u64) + spec_u64_to_le_bytes(v.len() as u64)
            + r.key + v,
        None => spec_u128_to_le_bytes(r.timestamp) + seq![1u8]
            + spec_u64_to_le_bytes(r.key.len() as u64) + r.key,
    }
}

/// Reads one record off the front of `b`. Returns the record together with
/// the number of bytes it occupies, or `None` when `b` is empty or holds only
/// part of a record. Any non-zero tombstone byte marks a delete.
pub open spec fn parse_record(b: Seq<u8>) -> Option<(RecordModel, int)> {
    if b.len() < 25 {
        None
    } else {
        let timestamp = spec_u128_from_le_bytes(b.subrange(0, 16));
        let key_len = spec_u64_from_le_bytes(b.subrange(17, 25)) as int;
        if b[16] != 0 {
            if b.len() < 25 + key_len {
                None
            } else {
                Some(
                    (
                        RecordModel {
                            timestamp,
                            key: b.subrange(25, 25 + key_len),
                            value: None,
                        },
                        25 + key_len,
                    ),
                )
            }
        } else {
            if b.len() < 33 {
                None
            } else {
                let value_len = spec_u64_from_le_bytes(b.subrange(25, 33)) as int;
                if b.len() < 33 + key_len + value_len {
                    None
                } else {
                    Some(
                        (
                            RecordModel {
                                timestamp,
                                key: b.subrange(33, 33 + key_len),
                                value: Some(
                                    b.subrange(33 + key_len, 33 + key_len + value_len),
                                ),
                            },
                            33 + key_len + value_len,
                        ),
                    )
                }
            }
        }
    }
}

/// A parsed record occupies at least its fixed header and never more than the
/// whole input.
pub proof fn lemma_parse_record_consumed(b: Seq<u8>)
    ensures
        match parse_record(b) {
            Some((r, n)) => 25 <= n <= b.len() && record_wf(r),
            None => true,
        },
{
    if b.len() >= 25 {
        proof_u64_bounds();
    }
}

/// The length fields decoded from 8 bytes always fit in u64.
proof fn proof_u64_bounds()
    ensures
        forall|s: Seq<u8>| 0 <= #[trigger] (spec_u64_from_le_bytes(s) as int) <= u64::MAX,
{
}

/// Round trip: a well-formed encoded record, followed by anything, parses
/// back to exactly that record, consuming exactly the encoding.
pub proof fn lemma_record_round_trip(r: RecordModel, rest: Seq<u8>)
    requires
        record_wf(r),
    ensures
        parse_record(spec_encode_record(r) + rest) == Some(
            (r, spec_encode_record(r).len() as int),
        ),
{
    lemma_auto_spec_u64_to_from_le_bytes();
    lemma_auto_spec_u128_to_from_le_bytes();
    let e = spec_encode_record(r);
    let b = e + rest;
    let ts = spec_u128_to_le_bytes(r.timestamp);
    let kl = spec_u64_to_le_bytes(r.key.len() as u64);
    match r.value {
        Some(v) => {
            let vl = spec_u64_to_le_bytes(v.len() as u64);
            let klen = r.key.len() as int;
            let vlen = v.len() as int;
            assert(e == ts + seq![0u8] + kl + vl + r.key + v);
            assert(e.len() == 33 + klen + vlen);
            assert(b.subrange(0, 16) =~= ts);
            assert(b[16] == 0);
            assert(b.subrange(17, 25) =~= kl);
            assert(b.subrange(25, 33) =~= vl);
            assert(b.subrange(33, 33 + klen) =~= r.key);
            assert(b.subrange(33 + klen, 33 + klen + vlen) =~= v);
        },
        None => {
            let klen = r.key.len() as int;
            assert(e == ts + seq![1u8] + kl + r.key);
            assert(e.len() == 25 + klen);
            assert(b.subrange(0, 16) =~= ts);
            assert(b[16] == 1);
            assert(b.subrange(17, 25) =~= kl);
            assert(b.subrange(25, 25 + klen) =~= r.key);
        },
    }
}

/// A strict prefix of one encoded record never parses: cutting a record off
/// mid-stream is detected as corruption, not mistaken for a shorter record.
pub proof fn lemma_truncated_record_rejected(r: RecordModel, k: int)
    requires
        record_wf(r),
        0 <= k < spec_encode_record(r).len(),
    ensures
        parse_record(spec_encode_record(r).take(k)) == None::<(RecordModel, int)>,
{
    lemma_auto_spec_u64_to_from_le_bytes();
    lemma_auto_spec_u128_to_from_le_bytes();
    let e = spec_encode_record(r);
    let t = e.take(k);
    let ts = spec_u128_to_le_bytes(r.timestamp);
    let kl = spec_u64_to_le_bytes(r.key.len() as u64);
    if k >= 25 {
        assert(t.subrange(17, 25) =~= kl);
        match r.value {
            Some(v) => {
                let vl = spec_u64_to_le_bytes(v.len() as u64);
                let klen = r.key.len() as int;
                let vlen = v.len() as int;
                assert(e == ts + seq![0u8] + kl + vl + r.key + v);
                assert(t[16] == 0);
                if k >= 33 {
                    assert(t.subrange(25, 33) =~= vl);
                    assert(t.len() < 33 + klen + vlen);
                }
            },
            None => {
                let klen = r.key.len() as int;
                assert(e == ts + seq![1u8] + kl + r.key);
                assert(t[16] == 1);
                assert(t.len() < 25 + klen);
            },
        }
    }
}

/// Owned form of one record, shared by the WAL and the SSTable data section.
#[derive(Debug, Clone, PartialEq, Eq)]
pub struct CommonBinaryFormat {
    pub timestamp: u128,
    pub key: Vec<u8>,
    /// `None` if the record is a tombstone (delete).
    pub value: Option<Vec<u8>>,
}

/// Borrowed form of one record, used for encoding without copying.
pub struct CommonBinaryFormatRef<'a> {
    pub timestamp: u128,
    pub key: &'a [u8],
    /// `None` if the record is a tombstone (delete).
    pub value: Option<&'a [u8]>,
}

impl View for CommonBinaryFormat {
    type V = RecordModel;

    open spec fn view(&self) -> RecordModel {
        RecordModel { timestamp: self.timestamp, key: self.key@, value: view_opt(self.value) }
    }
}

impl<'a> View for CommonBinaryFormatRef<'a> {
    type V = RecordModel;

    open spec fn view(&self) -> RecordModel {
        RecordModel { timestamp: self.timestamp, key: self.key@, value: view_opt(self.value) }
    }
}

impl CommonBinaryFormat {
    pub fn new(timestamp: u128, key: Vec<u8>, value: Option<Vec<u8>>) -> (r: Self)
        ensures
            r@ == (RecordModel { timestamp, key: key@, value: view_opt(value) }),
    {
        Self { timestamp, key, value }
    }

    pub fn as_cbf_ref(&self) -> (r: CommonBinaryFormatRef<'_>)
        ensures
            r@ == self@,
    {
        CommonBinaryFormatRef {
            timestamp: self.timestamp,
            key: self.key.as_slice(),
            value: match &self.value {
                Some(v) => Some(v.as_slice()),
                None => None,
            },
        }
    }

    /// Decodes one record from `data` starting at `from`.
    ///
    /// Returns `Ok(None)` when `from` sits cleanly at the end of the stream,
    /// `Ok(Some((record, next)))` when a whole record starts there, and
    /// `Err(DBError::MalformedWal)` when only part of a record remains.
    pub fn read(data: &[u8], from: usize) -> (r: Result<Option<(Self, usize)>, DBError>)
        requires
            from <= data@.len(),
        ensures
            match r {
                Ok(None) => from == data@.len(),
                Ok(Some((c, next))) => {
                    &&& parse_record(data@.skip(from as int)) matches Some((m, n))
                        && c@ == m && next == from + n
                },
                Err(e) => {
                    &&& e == DBError::MalformedWal
                    &&& from < data@.len()
                    &&& parse_record(data@.skip(from as int)) is None
                },
            },
            r is Ok && from < data@.len() <==> parse_record(data@.skip(from as int)) is Some,
    {
        let ghost rest = data@.skip(from as int);
        let len = data.len();
        let remaining = len - from;
        if remaining == 0 {
            return Ok(None);
        }
        if remaining < 25 {
            return Err(DBError::MalformedWal);
        }
        let timestamp = u128_from_le_bytes(slice_subrange(data, from, from + 16));
        assert(data@.subrange(from as int, from as int + 16) =~= rest.subrange(0, 16));
        let tombstone = *slice_index_get(data, from + 16);
        let key_len64 = u64_from_le_bytes(slice_subrange(data, from + 17, from + 25));
        assert(data@.subrange(from as int + 17, from as int + 25) =~= rest.subrange(17, 25));
        if tombstone != 0 {
            if key_len64 > (remaining - 25) as u64 {
                return Err(DBError::MalformedWal);
            }
            let key_len = key_len64 as usize;
            let key = slice_to_vec(slice_subrange(data, from + 25, from + 25 + key_len));
            assert(data@.subrange(from as int + 25, from as int + 25 + key_len as int)
                =~= rest.subrange(25, 25 + key_len as int));
            Ok(Some((Self { timestamp, key, value: None }, from + 25 + key_len)))
        } else {
            if remaining < 33 {
                return Err(DBError::MalformedWal);
            }
            let value_len64 = u64_from_le_bytes(slice_subrange(data, from + 25, from + 33));
            assert(data@.subrange(from as int + 25, from as int + 33) =~= rest.subrange(25, 33));
            if key_len64 > (remaining - 33) as u64 {
                return Err(DBError::MalformedWal);
            }
            let key_len = key_len64 as usize;
            if value_len64 > (remaining - 33 - key_len) as u64 {
                return Err(DBError::MalformedWal);
            }
            let value_len = value_len64 as usize;
            let key = slice_to_vec(slice_subrange(data, from + 33, from + 33 + key_len));
            assert(data@.subrange(from as int + 33, from as int + 33 + key_len as int)
                =~= rest.subrange(33, 33 + key_len as int));
            let value = slice_to_vec(
                slice_subrange(data, from + 33 + key_len, from + 33 + key_len + value_len),
            );
            assert(data@.subrange(
                from as int + 33 + key_len as int,
                from as int + 33 + key_len as int + value_len as int,
            ) =~= rest.subrange(33 + key_len as int, 33 + key_len as int + value_len as int));
            Ok(
                Some(
                    (
                        Self { timestamp, key, value: Some(value) },
                        from + 33 + key_len + value_len,
                    ),
                ),
            )
        }
    }
}

impl<'a> CommonBinaryFormatRef<'a> {
    pub fn new(timestamp: u128, key: &'a [u8], value: Option<&'a [u8]>) -> (r: Self)
        ensures
            r@ == (RecordModel { timestamp, key: key@, value: view_opt(value) }),
    {
        Self { timestamp, key, value }
    }

    /// Appends the wire encoding of this record to `out`.
    pub fn write(self, out: &mut Vec<u8>)
        ensures
            final(out)@ == old(out)@ + spec_encode_record(self@),
    {
        let mut ts_bytes = u128_to_le_bytes(self.timestamp);
        out.append(&mut ts_bytes);
        match self.value {
            Some(v) => {
                out.push(0u8);
                let mut kl_bytes = u64_to_le_bytes(self.key.len() as u64);
                out.append(&mut kl_bytes);
                let mut vl_bytes = u64_to_le_bytes(v.len() as u64);
                out.append(&mut vl_bytes);
                out.extend_from_slice(self.key);
                out.extend_from_slice(v);
                assert(final(out)@ =~= old(out)@ + spec_encode_record(self@));
            },
            None => {
                out.push(1u8);
                let mut kl_bytes = u64_to_le_bytes(self.key.len() as u64);
                out.append(&mut kl_bytes);
                out.extend_from_slice(self.key);
                assert(final(out)@ =~= old(out)@ + spec_encode_record(self@));
            },
        }
    }
}

/// Relies on std::time::SystemTime::now: microseconds since the Unix epoch.
/// Nothing is promised of the result; it depends on the wall clock. Callers
/// that need monotonic timestamps must enforce that themselves.
#[verifier::external_body]
pub fn timestamp_now() -> u128 {
    std::time::SystemTime::now()
        .duration_since(std::time::SystemTime::UNIX_EPOCH)
        .map(|d| d.as_micros())
        .unwrap_or(0)
}

} // verus!
