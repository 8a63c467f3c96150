use vstd::prelude::*;
use vstd::bytes::*;
use vstd::slice::{slice_subrange, slice_to_vec};

use crate::error::DBError;

verus! {

/// Mathematical model of an SSTable's metadata header.
pub struct SstMetadataModel {
    pub level: usize,
    pub lookup_table_offset: usize,
    pub values_table_offset: usize,
    pub low_key: Seq<u8>,
    pub high_key: Seq<u8>,
}

/// The metadata can be laid out on the wire only when its keys fit the
/// 8-byte little-endian length fields.
pub open spec fn meta_wf(m: SstMetadataModel) -> bool {
    &&& m.low_key.len() <= u64::MAX
    &&& m.high_key.len() <= u64::MAX
}

/// The wire layout of the metadata header: level, lookup table offset and
/// values table offset (8 bytes LE each), then the length-prefixed low and
/// high keys.
pub open spec fn spec_encode_meta(m: SstMetadataModel) -> Seq<u8> {
    spec_u64_to_le_bytes(m.level as u64) + spec_u64_to_le_bytes(m.lookup_table_offset as u64)
        + spec_u64_to_le_bytes(m.values_table_offset as u64) + spec_u64_to_le_bytes(
        m.low_key.len() as u64,
    ) + m.low_key + spec_u64_to_le_bytes(m.high_key.len() as u64) + m.high_key
}

/// Reads a metadata header off the front of `b`, with the number of bytes it
/// occupies. `None` when `b` holds only part of a header, or a fixed field
/// does not fit the machine's word.
pub open spec fn parse_meta(b: Seq<u8>) -> Option<(SstMetadataModel, int)> {
    if b.len() < 32 {
        None
    } else {
        let level = spec_u64_from_le_bytes(b.subrange(0, 8));
        let lto = spec_u64_from_le_bytes(b.subrange(8, 16));
        let vto = spec_u64_from_le_bytes(b.subrange(16, 24));
        let low_len = spec_u64_from_le_bytes(b.subrange(24, 32)) as int;
        if level > usize::MAX || lto > usize::MAX || vto > usize::MAX {
            None
        } else if b.len() < 40 + low_len {
            None
        } else {
            let high_len = spec_u64_from_le_bytes(b.subrange(32 + low_len, 40 + low_len)) as int;
            if b.len() < 40 + low_len + high_len {
                None
            } else {
                Some(
                    (
                        SstMetadataModel {
                            level: level as usize,
                            lookup_table_offset: lto as usize,
                            values_table_offset: vto as usize,
                            low_key: b.subrange(32, 32 + low_len),
                            high_key: b.subrange(40 + low_len, 40 + low_len + high_len),
                        },
                        40 + low_len + high_len,
                    ),
                )
            }
        }
    }
}

/// Round trip: a well-formed encoded metadata header, followed by anything,
/// parses back to exactly that header.
pub proof fn lemma_meta_round_trip(m: SstMetadataModel, rest: Seq<u8>)
    requires
        meta_wf(m),
    ensures
        parse_meta(spec_encode_meta(m) + rest) == Some((m, spec_encode_meta(m).len() as int)),
{
    lemma_auto_spec_u64_to_from_le_bytes();
    let e = spec_encode_meta(m);
    let b = e + rest;
    let lv = spec_u64_to_le_bytes(m.level as u64);
    let lt = spec_u64_to_le_bytes(m.lookup_table_offset as u64);
    let vt = spec_u64_to_le_bytes(m.values_table_offset as u64);
    let ll = spec_u64_to_le_bytes(m.low_key.len() as u64);
    let hl = spec_u64_to_le_bytes(m.high_key.len() as u64);
    let low_len = m.low_key.len() as int;
    let high_len = m.high_key.len() as int;
    assert(e == lv + lt + vt + ll + m.low_key + hl + m.high_key);
    assert(e.len() == 40 + low_len + high_len);
    assert(b.subrange(0, 8) =~= lv);
    assert(b.subrange(8, 16) =~= lt);
    assert(b.subrange(16, 24) =~= vt);
    assert(b.subrange(24, 32) =~= ll);
    assert(b.subrange(32, 32 + low_len) =~= m.low_key);
    assert(b.subrange(32 + low_len, 40 + low_len) =~= hl);
    assert(b.subrange(40 + low_len, 40 + low_len + high_len) =~= m.high_key);
}

/// The metadata header of an SSTable file: where its sections sit and the
/// range of keys it covers.
#[derive(Debug, Clone, PartialEq, Eq)]
pub struct SstMetadata {
    /// Level in the on-disk hierarchy; level 0 is a direct memtable flush.
    level: usize,
    /// Offset in bytes from the file start to the lookup table.
    lookup_table_offset: usize,
    /// Offset in bytes from the file start to the values table.
    values_table_offset: usize,
    /// Lowest key in the table.
    low_key: Vec<u8>,
    /// Highest key in the table.
    high_key: Vec<u8>,
}

impl View for SstMetadata {
    type V = SstMetadataModel;

    closed spec fn view(&self) -> SstMetadataModel {
        SstMetadataModel {
            level: self.level,
            lookup_table_offset: self.lookup_table_offset,
            values_table_offset: self.values_table_offset,
            low_key: self.low_key@,
            high_key: self.high_key@,
        }
    }
}

impl SstMetadata {
    pub fn new(
        level: usize,
        lookup_table_offset: usize,
        values_table_offset: usize,
        low_key: Vec<u8>,
        high_key: Vec<u8>,
    ) -> (r: Self)
        ensures
            r@ == (SstMetadataModel {
                level,
                lookup_table_offset,
                values_table_offset,
                low_key: low_key@,
                high_key: high_key@,
            }),
    {
        Self { level, lookup_table_offset, values_table_offset, low_key, high_key }
    }

    pub fn level(&self) -> (r: usize)
        ensures
            r == self@.level,
    {
        self.level
    }

    pub fn lookup_table_offset(&self) -> (r: usize)
        ensures
            r == self@.lookup_table_offset,
    {
        self.lookup_table_offset
    }

    pub fn values_table_offset(&self) -> (r: usize)
        ensures
            r == self@.values_table_offset,
    {
        self.values_table_offset
    }

    pub fn low_key(&self) -> (r: &Vec<u8>)
        ensures
            r@ == self@.low_key,
    {
        &self.low_key
    }

    pub fn high_key(&self) -> (r: &Vec<u8>)
        ensures
            r@ == self@.high_key,
    {
        &self.high_key
    }

    /// Appends the wire encoding of this header to `out`.
    pub fn write(&self, out: &mut Vec<u8>)
        ensures
            final(out)@ == old(out)@ + spec_encode_meta(self@),
    {
        let mut b = u64_to_le_bytes(self.level as u64);
        out.append(&mut b);
        let mut b = u64_to_le_bytes(self.lookup_table_offset as u64);
        out.append(&mut b);
        let mut b = u64_to_le_bytes(self.values_table_offset as u64);
        out.append(&mut b);
        let mut b = u64_to_le_bytes(self.low_key.len() as u64);
        out.append(&mut b);
        out.extend_from_slice(self.low_key.as_slice());
        let mut b = u64_to_le_bytes(self.high_key.len() as u64);
        out.append(&mut b);
        out.extend_from_slice(self.high_key.as_slice());
        proof {
            assert(final(out)@ =~= old(out)@ + spec_encode_meta(self@));
        }
    }

    /// Decodes one metadata header from `data` starting at `from`, returning
    /// it with the offset just past it. A cut-off header, or one whose fixed
    /// fields do not fit the machine's word, is corruption.
    pub fn read(data: &[u8], from: usize) -> (r: Result<(Self, usize), DBError>)
        requires
            from <= data@.len(),
        ensures
            match r {
                Ok((m, next)) => {
                    &&& parse_meta(data@.skip(from as int)) matches Some((mm, n))
                        && m@ == mm && next == from + n
                },
                Err(e) => {
                    &&& e == DBError::MalformedSSTable
                    &&& parse_meta(data@.skip(from as int)) is None
                },
            },
    {
        let ghost rest = data@.skip(from as int);
        let len = data.len();
        let remaining = len - from;
        if remaining < 32 {
            return Err(DBError::MalformedSSTable);
        }
        let level64 = u64_from_le_bytes(slice_subrange(data, from, from + 8));
        assert(data@.subrange(from as int, from as int + 8) =~= rest.subrange(0, 8));
        let lto64 = u64_from_le_bytes(slice_subrange(data, from + 8, from + 16));
        assert(data@.subrange(from as int + 8, from as int + 16) =~= rest.subrange(8, 16));
        let vto64 = u64_from_le_bytes(slice_subrange(data, from + 16, from + 24));
        assert(data@.subrange(from as int + 16, from as int + 24) =~= rest.subrange(16, 24));
        let low_len64 = u64_from_le_bytes(slice_subrange(data, from + 24, from + 32));
        assert(data@.subrange(from as int + 24, from as int + 32) =~= rest.subrange(24, 32));
        if level64 > usize::MAX as u64 || lto64 > usize::MAX as u64 || vto64 > usize::MAX as u64 {
            return Err(DBError::MalformedSSTable);
        }
        if remaining < 40 {
            return Err(DBError::MalformedSSTable);
        }
        if low_len64 > (remaining - 40) as u64 {
            return Err(DBError::MalformedSSTable);
        }
        let low_len = low_len64 as usize;
        let low_key = slice_to_vec(slice_subrange(data, from + 32, from + 32 + low_len));
        assert(data@.subrange(from as int + 32, from as int + 32 + low_len as int) =~= rest.subrange(
            32,
            32 + low_len as int,
        ));
        let high_len64 = u64_from_le_bytes(
            slice_subrange(data, from + 32 + low_len, from + 40 + low_len),
        );
        assert(data@.subrange(from as int + 32 + low_len as int, from as int + 40 + low_len as int)
            =~= rest.subrange(32 + low_len as int, 40 + low_len as int));
        if high_len64 > (remaining - 40 - low_len) as u64 {
            return Err(DBError::MalformedSSTable);
        }
        let high_len = high_len64 as usize;
        let high_key = slice_to_vec(
            slice_subrange(data, from + 40 + low_len, from + 40 + low_len + high_len),
        );
        assert(data@.subrange(
            from as int + 40 + low_len as int,
            from as int + 40 + low_len as int + high_len as int,
        ) =~= rest.subrange(40 + low_len as int, 40 + low_len as int + high_len as int));
        Ok(
            (
                Self {
                    level: level64 as usize,
                    lookup_table_offset: lto64 as usize,
                    values_table_offset: vto64 as usize,
                    low_key,
                    high_key,
                },
                from + 40 + low_len + high_len,
            ),
        )
    }
}

/// Placeholder for the sorted key-to-offset index of an SSTable, read and
/// written by compaction and point lookups, which sit outside this engine.
pub struct SstLookupTable {
    /// Sorted pairs of key and value offset.
    pub entries: Vec<(Vec<u8>, usize)>,
}

/// Placeholder for the values section of an SSTable.
pub struct SstValuesTable {
    pub entries: Vec<Vec<u8>>,
}

} // verus!
