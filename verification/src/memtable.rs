use vstd::prelude::*;
use vstd::slice::slice_index_get;

use crate::utils::{view_opt, RecordModel};

verus! {

/// Estimated bytes of per-entry bookkeeping, counted into `data_size` on top
/// of the key and value bytes themselves.
pub const PER_ENTRY_OVERHEAD: usize = 64;

/// Byte-wise lexicographic strict order on keys.
pub open spec fn lex_lt(a: Seq<u8>, b: Seq<u8>) -> bool
    decreases a.len(),
{
    if b.len() == 0 {
        false
    } else if a.len() == 0 {
        true
    } else if a[0] < b[0] {
        true
    } else if a[0] > b[0] {
        false
    } else {
        lex_lt(a.skip(1), b.skip(1))
    }
}

/// Of `lex_lt(a, b)`, `a == b` and `lex_lt(b, a)`, exactly one holds.
pub proof fn lemma_lex_lt_trichotomy(a: Seq<u8>, b: Seq<u8>)
    ensures
        a == b || lex_lt(a, b) || lex_lt(b, a),
        lex_lt(a, b) ==> a != b && !lex_lt(b, a),
    decreases a.len(),
{
    if a.len() == 0 && b.len() == 0 {
        assert(a =~= b);
    } else if a.len() > 0 && b.len() > 0 && a[0] == b[0] {
        lemma_lex_lt_trichotomy(a.skip(1), b.skip(1));
        if a.skip(1) == b.skip(1) {
            assert forall|i: int| 0 <= i < a.len() implies a[i] == b[i] by {
                if i > 0 {
                    assert(a.skip(1)[i - 1] == a[i]);
                    assert(b.skip(1)[i - 1] == b[i]);
                }
            }
            assert(a =~= b);
        }
        if a == b {
            assert(a.skip(1) =~= b.skip(1));
        }
    }
}

/// The lexicographic order is transitive.
pub proof fn lemma_lex_lt_trans(a: Seq<u8>, b: Seq<u8>, c: Seq<u8>)
    requires
        lex_lt(a, b),
        lex_lt(b, c),
    ensures
        lex_lt(a, c),
    decreases a.len(),
{
    if a.len() > 0 && b.len() > 0 && c.len() > 0 {
        if a[0] == b[0] && b[0] == c[0] {
            lemma_lex_lt_trans(a.skip(1), b.skip(1), c.skip(1));
        }
    }
}

/// Dropping an equal prefix of both keys does not change their order.
pub proof fn lemma_lex_lt_common_prefix(a: Seq<u8>, b: Seq<u8>, i: int)
    requires
        0 <= i <= a.len(),
        i <= b.len(),
        forall|j: int| 0 <= j < i ==> a[j] == b[j],
    ensures
        lex_lt(a, b) == lex_lt(a.skip(i), b.skip(i)),
    decreases i,
{
    if i > 0 {
        assert(a[0] == b[0]);
        assert forall|j: int| 0 <= j < i - 1 implies a.skip(1)[j] == b.skip(1)[j] by {
            assert(a.skip(1)[j] == a[j + 1]);
            assert(b.skip(1)[j] == b[j + 1]);
        }
        lemma_lex_lt_common_prefix(a.skip(1), b.skip(1), i - 1);
        assert(a.skip(1).skip(i - 1) =~= a.skip(i));
        assert(b.skip(1).skip(i - 1) =~= b.skip(i));
        assert(lex_lt(a, b) == lex_lt(a.skip(1), b.skip(1)));
    } else {
        assert(a.skip(0) =~= a);
        assert(b.skip(0) =~= b);
    }
}

/// Outcome of comparing two keys.
#[derive(Clone, Copy, Debug, PartialEq, Eq, Structural)]
pub(crate) enum KeyOrder {
    Less,
    Equal,
    Greater,
}

/// Compares two keys in byte-wise lexicographic order.
pub(crate) fn compare_keys(a: &[u8], b: &[u8]) -> (o: KeyOrder)
    ensures
        o == KeyOrder::Less <==> lex_lt(a@, b@),
        o == KeyOrder::Greater <==> lex_lt(b@, a@),
        o == KeyOrder::Equal <==> a@ == b@,
{
    let a_len = a.len();
    let b_len = b.len();
    let n = if a_len < b_len {
        a_len
    } else {
        b_len
    };
    let mut i: usize = 0;
    while i < n
        invariant
            0 <= i <= n,
            n <= a@.len(),
            n <= b@.len(),
            n == if a@.len() < b@.len() {
                a@.len()
            } else {
                b@.len()
            },
            forall|j: int| 0 <= j < i ==> a@[j] == b@[j],
        decreases n - i,
    {
        let x = *slice_index_get(a, i);
        let y = *slice_index_get(b, i);
        if x < y {
            proof {
                lemma_lex_lt_common_prefix(a@, b@, i as int);
                lemma_lex_lt_common_prefix(b@, a@, i as int);
                assert(a@.skip(i as int)[0] == a@[i as int]);
                assert(b@.skip(i as int)[0] == b@[i as int]);
                assert(a@ != b@) by {
                    assert(a@[i as int] != b@[i as int]);
                }
            }
            return KeyOrder::Less;
        }
        if y < x {
            proof {
                lemma_lex_lt_common_prefix(a@, b@, i as int);
                lemma_lex_lt_common_prefix(b@, a@, i as int);
                assert(a@.skip(i as int)[0] == a@[i as int]);
                assert(b@.skip(i as int)[0] == b@[i as int]);
                assert(a@ != b@) by {
                    assert(a@[i as int] != b@[i as int]);
                }
            }
            return KeyOrder::Greater;
        }
        i += 1;
    }
    proof {
        lemma_lex_lt_common_prefix(a@, b@, n as int);
        lemma_lex_lt_common_prefix(b@, a@, n as int);
    }
    if a_len < b_len {
        proof {
            assert(a@.skip(n as int).len() == 0);
            assert(b@.skip(n as int).len() > 0);
            assert(a@ != b@);
        }
        KeyOrder::Less
    } else if b_len < a_len {
        proof {
            assert(b@.skip(n as int).len() == 0);
            assert(a@.skip(n as int).len() > 0);
            assert(a@ != b@);
        }
        KeyOrder::Greater
    } else {
        proof {
            assert(a@ =~= b@);
            lemma_lex_lt_trichotomy(a@, b@);
        }
        KeyOrder::Equal
    }
}

/// One memtable entry: the latest mutation seen for its key.
#[derive(Debug, Clone, PartialEq, Eq)]
pub struct MemTableEntry {
    pub key: Vec<u8>,
    /// `None` if the latest mutation was a delete.
    pub value: Option<Vec<u8>>,
    pub timestamp: u128,
}

impl View for MemTableEntry {
    type V = RecordModel;

    open spec fn view(&self) -> RecordModel {
        RecordModel { timestamp: self.timestamp, key: self.key@, value: view_opt(self.value) }
    }
}

/// The number of bytes an entry is accounted with in `data_size`.
pub open spec fn entry_size(r: RecordModel) -> int {
    r.key.len() + match r.value {
        Some(v) => v.len() as int,
        None => 0,
    } + PER_ENTRY_OVERHEAD
}

/// Total accounted size of a sequence of entries.
pub open spec fn size_of(s: Seq<RecordModel>) -> int
    decreases s.len(),
{
    if s.len() == 0 {
        0
    } else {
        size_of(s.drop_last()) + entry_size(s.last())
    }
}

/// Entries are strictly sorted ascending by key (so keys are unique).
pub open spec fn sorted_strict(s: Seq<RecordModel>) -> bool {
    forall|i: int, j: int| 0 <= i < j < s.len() ==> lex_lt(s[i].key, s[j].key)
}

/// No two entries share a key.
pub open spec fn keys_unique(s: Seq<RecordModel>) -> bool {
    forall|i: int, j: int| 0 <= i < j < s.len() ==> s[i].key != s[j].key
}

/// Some entry of `s` has key `k`.
pub open spec fn keys_contain(s: Seq<RecordModel>, k: Seq<u8>) -> bool {
    exists|i: int| 0 <= i < s.len() && s[i].key == k
}

/// The index of the entry with key `k` (meaningful only when unique).
pub open spec fn index_of_key(s: Seq<RecordModel>, k: Seq<u8>) -> int {
    choose|i: int| 0 <= i < s.len() && s[i].key == k
}

/// The entries as a map from key to entry.
pub open spec fn as_map_of(s: Seq<RecordModel>) -> Map<Seq<u8>, RecordModel> {
    Map::new(|k: Seq<u8>| keys_contain(s, k), |k: Seq<u8>| s[index_of_key(s, k)])
}

/// Strictly sorted entries have unique keys.
pub proof fn lemma_sorted_unique(s: Seq<RecordModel>)
    requires
        sorted_strict(s),
    ensures
        keys_unique(s),
{
    assert forall|i: int, j: int| 0 <= i < j < s.len() implies s[i].key != s[j].key by {
        lemma_lex_lt_trichotomy(s[i].key, s[j].key);
    }
}

/// In a table with unique keys, the map sends each entry's key to the entry.
pub proof fn lemma_as_map_index(s: Seq<RecordModel>, i: int)
    requires
        keys_unique(s),
        0 <= i < s.len(),
    ensures
        as_map_of(s).contains_key(s[i].key),
        as_map_of(s)[s[i].key] == s[i],
{
    assert(keys_contain(s, s[i].key));
    let j = index_of_key(s, s[i].key);
    assert(s[j].key == s[i].key);
    if i != j {
        assert(s[i].key != s[j].key);
    }
}

/// The accounted size is never negative.
pub proof fn lemma_size_of_nonneg(s: Seq<RecordModel>)
    ensures
        size_of(s) >= 0,
    decreases s.len(),
{
    if s.len() > 0 {
        lemma_size_of_nonneg(s.drop_last());
    }
}

/// Each entry's accounted size is at most the total.
pub proof fn lemma_entry_size_le(s: Seq<RecordModel>, i: int)
    requires
        0 <= i < s.len(),
    ensures
        entry_size(s[i]) <= size_of(s),
    decreases s.len(),
{
    if i == s.len() - 1 {
        lemma_size_of_nonneg(s.drop_last());
    } else {
        lemma_entry_size_le(s.drop_last(), i);
        assert(s.drop_last()[i] == s[i]);
    }
}

/// Replacing an entry adjusts the total by the difference in entry sizes.
pub proof fn lemma_size_of_update(s: Seq<RecordModel>, i: int, e: RecordModel)
    requires
        0 <= i < s.len(),
    ensures
        size_of(s.update(i, e)) == size_of(s) - entry_size(s[i]) + entry_size(e),
    decreases s.len(),
{
    let s2 = s.update(i, e);
    if i == s.len() - 1 {
        assert(s2.drop_last() =~= s.drop_last());
        assert(s2.last() == e);
    } else {
        assert(s2.drop_last() =~= s.drop_last().update(i, e));
        assert(s2.last() == s.last());
        lemma_size_of_update(s.drop_last(), i, e);
        assert(s.drop_last()[i] == s[i]);
    }
}

/// Inserting an entry adds its accounted size to the total.
pub proof fn lemma_size_of_insert(s: Seq<RecordModel>, i: int, e: RecordModel)
    requires
        0 <= i <= s.len(),
    ensures
        size_of(s.insert(i, e)) == size_of(s) + entry_size(e),
    decreases s.len(),
{
    let s2 = s.insert(i, e);
    s.insert_ensures(i, e);
    if i == s.len() {
        assert(s2.drop_last() =~= s);
        assert(s2.last() == e);
    } else {
        s.drop_last().insert_ensures(i, e);
        assert(s2.drop_last() =~= s.drop_last().insert(i, e));
        assert(s2.last() == s.last());
        lemma_size_of_insert(s.drop_last(), i, e);
    }
}

/// Replacing the entry at `i` by one with the same key updates the map at
/// that key and keeps keys unique.
pub proof fn lemma_as_map_update(s: Seq<RecordModel>, i: int, e: RecordModel)
    requires
        keys_unique(s),
        0 <= i < s.len(),
        e.key == s[i].key,
    ensures
        keys_unique(s.update(i, e)),
        as_map_of(s.update(i, e)) == as_map_of(s).insert(e.key, e),
{
    let s2 = s.update(i, e);
    assert forall|x: int, y: int| 0 <= x < y < s2.len() implies s2[x].key != s2[y].key by {
        assert(s2[x].key == s[x].key);
        assert(s2[y].key == s[y].key);
    }
    let m2 = as_map_of(s2);
    let m3 = as_map_of(s).insert(e.key, e);
    assert forall|k: Seq<u8>| #[trigger] m2.contains_key(k) implies m3.contains_key(k) && m2[k]
        == m3[k] by {
        let j = choose|j: int| 0 <= j < s2.len() && s2[j].key == k;
        lemma_as_map_index(s2, j);
        if k == e.key {
            if j != i {
                assert(s2[j].key != s2[i].key);
            }
            assert(m2[k] == e);
        } else {
            assert(j != i);
            assert(s[j].key == k);
            lemma_as_map_index(s, j);
            assert(m2[k] == s2[j]);
        }
    }
    assert forall|k: Seq<u8>| #[trigger] m3.contains_key(k) implies m2.contains_key(k) by {
        if k == e.key {
            assert(s2[i].key == k);
        } else {
            let j = choose|j: int| 0 <= j < s.len() && s[j].key == k;
            assert(s2[j].key == k);
        }
    }
    assert(m2 =~= m3);
}

/// Inserting an entry under a fresh key inserts it into the map and keeps
/// keys unique.
pub proof fn lemma_as_map_insert(s: Seq<RecordModel>, i: int, e: RecordModel)
    requires
        keys_unique(s),
        !keys_contain(s, e.key),
        0 <= i <= s.len(),
    ensures
        keys_unique(s.insert(i, e)),
        as_map_of(s.insert(i, e)) == as_map_of(s).insert(e.key, e),
{
    let s2 = s.insert(i, e);
    s.insert_ensures(i, e);
    assert forall|x: int, y: int| 0 <= x < y < s2.len() implies s2[x].key != s2[y].key by {
        if x == i {
            assert(s2[y] == s[y - 1]);
            assert(s[y - 1].key != e.key);
        } else if y == i {
            assert(s2[x] == s[x]);
            assert(s[x].key != e.key);
        } else {
            let xx = if x < i {
                x
            } else {
                x - 1
            };
            let yy = if y < i {
                y
            } else {
                y - 1
            };
            assert(s2[x] == s[xx]);
            assert(s2[y] == s[yy]);
        }
    }
    let m2 = as_map_of(s2);
    let m3 = as_map_of(s).insert(e.key, e);
    assert forall|k: Seq<u8>| #[trigger] m2.contains_key(k) implies m3.contains_key(k) && m2[k]
        == m3[k] by {
        let j = choose|j: int| 0 <= j < s2.len() && s2[j].key == k;
        lemma_as_map_index(s2, j);
        if k == e.key {
            if j != i {
                assert(s2[j].key != s2[i].key);
            }
            assert(m2[k] == e);
        } else {
            assert(j != i);
            let jj = if j < i {
                j
            } else {
                j - 1
            };
            assert(s2[j] == s[jj]);
            lemma_as_map_index(s, jj);
            assert(m2[k] == s2[j]);
        }
    }
    assert forall|k: Seq<u8>| #[trigger] m3.contains_key(k) implies m2.contains_key(k) by {
        if k == e.key {
            assert(s2[i].key == k);
        } else {
            let j = choose|j: int| 0 <= j < s.len() && s[j].key == k;
            let jj = if j < i {
                j
            } else {
                j + 1
            };
            assert(s2[jj].key == k);
        }
    }
    assert(m2 =~= m3);
}

/// `data_size` after a put of (`key`, `value`) against table state `m`.
pub open spec fn size_after_put(
    m: Map<Seq<u8>, RecordModel>,
    old_size: int,
    key: Seq<u8>,
    value: Seq<u8>,
) -> int {
    if m.contains_key(key) {
        match m[key].value {
            Some(oldv) => old_size - oldv.len() + value.len(),
            None => old_size + value.len(),
        }
    } else {
        old_size + key.len() + value.len() + PER_ENTRY_OVERHEAD
    }
}

/// `data_size` after a delete of `key` against table state `m`.
pub open spec fn size_after_delete(
    m: Map<Seq<u8>, RecordModel>,
    old_size: int,
    key: Seq<u8>,
) -> int {
    if m.contains_key(key) {
        match m[key].value {
            Some(oldv) => old_size - oldv.len(),
            None => old_size,
        }
    } else {
        old_size + key.len() + PER_ENTRY_OVERHEAD
    }
}

/// In-memory buffer of the latest mutation per key, sorted ascending by key,
/// with a running estimate of its live byte footprint.
#[derive(Debug, Clone, PartialEq, Eq)]
pub struct MemTable {
    /// Entries sorted strictly ascending by key.
    pub entries: Vec<MemTableEntry>,
    /// Accounted live bytes: per entry, key length plus live value length
    /// plus `PER_ENTRY_OVERHEAD`.
    pub data_size: usize,
}

impl View for MemTable {
    type V = Seq<RecordModel>;

    open spec fn view(&self) -> Seq<RecordModel> {
        Seq::new(self.entries@.len(), |i: int| self.entries@[i]@)
    }
}

impl MemTable {
    /// Entries are strictly sorted by key and `data_size` is exactly the
    /// accounted size of all entries.
    pub open spec fn wf(self) -> bool {
        &&& sorted_strict(self@)
        &&& self.data_size == size_of(self@)
    }

    /// The table as a map from key to the latest entry for that key.
    pub open spec fn as_map(self) -> Map<Seq<u8>, RecordModel> {
        as_map_of(self@)
    }

    pub fn new() -> (r: Self)
        ensures
            r.wf(),
            r@ == Seq::<RecordModel>::empty(),
            r.as_map() == Map::<Seq<u8>, RecordModel>::empty(),
            r.data_size == 0,
    {
        let r = Self { entries: Vec::new(), data_size: 0 };
        proof {
            assert(r@ =~= Seq::<RecordModel>::empty());
            assert(r.as_map() =~= Map::<Seq<u8>, RecordModel>::empty());
        }
        r
    }

    /// Locates `key` by binary search: `Ok` with the index holding it, or
    /// `Err` with the index at which it would have to be inserted.
    pub fn get_index(&self, key: &[u8]) -> (r: Result<usize, usize>)
        requires
            self.wf(),
        ensures
            match r {
                Ok(i) => 0 <= i < self@.len() && self@[i as int].key == key@,
                Err(i) => {
                    &&& 0 <= i <= self@.len()
                    &&& !keys_contain(self@, key@)
                    &&& forall|j: int| 0 <= j < i ==> lex_lt(self@[j].key, key@)
                    &&& forall|j: int| i <= j < self@.len() ==> lex_lt(key@, self@[j].key)
                },
            },
    {
        let mut lo: usize = 0;
        let mut hi: usize = self.entries.len();
        while lo < hi
            invariant
                0 <= lo <= hi <= self@.len(),
                self.wf(),
                self@.len() == self.entries@.len(),
                forall|j: int| 0 <= j < lo ==> lex_lt(self@[j].key, key@),
                forall|j: int| hi <= j < self@.len() ==> lex_lt(key@, self@[j].key),
            decreases hi - lo,
        {
            let mid = lo + (hi - lo) / 2;
            let cmp = compare_keys(self.entries[mid].key.as_slice(), key);
            proof {
                assert(self@[mid as int] == self.entries@[mid as int]@);
            }
            match cmp {
                KeyOrder::Less => {
                    proof {
                        assert forall|j: int| 0 <= j < mid + 1 implies lex_lt(
                            self@[j].key,
                            key@,
                        ) by {
                            if j < mid {
                                lemma_lex_lt_trans(self@[j].key, self@[mid as int].key, key@);
                            }
                        }
                    }
                    lo = mid + 1;
                },
                KeyOrder::Greater => {
                    proof {
                        assert forall|j: int| mid <= j < self@.len() implies lex_lt(
                            key@,
                            self@[j].key,
                        ) by {
                            if j > mid {
                                lemma_lex_lt_trans(key@, self@[mid as int].key, self@[j].key);
                            }
                        }
                    }
                    hi = mid;
                },
                KeyOrder::Equal => {
                    return Ok(mid);
                },
            }
        }
        proof {
            assert forall|j: int| 0 <= j < self@.len() implies self@[j].key != key@ by {
                if j < lo {
                    lemma_lex_lt_trichotomy(self@[j].key, key@);
                } else {
                    lemma_lex_lt_trichotomy(key@, self@[j].key);
                }
            }
            assert(!keys_contain(self@, key@));
        }
        Err(lo)
    }

    /// Records the latest live value for `key`, replacing in place or
    /// inserting at the sorted position, and adjusts `data_size` per the
    /// sizing rules.
    pub fn put(&mut self, timestamp: u128, key: Vec<u8>, value: Vec<u8>)
        requires
            old(self).wf(),
            size_after_put(old(self).as_map(), old(self).data_size as int, key@, value@)
                <= usize::MAX,
        ensures
            final(self).wf(),
            final(self).as_map() == old(self).as_map().insert(
                key@,
                (RecordModel { timestamp, key: key@, value: Some(value@) }),
            ),
            final(self).data_size == size_after_put(
                old(self).as_map(),
                old(self).data_size as int,
                key@,
                value@,
            ),
    {
        proof {
            lemma_sorted_unique(self@);
        }
        let ghost s = self@;
        let ghost e = (RecordModel { timestamp, key: key@, value: Some(value@) });
        let vlen = value.len();
        match self.get_index(key.as_slice()) {
            Ok(idx) => {
                proof {
                    lemma_as_map_index(s, idx as int);
                    lemma_entry_size_le(s, idx as int);
                    lemma_size_of_nonneg(s);
                }
                let old_entry = self.entries.remove(idx);
                match &old_entry.value {
                    Some(v) => {
                        self.data_size = self.data_size - v.len() + vlen;
                    },
                    None => {
                        self.data_size = self.data_size + vlen;
                    },
                }
                let new_entry = MemTableEntry { key: old_entry.key, value: Some(value), timestamp };
                self.entries.insert(idx, new_entry);
                proof {
                    assert(self@ =~= s.update(idx as int, e));
                    lemma_size_of_update(s, idx as int, e);
                    lemma_as_map_update(s, idx as int, e);
                    assert forall|x: int, y: int| 0 <= x < y < self@.len() implies lex_lt(
                        self@[x].key,
                        self@[y].key,
                    ) by {
                        assert(self@[x].key == s[x].key);
                        assert(self@[y].key == s[y].key);
                    }
                }
            },
            Err(idx) => {
                self.data_size = self.data_size + key.len() + vlen + PER_ENTRY_OVERHEAD;
                let new_entry = MemTableEntry { key, value: Some(value), timestamp };
                self.entries.insert(idx, new_entry);
                proof {
                    assert(self@ =~= s.insert(idx as int, e));
                    lemma_size_of_insert(s, idx as int, e);
                    lemma_as_map_insert(s, idx as int, e);
                    s.insert_ensures(idx as int, e);
                    assert forall|x: int, y: int| 0 <= x < y < self@.len() implies lex_lt(
                        self@[x].key,
                        self@[y].key,
                    ) by {
                        let s2 = s.insert(idx as int, e);
                        if x == idx {
                            assert(s2[y] == s[y - 1]);
                        } else if y == idx {
                            assert(s2[x] == s[x]);
                        } else {
                            let xx = if x < idx {
                                x
                            } else {
                                x - 1
                            };
                            let yy = if y < idx {
                                y
                            } else {
                                y - 1
                            };
                            assert(s2[x] == s[xx]);
                            assert(s2[y] == s[yy]);
                        }
                    }
                }
            },
        }
    }

    /// Records a delete for `key`: the entry becomes (or is inserted as) a
    /// tombstone, and `data_size` drops by the removed value's length.
    pub fn delete(&mut self, timestamp: u128, key: Vec<u8>)
        requires
            old(self).wf(),
            size_after_delete(old(self).as_map(), old(self).data_size as int, key@) <= usize::MAX,
        ensures
            final(self).wf(),
            final(self).as_map() == old(self).as_map().insert(
                key@,
                (RecordModel { timestamp, key: key@, value: None }),
            ),
            final(self).data_size == size_after_delete(
                old(self).as_map(),
                old(self).data_size as int,
                key@,
            ),
    {
        proof {
            lemma_sorted_unique(self@);
        }
        let ghost s = self@;
        let ghost e = (RecordModel { timestamp, key: key@, value: None });
        match self.get_index(key.as_slice()) {
            Ok(idx) => {
                proof {
                    lemma_as_map_index(s, idx as int);
                    lemma_entry_size_le(s, idx as int);
                    lemma_size_of_nonneg(s);
                }
                let old_entry = self.entries.remove(idx);
                match &old_entry.value {
                    Some(v) => {
                        self.data_size = self.data_size - v.len();
                    },
                    None => {},
                }
                let new_entry = MemTableEntry { key: old_entry.key, value: None, timestamp };
                self.entries.insert(idx, new_entry);
                proof {
                    assert(self@ =~= s.update(idx as int, e));
                    lemma_size_of_update(s, idx as int, e);
                    lemma_as_map_update(s, idx as int, e);
                    assert forall|x: int, y: int| 0 <= x < y < self@.len() implies lex_lt(
                        self@[x].key,
                        self@[y].key,
                    ) by {
                        assert(self@[x].key == s[x].key);
                        assert(self@[y].key == s[y].key);
                    }
                }
            },
            Err(idx) => {
                self.data_size = self.data_size + key.len() + PER_ENTRY_OVERHEAD;
                let new_entry = MemTableEntry { key, value: None, timestamp };
                self.entries.insert(idx, new_entry);
                proof {
                    assert(self@ =~= s.insert(idx as int, e));
                    lemma_size_of_insert(s, idx as int, e);
                    lemma_as_map_insert(s, idx as int, e);
                    s.insert_ensures(idx as int, e);
                    assert forall|x: int, y: int| 0 <= x < y < self@.len() implies lex_lt(
                        self@[x].key,
                        self@[y].key,
                    ) by {
                        let s2 = s.insert(idx as int, e);
                        if x == idx {
                            assert(s2[y] == s[y - 1]);
                        } else if y == idx {
                            assert(s2[x] == s[x]);
                        } else {
                            let xx = if x < idx {
                                x
                            } else {
                                x - 1
                            };
                            let yy = if y < idx {
                                y
                            } else {
                                y - 1
                            };
                            assert(s2[x] == s[xx]);
                            assert(s2[y] == s[yy]);
                        }
                    }
                }
            },
        }
    }

    /// Looks up the entry for `key`, which may be a tombstone.
    pub fn get(&self, key: &[u8]) -> (r: Option<&MemTableEntry>)
        requires
            self.wf(),
        ensures
            match r {
                Some(e) => self.as_map().contains_key(key@) && e@ == self.as_map()[key@],
                None => !self.as_map().contains_key(key@),
            },
    {
        proof {
            lemma_sorted_unique(self@);
        }
        match self.get_index(key) {
            Ok(idx) => {
                proof {
                    lemma_as_map_index(self@, idx as int);
                    assert(self@[idx as int] == self.entries@[idx as int]@);
                }
                Some(&self.entries[idx])
            },
            Err(_) => None,
        }
    }

    /// The accounted live byte footprint of the table.
    pub fn size(&self) -> (r: usize)
        ensures
            r == self.data_size,
            self.wf() ==> r == size_of(self@),
    {
        self.data_size
    }
}

} // verus!
