use vstd::prelude::*;

use crate::error::DBError;

verus! {

/// The kind of a file in the working directory: its extension.
#[derive(Clone, Copy, Debug, PartialEq, Eq, Structural)]
pub enum FileKind {
    Wal,
    Sst,
}

/// One file of the working directory: its numeric timestamp name and its
/// bytes.
#[derive(Debug, Clone)]
pub struct FileEntry {
    pub stamp: u128,
    pub data: Vec<u8>,
}

/// Some file in `s` is named `st`.
pub open spec fn stamps_contain(s: Seq<FileEntry>, st: u128) -> bool {
    exists|i: int| 0 <= i < s.len() && s[i].stamp == st
}

/// The index of the file named `st` (meaningful only when names are unique).
pub open spec fn index_of_stamp(s: Seq<FileEntry>, st: u128) -> int {
    choose|i: int| 0 <= i < s.len() && s[i].stamp == st
}

/// No two files share a name.
pub open spec fn stamps_unique(s: Seq<FileEntry>) -> bool {
    forall|i: int, j: int| 0 <= i < j < s.len() ==> s[i].stamp != s[j].stamp
}

/// The files as a map from name to contents.
pub open spec fn files_map(s: Seq<FileEntry>) -> Map<u128, Seq<u8>> {
    Map::new(|st: u128| stamps_contain(s, st), |st: u128| s[index_of_stamp(s, st)].data@)
}

/// With unique names, the map sends each file's name to its contents.
proof fn lemma_files_map_index(s: Seq<FileEntry>, i: int)
    requires
        stamps_unique(s),
        0 <= i < s.len(),
    ensures
        files_map(s).contains_key(s[i].stamp),
        files_map(s)[s[i].stamp] == s[i].data@,
{
    assert(stamps_contain(s, s[i].stamp));
    let j = index_of_stamp(s, s[i].stamp);
    if i != j {
        assert(s[i].stamp != s[j].stamp);
    }
}

/// Appending a file under a fresh name inserts it into the map.
proof fn lemma_files_map_push(s: Seq<FileEntry>, e: FileEntry)
    requires
        stamps_unique(s),
        !stamps_contain(s, e.stamp),
    ensures
        stamps_unique(s.push(e)),
        files_map(s.push(e)) == files_map(s).insert(e.stamp, e.data@),
{
    let s2 = s.push(e);
    assert forall|x: int, y: int| 0 <= x < y < s2.len() implies s2[x].stamp != s2[y].stamp by {
        if y == s.len() {
            assert(s2[x] == s[x]);
            assert(s[x].stamp != e.stamp);
        } else {
            assert(s2[x] == s[x]);
            assert(s2[y] == s[y]);
        }
    }
    let m2 = files_map(s2);
    let m3 = files_map(s).insert(e.stamp, e.data@);
    assert forall|k: u128| #[trigger] m2.contains_key(k) implies m3.contains_key(k) && m2[k]
        == m3[k] by {
        let j = choose|j: int| 0 <= j < s2.len() && s2[j].stamp == k;
        lemma_files_map_index(s2, j);
        if k == e.stamp {
            if j != s.len() {
                assert(s2[j].stamp != s2[s.len() as int].stamp);
            }
            assert(m2[k] == e.data@);
        } else {
            assert(j != s.len());
            assert(s2[j] == s[j]);
            lemma_files_map_index(s, j);
        }
    }
    assert forall|k: u128| #[trigger] m3.contains_key(k) implies m2.contains_key(k) by {
        if k == e.stamp {
            assert(s2[s.len() as int].stamp == k);
        } else {
            let j = choose|j: int| 0 <= j < s.len() && s[j].stamp == k;
            assert(s2[j].stamp == k);
        }
    }
    assert(m2 =~= m3);
}

/// Removing the file at `i` removes its name from the map.
proof fn lemma_files_map_remove(s: Seq<FileEntry>, i: int)
    requires
        stamps_unique(s),
        0 <= i < s.len(),
    ensures
        stamps_unique(s.remove(i)),
        files_map(s.remove(i)) == files_map(s).remove(s[i].stamp),
{
    let s2 = s.remove(i);
    assert forall|x: int, y: int| 0 <= x < y < s2.len() implies s2[x].stamp != s2[y].stamp by {
        let xx = if x < i {
            x
        } else {
            x + 1
        };
        let yy = if y < i {
            y
        } else {
            y + 1
        };
        assert(s2[x] == s[xx]);
        assert(s2[y] == s[yy]);
    }
    let m2 = files_map(s2);
    let m3 = files_map(s).remove(s[i].stamp);
    assert forall|k: u128| #[trigger] m2.contains_key(k) implies m3.contains_key(k) && m2[k]
        == m3[k] by {
        let j = choose|j: int| 0 <= j < s2.len() && s2[j].stamp == k;
        lemma_files_map_index(s2, j);
        let jj = if j < i {
            j
        } else {
            j + 1
        };
        assert(s2[j] == s[jj]);
        lemma_files_map_index(s, jj);
        if jj != i {
            assert(s[jj].stamp != s[i].stamp || s[i].stamp != s[jj].stamp);
        }
        assert(k != s[i].stamp);
    }
    assert forall|k: u128| #[trigger] m3.contains_key(k) implies m2.contains_key(k) by {
        let j = choose|j: int| 0 <= j < s.len() && s[j].stamp == k;
        assert(j != i);
        let jj = if j < i {
            j
        } else {
            j - 1
        };
        assert(s2[jj] == s[j]);
    }
    assert(m2 =~= m3);
}

/// Mathematical model of a working directory: the `.wal` and `.sst` files,
/// each keyed by its numeric timestamp name.
pub struct DirectoryModel {
    pub wals: Map<u128, Seq<u8>>,
    pub ssts: Map<u128, Seq<u8>>,
}

impl DirectoryModel {
    /// The files of one kind.
    pub open spec fn of_kind(self, kind: FileKind) -> Map<u128, Seq<u8>> {
        match kind {
            FileKind::Wal => self.wals,
            FileKind::Sst => self.ssts,
        }
    }
}

/// The other file kind.
pub open spec fn opposite(kind: FileKind) -> FileKind {
    match kind {
        FileKind::Wal => FileKind::Sst,
        FileKind::Sst => FileKind::Wal,
    }
}

/// An in-memory image of the engine's working directory. All engine logic
/// runs against this value; the embedding program is responsible for loading
/// it from and persisting it to a real directory.
pub struct Directory {
    wals: Vec<FileEntry>,
    ssts: Vec<FileEntry>,
}

impl View for Directory {
    type V = DirectoryModel;

    closed spec fn view(&self) -> DirectoryModel {
        DirectoryModel { wals: files_map(self.wals@), ssts: files_map(self.ssts@) }
    }
}

/// Relies on itertools::sorted: all the elements of the input, in ascending
/// order.
#[verifier::external_body]
fn sorted_stamps(v: Vec<u128>) -> (r: Vec<u128>)
    ensures
        r@.to_multiset() == v@.to_multiset(),
        forall|i: int, j: int| 0 <= i < j < r@.len() ==> r@[i] <= r@[j],
{
    itertools::sorted(v).collect()
}

/// Finds the file named `stamp` in `list`.
fn find_stamp(list: &Vec<FileEntry>, stamp: u128) -> (r: Option<usize>)
    ensures
        match r {
            Some(i) => 0 <= i < list@.len() && list@[i as int].stamp == stamp,
            None => !stamps_contain(list@, stamp),
        },
{
    let mut i: usize = 0;
    while i < list.len()
        invariant
            0 <= i <= list@.len(),
            forall|j: int| 0 <= j < i ==> list@[j].stamp != stamp,
        decreases list@.len() - i,
    {
        if list[i].stamp == stamp {
            return Some(i);
        }
        i += 1;
    }
    None
}

/// Creates an empty file named `stamp` in `list`, refusing a duplicate.
fn create_in(list: &mut Vec<FileEntry>, stamp: u128) -> (r: Result<(), DBError>)
    requires
        stamps_unique(old(list)@),
    ensures
        stamps_unique(final(list)@),
        match r {
            Ok(()) => !stamps_contain(old(list)@, stamp) && files_map(final(list)@) == files_map(
                old(list)@,
            ).insert(stamp, Seq::<u8>::empty()),
            Err(e) => e == DBError::DuplicateFile && stamps_contain(old(list)@, stamp) && final(list)@ == old(list)@,
        },
{
    match find_stamp(list, stamp) {
        Some(_) => Err(DBError::DuplicateFile),
        None => {
            let e = FileEntry { stamp, data: Vec::new() };
            proof {
                lemma_files_map_push(list@, e);
            }
            list.push(e);
            Ok(())
        },
    }
}

/// Appends `bytes` to the file named `stamp` in `list`.
fn append_in(list: &mut Vec<FileEntry>, stamp: u128, bytes: &[u8]) -> (r: Result<(), DBError>)
    requires
        stamps_unique(old(list)@),
    ensures
        stamps_unique(final(list)@),
        match r {
            Ok(()) => stamps_contain(old(list)@, stamp) && files_map(final(list)@) == files_map(
                old(list)@,
            ).insert(stamp, files_map(old(list)@)[stamp] + bytes@),
            Err(e) => e == DBError::MissingFile && !stamps_contain(old(list)@, stamp) && final(list)@ == old(list)@,
        },
{
    match find_stamp(list, stamp) {
        Some(i) => {
            proof {
                lemma_files_map_index(list@, i as int);
                lemma_files_map_remove(list@, i as int);
            }
            let ghost s = list@;
            let entry = list.remove(i);
            let mut data = entry.data;
            data.extend_from_slice(bytes);
            let e = FileEntry { stamp, data };
            proof {
                assert(e.data@ =~= s[i as int].data@ + bytes@);
                assert(!stamps_contain(list@, stamp)) by {
                    if stamps_contain(list@, stamp) {
                        let j = choose|j: int| 0 <= j < list@.len() && list@[j].stamp == stamp;
                        let jj = if j < i as int {
                            j
                        } else {
                            j + 1
                        };
                        assert(list@[j] == s[jj]);
                        assert(jj != i as int);
                    }
                }
                lemma_files_map_push(list@, e);
            }
            list.push(e);
            proof {
                assert(files_map(list@) =~= files_map(s).insert(
                    stamp,
                    files_map(s)[stamp] + bytes@,
                ));
            }
            Ok(())
        },
        None => Err(DBError::MissingFile),
    }
}

/// Removes the file named `stamp` from `list`.
fn remove_in(list: &mut Vec<FileEntry>, stamp: u128) -> (r: Result<(), DBError>)
    requires
        stamps_unique(old(list)@),
    ensures
        stamps_unique(final(list)@),
        match r {
            Ok(()) => stamps_contain(old(list)@, stamp) && files_map(final(list)@) == files_map(
                old(list)@,
            ).remove(stamp),
            Err(e) => e == DBError::MissingFile && !stamps_contain(old(list)@, stamp) && final(list)@ == old(list)@,
        },
{
    match find_stamp(list, stamp) {
        Some(i) => {
            proof {
                lemma_files_map_remove(list@, i as int);
            }
            let _ = list.remove(i);
            Ok(())
        },
        None => Err(DBError::MissingFile),
    }
}

/// Returns the contents of the file named `stamp` in `list`.
fn contents_in(list: &Vec<FileEntry>, stamp: u128) -> (r: Option<&Vec<u8>>)
    requires
        stamps_unique(list@),
    ensures
        match r {
            Some(v) => files_map(list@).contains_key(stamp) && v@ == files_map(list@)[stamp],
            None => !files_map(list@).contains_key(stamp),
        },
{
    match find_stamp(list, stamp) {
        Some(i) => {
            proof {
                lemma_files_map_index(list@, i as int);
            }
            Some(&list[i].data)
        },
        None => None,
    }
}

impl Directory {
    /// File names are unique within each kind.
    pub closed spec fn wf(self) -> bool {
        &&& stamps_unique(self.wals@)
        &&& stamps_unique(self.ssts@)
    }

    /// An empty working directory.
    pub fn new() -> (d: Directory)
        ensures
            d.wf(),
            d@.wals == Map::<u128, Seq<u8>>::empty(),
            d@.ssts == Map::<u128, Seq<u8>>::empty(),
    {
        let d = Directory { wals: Vec::new(), ssts: Vec::new() };
        proof {
            assert(d@.wals =~= Map::<u128, Seq<u8>>::empty());
            assert(d@.ssts =~= Map::<u128, Seq<u8>>::empty());
        }
        d
    }

    /// Creates an empty file named `<stamp>.<kind>`, refusing a duplicate.
    pub fn create(&mut self, stamp: u128, kind: FileKind) -> (r: Result<(), DBError>)
        requires
            old(self).wf(),
        ensures
            final(self).wf(),
            match r {
                Ok(()) => !old(self)@.of_kind(kind).contains_key(stamp) && final(self)@.of_kind(
                    kind,
                ) == old(self)@.of_kind(kind).insert(stamp, Seq::<u8>::empty()),
                Err(e) => e == DBError::DuplicateFile && old(self)@.of_kind(kind).contains_key(
                    stamp,
                ) && final(self)@.of_kind(kind) == old(self)@.of_kind(kind),
            },
            final(self)@.of_kind(opposite(kind)) == old(self)@.of_kind(opposite(kind)),
    {
        match kind {
            FileKind::Wal => create_in(&mut self.wals, stamp),
            FileKind::Sst => create_in(&mut self.ssts, stamp),
        }
    }

    /// Appends `bytes` to the file named `<stamp>.<kind>`.
    pub fn append(&mut self, stamp: u128, kind: FileKind, bytes: &[u8]) -> (r: Result<
        (),
        DBError,
    >)
        requires
            old(self).wf(),
        ensures
            final(self).wf(),
            match r {
                Ok(()) => old(self)@.of_kind(kind).contains_key(stamp) && final(self)@.of_kind(
                    kind,
                ) == old(self)@.of_kind(kind).insert(
                    stamp,
                    old(self)@.of_kind(kind)[stamp] + bytes@,
                ),
                Err(e) => e == DBError::MissingFile && !old(self)@.of_kind(kind).contains_key(
                    stamp,
                ) && final(self)@.of_kind(kind) == old(self)@.of_kind(kind),
            },
            final(self)@.of_kind(opposite(kind)) == old(self)@.of_kind(opposite(kind)),
    {
        match kind {
            FileKind::Wal => append_in(&mut self.wals, stamp, bytes),
            FileKind::Sst => append_in(&mut self.ssts, stamp, bytes),
        }
    }

    /// Removes the file named `<stamp>.<kind>`.
    pub fn remove(&mut self, stamp: u128, kind: FileKind) -> (r: Result<(), DBError>)
        requires
            old(self).wf(),
        ensures
            final(self).wf(),
            match r {
                Ok(()) => old(self)@.of_kind(kind).contains_key(stamp) && final(self)@.of_kind(
                    kind,
                ) == old(self)@.of_kind(kind).remove(stamp),
                Err(e) => e == DBError::MissingFile && !old(self)@.of_kind(kind).contains_key(
                    stamp,
                ) && final(self)@.of_kind(kind) == old(self)@.of_kind(kind),
            },
            final(self)@.of_kind(opposite(kind)) == old(self)@.of_kind(opposite(kind)),
    {
        match kind {
            FileKind::Wal => remove_in(&mut self.wals, stamp),
            FileKind::Sst => remove_in(&mut self.ssts, stamp),
        }
    }

    /// The contents of the file named `<stamp>.<kind>`, if it exists.
    pub fn contents(&self, stamp: u128, kind: FileKind) -> (r: Option<&Vec<u8>>)
        requires
            self.wf(),
        ensures
            match r {
                Some(v) => self@.of_kind(kind).contains_key(stamp) && v@ == self@.of_kind(
                    kind,
                )[stamp],
                None => !self@.of_kind(kind).contains_key(stamp),
            },
    {
        match kind {
            FileKind::Wal => contents_in(&self.wals, stamp),
            FileKind::Sst => contents_in(&self.ssts, stamp),
        }
    }

    /// The names of all files of one kind, ascending. Mirrors a directory
    /// scan filtered by extension.
    pub fn scan_dir(&self, kind: FileKind) -> (r: Vec<u128>)
        requires
            self.wf(),
        ensures
            forall|i: int, j: int| 0 <= i < j < r@.len() ==> r@[i] < r@[j],
            forall|st: u128| #[trigger] r@.contains(st) <==> self@.of_kind(kind).contains_key(st),
    {
        let list = match kind {
            FileKind::Wal => &self.wals,
            FileKind::Sst => &self.ssts,
        };
        let mut stamps: Vec<u128> = Vec::new();
        let mut i: usize = 0;
        while i < list.len()
            invariant
                0 <= i <= list@.len(),
                stamps@.len() == i,
                forall|j: int| 0 <= j < i ==> stamps@[j] == list@[j].stamp,
            decreases list@.len() - i,
        {
            stamps.push(list[i].stamp);
            i += 1;
        }
        let r = sorted_stamps(stamps);
        proof {
            broadcast use vstd::seq_lib::group_to_multiset_ensures;

            assert forall|x: int, y: int|
                0 <= x < y < stamps@.len() implies stamps@[x] != stamps@[y] by {
                assert(list@[x].stamp != list@[y].stamp);
            }
            assert(stamps@.no_duplicates());
            stamps@.lemma_multiset_has_no_duplicates();
            r@.lemma_multiset_has_no_duplicates_conv();
            assert forall|st: u128| #[trigger] r@.contains(st) implies self@.of_kind(
                kind,
            ).contains_key(st) by {
                assert(r@.to_multiset().count(st) > 0);
                assert(stamps@.to_multiset().count(st) > 0);
                assert(stamps@.contains(st));
                let j = choose|j: int| 0 <= j < stamps@.len() && stamps@[j] == st;
                assert(list@[j].stamp == st);
            }
            assert forall|st: u128| self@.of_kind(kind).contains_key(st) implies r@.contains(
                st,
            ) by {
                let j = choose|j: int| 0 <= j < list@.len() && list@[j].stamp == st;
                assert(stamps@[j] == st);
                assert(stamps@.contains(st));
                assert(stamps@.to_multiset().count(st) > 0);
                assert(r@.to_multiset().count(st) > 0);
            }
            assert forall|x: int, y: int| 0 <= x < y < r@.len() implies r@[x] < r@[y] by {
                assert(r@.no_duplicates());
            }
        }
        r
    }
}

} // verus!
