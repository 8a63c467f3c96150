use vstd::prelude::*;

verus! {

/// Errors surfaced by the storage engine.
#[derive(Clone, Copy, Debug, PartialEq, Eq, Structural)]
pub enum DBError {
    /// An SSTable's metadata bytes could not be decoded.
    MalformedSSTable,
    /// A WAL record was cut off or mangled mid-record.
    MalformedWal,
    /// A file was expected in the working directory but is absent.
    MissingFile,
    /// A file would have been created over an existing one.
    DuplicateFile,
    /// An internal bookkeeping limit would be exceeded, such as the memtable
    /// size counter no longer fitting its machine word.
    InvariantViolation,
}

impl DBError {
    /// A short human-readable description of the error.
    pub fn message(&self) -> (r: &'static str) {
        match self {
            DBError::MalformedSSTable => "sstable could not be loaded, data is corrupted",
            DBError::MalformedWal => "wal record is truncated or corrupted",
            DBError::MissingFile => "expected file is missing from the working directory",
            DBError::DuplicateFile => "file already exists in the working directory",
            DBError::InvariantViolation => "an internal bookkeeping limit was exceeded",
        }
    }
}

} // verus!
