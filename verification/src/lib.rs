//! An embedded, single-writer log-structured merge (LSM) key-value engine.
//!
//! Mutations are appended to a write-ahead log (WAL), buffered in a sorted
//! in-memory table (the memtable), and periodically frozen into immutable
//! sorted tables (SSTables). The working directory is modelled as a value of
//! [`storage::Directory`], so the whole engine - codec, memtable, WAL replay,
//! rotation and flush - is verified; persisting that directory to a real
//! filesystem is left to the embedding program.

pub mod database;
pub mod error;
pub mod memtable;
pub mod sstable;
pub mod storage;
pub mod utils;
pub mod wal;
