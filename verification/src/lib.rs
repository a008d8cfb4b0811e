//! An embeddable persistent key-value store for opaque byte-string keys and
//! values, in the Bitcask/LSM style: an in-memory key directory points at
//! append-only data records on disk, an ordered in-memory buffer is sealed
//! into immutable sorted runs, and a background worker merges runs.
//!
//! This crate holds the verified core: the record codec, the in-memory
//! key directory and memtable, flush and compaction planning, recovery
//! from raw bytes, and the engine's decision logic. File and thread
//! plumbing lives outside the library and hands plain values in and out.
pub mod assoc;
pub mod bytes_util;
pub mod config;
pub mod crc;
pub mod error;
pub mod format;
pub mod hint;
pub mod keydir;
pub mod lsm;
pub mod memtable;
pub mod merge;
pub mod order;
pub mod request;
pub mod stats;
pub mod utils;
pub mod runs;
pub mod sstable;
pub mod storage;
pub mod wal;
pub mod worker;
