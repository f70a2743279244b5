//! An embedded key-value store over an append-only log, in the style of Bitcask.
//!
//! The engine keeps the bytes of the active data file, an index from each
//! live key to the offset of its latest `PUT` record, and a count of the
//! bytes that a compaction would reclaim. Every operation is specified
//! against the mapping that a replay of the log yields. The engine does no
//! I/O: it is opened on the bytes of the data file, and `sync` hands out what
//! has to be written to the file so that it holds the log.

pub mod kv;

pub use kv::entry::{CmdKind, Entry};
pub use kv::error::KvsError;
pub use kv::kv_store::KvStore;
pub use kv::storage::{FileUpdate, SimplifiedBitcask, Storage};
