//! The store: its record format, the model of its log, and the engine.

pub mod bytes;
pub mod compaction;
pub mod entry;
pub mod error;
pub mod external;
pub mod kv_store;
pub mod log;
pub mod positioned;
pub mod storage;
