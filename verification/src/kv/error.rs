//! The store's error.

use vstd::prelude::*;

verus! {

/// The kinds of failure that the store reports. Callers tell them apart by
/// variant.
#[derive(Debug, Clone, Copy, PartialEq, Eq, Structural)]
pub enum KvsError {
    /// A read or write on the data file could not be carried out in full.
    IO,
    /// The length fields of a record header could not be read, because fewer
    /// bytes than a header were left.
    SliceDecode,
    /// The kind byte of a record header names no command.
    ReprDecode,
    /// A key or a value is not valid UTF-8.
    StringDecode,
    /// The key to remove is not in the store.
    KeyNotFound,
    /// The end of the log was reached where a record would start.
    EOF,
    /// The data directory has no place for the file that a compaction writes.
    InvalidDataPath,
}

} // verus!
