//! The ways in which an operation on the store can fail.

use vstd::prelude::*;

verus! {

/// Why an operation on the store failed.
#[derive(Debug, Clone, Copy, PartialEq, Eq, Structural)]
pub enum KvError {
    /// The storage medium could not be opened, read, written or renamed.
    Io,
    /// A field of a record is framed correctly but is not valid UTF-8.
    SerializationError,
    /// The bytes at an offset do not form a record: the record is cut short
    /// or its tag is unknown.
    CorruptRecord,
    /// A removal named a key that the store does not hold.
    NonExistentKey,
}

} // verus!
