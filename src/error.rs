//! What the log reports when an operation cannot be served.

use vstd::prelude::*;

verus! {

/// Why an operation on a store, an index, a segment or the log failed.
#[derive(Debug, Clone, Copy, PartialEq, Eq, Structural)]
pub enum LogError {
    /// The offset lies below the lowest retained offset or at or above the
    /// next offset to be assigned.
    OffsetOutOfRange,
    /// A length prefix could not be read in full, or the payload is shorter
    /// than the prefix declares.
    CorruptFrame,
    /// The index has no room left for another entry.
    IndexFull,
    /// The store file cannot grow by the frame without passing the largest
    /// position a `u64` can hold.
    StoreFull,
}

} // verus!
