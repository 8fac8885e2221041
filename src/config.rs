//! Construction-time limits of a log and its segments.

use vstd::prelude::*;

verus! {

/// Limits of one segment; reaching either one makes the log roll.
#[derive(Debug, Clone, Copy, PartialEq, Eq, Structural)]
pub struct SegmentConfig {
    /// Store size, in bytes, at which a segment counts as full.
    pub max_store_bytes: u64,
    /// Index size, in bytes, at which a segment counts as full; also the
    /// capacity of the index.
    pub max_index_bytes: u64,
}

/// The configuration of a log, fixed for its lifetime.
#[derive(Debug, Clone, Copy, PartialEq, Eq, Structural)]
pub struct Config {
    pub segment: SegmentConfig,
    /// The offset of the first record of a brand-new log.
    pub initial_offset: u64,
}

} // verus!
