//! An embedded, log-structured key-value store for JSON documents keyed by `u64`.
//!
//! The engine keeps an in-memory table of recent writes, one mutable main
//! segment and a list of sealed segments. Each segment is an append-only image
//! of records together with an index from key to record offset; the index is
//! always the one a sequential scan of the image rebuilds.
use vstd::prelude::*;

pub mod codec;
pub mod document;
pub mod memtable;
pub mod segment;
pub mod engine;
pub mod laws;

pub use engine::{Config, SegmentImage, SegmentRef, DB};
pub use memtable::MemTable;
pub use segment::Segment;

verus! {

/// The ways an operation of the store can fail.
#[derive(Debug, Clone, Copy, PartialEq, Eq, Structural)]
pub enum DbError {
    /// A segment image holds a record whose header or payload is cut short.
    CorruptSegment,
    /// A stored payload is not well-formed JSON text.
    Decode,
    /// No recency key is left above the newest sealed segment's.
    RecencyExhausted,
    /// A compaction named a sealed segment that does not exist.
    NoSuchSegment,
}

} // verus!
