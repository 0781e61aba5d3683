//! An embedded vector database core: checksummed log, immutable segments,
//! in-memory write buffer, proximity graph and top-k selection, with their
//! contracts proved.
//!
//! The library holds every file of a collection as a value (the bytes of
//! the log, the bytes of a segment) and every floating-point number as its
//! bit pattern. Reading and writing files, and computing distances, are
//! left to the program around it.

use vstd::prelude::*;

pub mod assoc;
pub mod codec;
pub mod collection;
pub mod compaction;
pub mod database;
pub mod distance;
pub mod error;
pub mod filter;
pub mod hnsw;
pub mod id;
pub mod manifest;
pub mod memtable;
pub mod search;
pub mod segment;
pub mod textset;
pub mod wal;

pub use collection::Collection;
pub use database::DatabaseManifest;
pub use distance::Distance;
pub use error::Error;
pub use filter::{Filter, Json};
pub use id::IdMapping;
pub use manifest::{Manifest, ManifestManager, SegmentEntry};
pub use memtable::Memtable;
pub use search::{exact_search, Match, Scored, Search};
pub use segment::{Document, Segment, SegmentBuilder, SegmentHeader};
pub use wal::{Wal, WAL_FLUSH_THRESHOLD};

verus! {

/// When a write is acknowledged.
#[derive(Debug, Clone, Copy, PartialEq, Eq, Structural)]
pub enum Durability {
    /// After the record is handed to the operating system.
    Buffered,
    /// After the record is on stable storage.
    FdatasyncEachBatch,
}

impl Default for Durability {
    fn default() -> (d: Durability)
        ensures
            d == Durability::Buffered,
    {
        Durability::Buffered
    }
}

/// Configuration of a collection.
#[derive(Debug, Clone, Copy, PartialEq, Eq, Structural)]
pub struct CollectionConfig {
    /// Number of components of every vector.
    pub dim: usize,
    /// When writes are acknowledged.
    pub durability: Durability,
}

impl CollectionConfig {
    /// A configuration with the given dimension and buffered writes.
    pub fn new(dim: usize) -> (c: CollectionConfig)
        ensures
            c.dim == dim,
            c.durability == Durability::Buffered,
    {
        CollectionConfig { dim, durability: Durability::Buffered }
    }

    /// The same configuration with another durability.
    pub fn with_durability(self, durability: Durability) -> (c: CollectionConfig)
        ensures
            c.dim == self.dim,
            c.durability == durability,
    {
        CollectionConfig { dim: self.dim, durability }
    }
}

/// Counts that describe a collection.
#[derive(Debug, Clone, Copy, PartialEq, Eq, Structural)]
pub struct CollectionStats {
    /// Documents in the memtable that are not tombstoned.
    pub memtable_docs: usize,
    /// Number of segments.
    pub segment_count: usize,
    /// Documents in all segments together.
    pub total_segment_docs: usize,
}

} // verus!
