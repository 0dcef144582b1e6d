//! An embedded vector database: distance kernels over IEEE-754 bit patterns,
//! payload filtering with a roaring-bitmap inverted index, brute-force and
//! HNSW nearest-neighbor indexes, and a crash-recoverable collection built on
//! an append-only record log and a checksummed write-ahead log.

use vstd::prelude::*;

pub mod bytes;
pub mod dist;
pub mod value;
pub mod json;
pub mod error;
pub mod payload;
pub mod filter;
pub mod vector;
pub mod record;
pub mod wal;
pub mod brute;
pub mod collection;
pub mod hnsw;
pub mod bitmap;

pub use crate::dist::{DistanceMetric, Distance};
pub use crate::error::Error;
pub use crate::value::Value;
pub use crate::payload::Payload;
pub use crate::filter::{Filter, FieldFilter, FilterCondition};
pub use crate::bitmap::BitmapIndex;
pub use crate::vector::Vector;
pub use crate::record::{DataFile, DataRecord};
pub use crate::wal::{Wal, WalEntry, WalEntryKind, SyncMode};
pub use crate::brute::{BruteForceIndex, SearchResult};
pub use crate::hnsw::{HnswIndex, HnswConfig};
pub use crate::collection::{Collection, CollectionConfig};

verus! {

/// IEEE-754 single-precision bit pattern of a stored scalar.
pub type ScalarBits = u32;

/// Unique identifier for a vector in an index or collection.
pub type VectorId = u64;

/// Maps a scalar's bit pattern to a key whose unsigned integer order is the
/// IEEE-754 total order of the underlying values (negatives reversed below
/// positives, NaN patterns at the extremes). Lower key = closer match.
pub open spec fn spec_sort_key(bits: u32) -> u32 {
    if bits >= 0x8000_0000 {
        !bits
    } else {
        bits | 0x8000_0000
    }
}

/// Executable form of [`spec_sort_key`].
pub fn sort_key(bits: u32) -> (r: u32)
    ensures
        r == spec_sort_key(bits),
{
    if bits >= 0x8000_0000 {
        !bits
    } else {
        bits | 0x8000_0000
    }
}

} // verus!
