//! Core of an embedded log-structured merge-tree storage engine.
//!
//! The crate covers the segment and compaction subsystem of such an engine:
//! the block codec, the restart-interval key encoding, data and index blocks,
//! Bloom filters, the segment writer and reader, the level manifest, and the
//! compaction strategies.  All functions operating on bytes work on in-memory
//! buffers; reading and writing actual files is left to the embedding program.

pub mod bit_array;
pub mod block;
pub mod blocked_bloom;
pub mod key_range;
pub mod level_manifest;
pub mod bytes_util;
pub mod coding;
pub mod compaction;
pub mod data_block;
pub mod index_block;
pub mod meta;
pub mod segment;
pub mod trailer;
pub mod standard_bloom;
pub mod value;
pub mod compression;
pub mod config;
pub mod error;
pub mod hashes;
pub mod version;

use vstd::prelude::*;

verus! {

/// Monotonically increasing 64-bit sequence number assigned at write time.
pub type SeqNo = u64;

/// Identifier of a segment, unique within one tree.
pub type SegmentId = u64;

/// Identifier of a tree.
pub type TreeId = u64;

} // verus!
