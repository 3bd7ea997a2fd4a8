//! Error taxonomy of the storage core.

use vstd::prelude::*;

verus! {

/// Why an operation on segment or manifest bytes failed.
///
/// I/O failures of the embedding program are not represented here: this crate
/// only ever works on in-memory buffers.
#[derive(Clone, Copy, Debug, PartialEq, Eq)]
pub enum LsmError {
    /// A block payload hashed to a different value than its header records.
    Checksum,
    /// The decoder rejected a compressed payload; carries the compression tag
    /// byte the segment metadata recorded.
    Decompress(u8),
    /// A tag byte (compression kind, value type) holds an unknown value.
    InvalidTag(u8),
    /// The magic bytes of a trailer or manifest did not match.
    InvalidMagic,
    /// The format version is unknown to this build.
    UnsupportedVersion(u16),
    /// A semantic violation: truncated structures, offsets pointing outside
    /// the file, non-monotonic keys, or required metadata entries missing.
    Corrupt,
}

} // verus!
