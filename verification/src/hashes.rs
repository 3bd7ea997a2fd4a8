//! The xxh3 hashes the format is keyed by: a 64-bit checksum over block
//! payloads and a 128-bit composite hash over user keys for the Bloom
//! filters.

use vstd::prelude::*;

verus! {

/// Two 64-bit hashes used for double hashing: `(h1, h2)`.
pub type CompositeHash = (u64, u64);

/// The 64-bit xxh3 hash of a byte string.  The result depends on the bytes
/// alone.
pub uninterp spec fn xxh3_64_of(data: Seq<u8>) -> u64;

/// The 128-bit xxh3 hash of a byte string.  The result depends on the bytes
/// alone.
pub uninterp spec fn xxh3_128_of(data: Seq<u8>) -> u128;

/// Relies on `xxhash_rust::xxh3::xxh3_64`: a pure function of the input
/// bytes, used as the block checksum.
#[verifier::external_body]
pub fn xxh3_64(data: &[u8]) -> (r: u64)
    ensures
        r == xxh3_64_of(data@),
{
    xxhash_rust::xxh3::xxh3_64(data)
}

/// Relies on `xxhash_rust::xxh3::xxh3_128`: a pure function of the input
/// bytes, used as the key hash for the Bloom filters.
#[verifier::external_body]
pub fn xxh3_128(data: &[u8]) -> (r: u128)
    ensures
        r == xxh3_128_of(data@),
{
    xxhash_rust::xxh3::xxh3_128(data)
}

/// The high half of the 128-bit hash of a key.
pub open spec fn spec_hash_h1(data: Seq<u8>) -> u64 {
    (xxh3_128_of(data) >> 64) as u64
}

/// The low half of the 128-bit hash of a key.
pub open spec fn spec_hash_h2(data: Seq<u8>) -> u64 {
    xxh3_128_of(data) as u64
}

/// Hashes a key into the composite `(h1, h2)` pair: the high and low 64 bits
/// of its 128-bit xxh3 hash.
pub fn composite_hash(key: &[u8]) -> (r: CompositeHash)
    ensures
        r.0 == spec_hash_h1(key@),
        r.1 == spec_hash_h2(key@),
{
    let h0 = xxh3_128(key);
    ((h0 >> 64) as u64, h0 as u64)
}

} // verus!
