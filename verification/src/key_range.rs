//! Inclusive key ranges `[min, max]` over byte-string keys.

use vstd::prelude::*;

use crate::bytes_util::{bytes_le, lex_le};

verus! {

/// The inclusive range of user keys a segment covers: from its first to its
/// last key.
#[derive(Clone, Debug, PartialEq, Eq)]
#[verifier::ext_equal]
pub struct KeyRange {
    /// Smallest key in the range.
    pub min: Vec<u8>,
    /// Largest key in the range.
    pub max: Vec<u8>,
}

impl KeyRange {
    /// A well-formed range has `min <= max`.
    pub open spec fn wf(&self) -> bool {
        lex_le(self.min@, self.max@)
    }

    /// Builds the range `[min, max]`.
    pub fn new(min: Vec<u8>, max: Vec<u8>) -> (r: KeyRange)
        ensures
            r.min@ == min@,
            r.max@ == max@,
    {
        KeyRange { min, max }
    }

    /// Whether a key lies in the range.
    pub open spec fn spec_contains_key(&self, key: Seq<u8>) -> bool {
        lex_le(self.min@, key) && lex_le(key, self.max@)
    }

    /// Whether `key` lies between the endpoints, inclusively.
    pub fn contains_key(&self, key: &[u8]) -> (r: bool)
        ensures
            r == self.spec_contains_key(key@),
    {
        bytes_le(self.min.as_slice(), key) && bytes_le(key, self.max.as_slice())
    }

    /// Whether two ranges share at least one key.
    pub open spec fn spec_overlaps(&self, other: &KeyRange) -> bool {
        lex_le(self.min@, other.max@) && lex_le(other.min@, self.max@)
    }

    /// Whether this range and `other` share at least one key.
    pub fn overlaps_with(&self, other: &KeyRange) -> (r: bool)
        ensures
            r == self.spec_overlaps(other),
    {
        bytes_le(self.min.as_slice(), other.max.as_slice()) && bytes_le(
            other.min.as_slice(),
            self.max.as_slice(),
        )
    }
}

} // verus!
