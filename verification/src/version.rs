//! Format version and the five-byte file header: the magic bytes `LSM`
//! followed by a big-endian version number.

use vstd::prelude::*;

use crate::coding::{put_u16_be, spec_be16, spec_u16_of_be};

verus! {

/// On-disk format versions this build understands.
#[derive(Clone, Copy, Debug, PartialEq, Eq)]
pub enum Version {
    /// The first and only format version.
    V0,
}

/// The magic bytes `L S M` opening every header.
pub open spec fn spec_magic() -> Seq<u8> {
    seq![76u8, 83u8, 77u8]
}

/// The five header bytes for a version: magic, then the version number in
/// big-endian.
pub open spec fn spec_file_header(v: Version) -> Seq<u8> {
    spec_magic() + spec_be16(v.spec_code())
}

impl Version {
    /// The number this version is written as.
    pub open spec fn spec_code(self) -> u16 {
        match self {
            Version::V0 => 0,
        }
    }

    /// Returns the version number written to disk.
    pub fn code(&self) -> (r: u16)
        ensures
            r == self.spec_code(),
    {
        match self {
            Version::V0 => 0,
        }
    }

    /// The version a number denotes, if any.
    pub fn from_code(value: u16) -> (r: Option<Version>)
        ensures
            match r {
                Some(v) => v.spec_code() == value,
                None => forall|v: Version| v.spec_code() != value,
            },
    {
        match value {
            0 => Some(Version::V0),
            _ => None,
        }
    }

    /// The length of a file header in bytes.
    pub fn len() -> (r: u8)
        ensures
            r == spec_file_header(Version::V0).len(),
    {
        proof {
            assert(spec_file_header(Version::V0).len() == 5);
        }
        5
    }

    /// Parses the five-byte header: the magic bytes followed by a known
    /// version number.
    pub fn parse_file_header(bytes: &[u8]) -> (r: Option<Version>)
        ensures
            match r {
                Some(v) => {
                    &&& bytes@.len() >= 5
                    &&& bytes@.subrange(0, 5) == spec_file_header(v)
                },
                None => forall|v: Version|
                    !(bytes@.len() >= 5 && bytes@.subrange(0, 5) == spec_file_header(v)),
            },
    {
        if bytes.len() < 5 {
            return None;
        }
        if !(bytes[0] == 76 && bytes[1] == 83 && bytes[2] == 77) {
            proof {
                assert forall|v: Version|
                    !(bytes@.len() >= 5 && bytes@.subrange(0, 5) == spec_file_header(
                        v,
                    )) by {
                    if bytes@.subrange(0, 5) == spec_file_header(v) {
                        assert(bytes@.subrange(0, 5)[0] == bytes@[0]);
                        assert(bytes@.subrange(0, 5)[1] == bytes@[1]);
                        assert(bytes@.subrange(0, 5)[2] == bytes@[2]);
                    }
                }
            }
            return None;
        }
        let code = crate::coding::get_u16_be(bytes, 3);
        let r = Self::from_code(code);
        proof {
            let hdr = bytes@.subrange(0, 5);
            match r {
                Some(v) => {
                    assert(v.spec_code() == code);
                    assert(hdr =~= spec_file_header(v)) by {
                        assert(bytes@.subrange(3, 5) == spec_be16(code));
                        assert forall|j: int| 0 <= j < 5 implies hdr[j] == spec_file_header(v)[j]
                            by {
                            if j >= 3 {
                                assert(bytes@.subrange(3, 5)[j - 3] == bytes@[j]);
                            }
                        }
                    }
                },
                None => {
                    assert forall|v: Version|
                        !(bytes@.len() >= 5 && bytes@.subrange(0, 5) == spec_file_header(
                            v,
                        )) by {
                        if bytes@.len() >= 5 && bytes@.subrange(0, 5) == spec_file_header(v) {
                            assert(hdr[3] == bytes@[3] && hdr[4] == bytes@[4]);
                            assert(spec_file_header(v)[3] == spec_be16(v.spec_code())[0]);
                            assert(spec_file_header(v)[4] == spec_be16(v.spec_code())[1]);
                            crate::coding::lemma_be16_round_trip(v.spec_code());
                            assert(code == spec_u16_of_be(bytes@[3], bytes@[4]));
                            assert(v.spec_code() != code);
                        }
                    }
                },
            }
        }
        r
    }

    /// Appends the five-byte header for this version to `out` and returns
    /// the number of bytes written.
    pub fn write_file_header(self, out: &mut Vec<u8>) -> (r: usize)
        ensures
            final(out)@ == old(out)@ + spec_file_header(self),
            r == 5,
    {
        out.push(76);
        out.push(83);
        out.push(77);
        put_u16_be(out, self.code());
        proof {
            assert(out@ =~= old(out)@ + spec_file_header(self));
        }
        5
    }
}

} // verus!
