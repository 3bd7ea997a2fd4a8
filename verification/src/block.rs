//! The block codec: every on-disk block is a 24-byte header followed by an
//! optionally compressed payload, checksummed with xxh3.

use vstd::prelude::*;

use crate::coding::{
    get_u32_le, get_u64_le, put_u32_le, put_u64_le, spec_le32, spec_le64, spec_u32_of_le,
    spec_u64_of_le,
};
use crate::compression::{spec_compress, spec_decompress, CompressionType};
use crate::compression::{compress_payload, decompress_payload};
use crate::error::LsmError;
use crate::hashes::{xxh3_64, xxh3_64_of};

verus! {

/// Number of bytes a block header occupies on disk.
pub open spec fn spec_header_len() -> int {
    24
}

/// A block header: checksum of the uncompressed payload, compressed and
/// uncompressed lengths, and the file offset of the previous block (to
/// enable backward scans).
#[derive(Clone, Copy, Debug, PartialEq, Eq)]
pub struct Header {
    /// xxh3 checksum of the uncompressed payload.
    pub checksum: u64,
    /// Length of the payload as stored (compressed).
    pub data_length: u32,
    /// Length of the payload after decompression.
    pub uncompressed_length: u32,
    /// File offset of the previous block.
    pub previous_block_offset: u64,
}

/// The 24 header bytes: checksum, data length, uncompressed length,
/// previous block offset, all little-endian.
pub open spec fn spec_header_encoded(h: Header) -> Seq<u8> {
    spec_le64(h.checksum) + spec_le32(h.data_length) + spec_le32(h.uncompressed_length) + spec_le64(
        h.previous_block_offset,
    )
}

/// The header denoted by 24 bytes starting at `pos`.
pub open spec fn spec_header_decoded(bytes: Seq<u8>, pos: int) -> Header
    recommends
        0 <= pos,
        pos + 24 <= bytes.len(),
{
    Header {
        checksum: spec_u64_of_le(
            bytes[pos],
            bytes[pos + 1],
            bytes[pos + 2],
            bytes[pos + 3],
            bytes[pos + 4],
            bytes[pos + 5],
            bytes[pos + 6],
            bytes[pos + 7],
        ),
        data_length: spec_u32_of_le(bytes[pos + 8], bytes[pos + 9], bytes[pos + 10], bytes[pos + 11]),
        uncompressed_length: spec_u32_of_le(
            bytes[pos + 12],
            bytes[pos + 13],
            bytes[pos + 14],
            bytes[pos + 15],
        ),
        previous_block_offset: spec_u64_of_le(
            bytes[pos + 16],
            bytes[pos + 17],
            bytes[pos + 18],
            bytes[pos + 19],
            bytes[pos + 20],
            bytes[pos + 21],
            bytes[pos + 22],
            bytes[pos + 23],
        ),
    }
}

/// Decoding the encoded header yields the header back, wherever it stands.
pub proof fn lemma_header_round_trip(bytes: Seq<u8>, pos: int, h: Header)
    requires
        0 <= pos,
        pos + 24 <= bytes.len(),
        bytes.subrange(pos, pos + 24) == spec_header_encoded(h),
    ensures
        spec_header_decoded(bytes, pos) == h,
{
    let enc = spec_header_encoded(h);
    assert forall|j: int| 0 <= j < 24 implies bytes[pos + j] == enc[j] by {
        assert(bytes.subrange(pos, pos + 24)[j] == bytes[pos + j]);
    }
    assert(enc.subrange(0, 8) =~= spec_le64(h.checksum));
    assert(enc.subrange(8, 12) =~= spec_le32(h.data_length));
    assert(enc.subrange(12, 16) =~= spec_le32(h.uncompressed_length));
    assert(enc.subrange(16, 24) =~= spec_le64(h.previous_block_offset));
    crate::coding::lemma_le64_round_trip(h.checksum);
    crate::coding::lemma_le32_round_trip(h.data_length);
    crate::coding::lemma_le32_round_trip(h.uncompressed_length);
    crate::coding::lemma_le64_round_trip(h.previous_block_offset);
    assert(spec_header_decoded(bytes, pos).checksum == h.checksum);
    assert(spec_header_decoded(bytes, pos).data_length == h.data_length);
    assert(spec_header_decoded(bytes, pos).uncompressed_length == h.uncompressed_length);
    assert(spec_header_decoded(bytes, pos).previous_block_offset == h.previous_block_offset);
}

impl Header {
    /// Appends the 24 header bytes to `out`.
    pub fn encode_into(&self, out: &mut Vec<u8>)
        ensures
            final(out)@ == old(out)@ + spec_header_encoded(*self),
    {
        put_u64_le(out, self.checksum);
        put_u32_le(out, self.data_length);
        put_u32_le(out, self.uncompressed_length);
        put_u64_le(out, self.previous_block_offset);
        proof {
            assert(out@ =~= old(out)@ + spec_header_encoded(*self));
        }
    }

    /// Reads the 24 header bytes at `pos`.
    pub fn decode_at(bytes: &[u8], pos: usize) -> (r: Header)
        requires
            pos + 24 <= bytes@.len(),
        ensures
            r == spec_header_decoded(bytes@, pos as int),
            bytes@.subrange(pos as int, pos + 24) == spec_header_encoded(r),
    {
        let _n: usize = bytes.len();
        let checksum = get_u64_le(bytes, pos);
        let data_length = get_u32_le(bytes, pos + 8);
        let uncompressed_length = get_u32_le(bytes, pos + 12);
        let previous_block_offset = get_u64_le(bytes, pos + 16);
        let r = Header { checksum, data_length, uncompressed_length, previous_block_offset };
        proof {
            assert(bytes@.subrange(pos as int, pos + 24) =~= spec_header_encoded(r));
        }
        r
    }
}

/// A block read back from disk: its header and its uncompressed payload.
#[derive(Clone, Debug, PartialEq, Eq)]
pub struct Block {
    /// The header as stored.
    pub header: Header,
    /// The uncompressed payload.
    pub data: Vec<u8>,
}

/// What reading a block region yields at the spec level: the uncompressed
/// payload, or nothing if the region is malformed (too small, wrong payload
/// length, undecodable payload, wrong uncompressed length, or checksum
/// mismatch).
#[verifier::opaque]
pub open spec fn spec_block_at(bytes: Seq<u8>, off: int, size: int, c: CompressionType) -> Option<
    Seq<u8>,
> {
    if 0 <= off && size >= 24 && off + size <= bytes.len() {
        let h = spec_header_decoded(bytes, off);
        let payload = bytes.subrange(off + 24, off + size);
        if h.data_length == size - 24 {
            match spec_decompress(payload, c) {
                Some(d) => if d.len() == h.uncompressed_length && xxh3_64_of(d) == h.checksum {
                    Some(d)
                } else {
                    None
                },
                None => None,
            }
        } else {
            None
        }
    } else {
        None
    }
}

/// A region beginning past the end of the buffer reads as nothing.
pub proof fn lemma_block_at_oob(bytes: Seq<u8>, off: int, size: int, c: CompressionType)
    requires
        off > bytes.len() || size < 24,
    ensures
        spec_block_at(bytes, off, size, c) is None,
{
    reveal(spec_block_at);
}

/// Which error a failing block read reports: `Corrupt` for a region that
/// is out of bounds or whose stored length disagrees with the handle,
/// `Decompress` when the payload does not decode to the recorded
/// uncompressed length, and `Checksum` when only the hash mismatches.
pub open spec fn spec_block_err_kind(
    bytes: Seq<u8>,
    off: int,
    size: int,
    c: CompressionType,
) -> LsmError {
    if !(0 <= off && size >= 24 && off + size <= bytes.len()) {
        LsmError::Corrupt
    } else if spec_header_decoded(bytes, off).data_length != size - 24 {
        LsmError::Corrupt
    } else {
        match spec_decompress(bytes.subrange(off + 24, off + size), c) {
            None => LsmError::Decompress(c.spec_tag()),
            Some(d) => if d.len() != spec_header_decoded(bytes, off).uncompressed_length {
                LsmError::Decompress(c.spec_tag())
            } else {
                LsmError::Checksum
            },
        }
    }
}

impl Block {
    /// Returns the uncompressed block size in bytes.
    pub fn size(&self) -> (r: usize)
        ensures
            r == self.data@.len(),
    {
        self.data.len()
    }

    /// Compresses `data`, fills a header with its checksum and lengths, and
    /// appends header and payload to `out`.  Returns the written header.
    /// Fails with `Corrupt` only if the compressed payload cannot be sized
    /// in 32 bits.
    pub fn write_into(out: &mut Vec<u8>, data: &[u8], compression: &CompressionType) -> (r: Result<
        Header,
        LsmError,
    >)
        requires
            compression.wf(),
            data@.len() <= u32::MAX,
        ensures
            match r {
                Ok(h) => {
                    &&& h.checksum == xxh3_64_of(data@)
                    &&& h.uncompressed_length == data@.len()
                    &&& h.data_length == spec_compress(data@, *compression).len()
                    &&& h.previous_block_offset == 0
                    &&& final(out)@ == old(out)@ + spec_header_encoded(h) + spec_compress(
                        data@,
                        *compression,
                    )
                    &&& spec_block_at(
                        final(out)@,
                        old(out)@.len() as int,
                        24 + spec_compress(data@, *compression).len() as int,
                        *compression,
                    ) == Some(data@)
                },
                Err(e) => {
                    &&& e == LsmError::Corrupt
                    &&& spec_compress(data@, *compression).len() > u32::MAX
                    &&& final(out)@ == old(out)@
                },
            },
    {
        proof {
            reveal(spec_block_at);
        }
        let checksum = xxh3_64(data);
        let compressed = compress_payload(data, compression);
        if compressed.len() > (u32::MAX as usize) {
            return Err(LsmError::Corrupt);
        }
        let header = Header {
            checksum,
            data_length: compressed.len() as u32,
            uncompressed_length: data.len() as u32,
            previous_block_offset: 0,
        };
        let ghost base = out@.len() as int;
        header.encode_into(out);
        let mut i: usize = 0;
        while i < compressed.len()
            invariant
                0 <= i <= compressed@.len(),
                out@ == old(out)@ + spec_header_encoded(header) + compressed@.subrange(
                    0,
                    i as int,
                ),
            decreases compressed@.len() - i,
        {
            out.push(compressed[i]);
            proof {
                assert(out@ =~= old(out)@ + spec_header_encoded(header) + compressed@.subrange(
                    0,
                    i + 1,
                ));
            }
            i = i + 1;
        }
        proof {
            assert(out@ =~= old(out)@ + spec_header_encoded(header) + compressed@);
            let size = 24 + compressed@.len() as int;
            assert(out@.subrange(base, base + 24) =~= spec_header_encoded(header));
            lemma_header_round_trip(out@, base, header);
            assert(out@.subrange(base + 24, base + size) =~= compressed@);
            assert(spec_block_at(out@, base, size, *compression) == Some(data@));
        }
        Ok(header)
    }

    /// Reads the block stored at `[offset, offset + size)`: decodes the
    /// header, decompresses the payload, and verifies length and checksum.
    /// Fails with `Corrupt` when the region is out of bounds or mis-sized,
    /// `Decompress` when the payload does not decode to the recorded
    /// length, and `Checksum` when the payload hash mismatches.
    pub fn from_slice(bytes: &[u8], offset: usize, size: usize, compression: &CompressionType) -> (r:
        Result<Block, LsmError>)
        ensures
            match r {
                Ok(b) => {
                    &&& spec_block_at(bytes@, offset as int, size as int, *compression) == Some(
                        b.data@,
                    )
                    &&& b.header == spec_header_decoded(bytes@, offset as int)
                    &&& b.data@.len() == b.header.uncompressed_length
                },
                Err(e) => {
                    &&& spec_block_at(bytes@, offset as int, size as int, *compression) is None
                    &&& e == spec_block_err_kind(
                        bytes@,
                        offset as int,
                        size as int,
                        *compression,
                    )
                },
            },
    {
        proof {
            reveal(spec_block_at);
        }
        let _n: usize = bytes.len();
        if size < 24 {
            return Err(LsmError::Corrupt);
        }
        if offset > bytes.len() || size > bytes.len() - offset {
            return Err(LsmError::Corrupt);
        }
        let header = Header::decode_at(bytes, offset);
        if (header.data_length as usize) != size - 24 {
            return Err(LsmError::Corrupt);
        }
        let payload = vstd::slice::slice_subrange(bytes, offset + 24, offset + size);
        let data = match decompress_payload(payload, compression, header.uncompressed_length as usize) {
            Ok(d) => d,
            Err(e) => {
                return Err(e);
            },
        };
        let actual = xxh3_64(data.as_slice());
        if actual != header.checksum {
            return Err(LsmError::Checksum);
        }
        Ok(Block { header, data })
    }
}

} // verus!
