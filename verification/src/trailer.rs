//! The fixed-size segment trailer: magic bytes, format version, and the
//! block handles for top-level index, partitioned index, filter and
//! metadata.  It sits at the very end of the file so it can be read first.

use vstd::prelude::*;

use crate::coding::{get_u32_le, get_u64_le, put_u32_le, put_u64_le, spec_le32, spec_le64};
use crate::error::LsmError;
use crate::index_block::BlockHandle;
use crate::version::{spec_file_header, Version};

verus! {

/// Total size of a trailer on disk: five header bytes and four handles of
/// twelve bytes each.
pub open spec fn spec_trailer_len() -> int {
    53
}

/// Where the segment's blocks live, read from the end of the file.  A zero
/// offset stands for an absent optional section.
#[derive(Clone, Debug, PartialEq, Eq)]
pub struct SegmentTrailer {
    /// Handle of the top-level index block.
    pub tli: BlockHandle,
    /// Handle of the partitioned index section, when present.
    pub index_blocks: Option<BlockHandle>,
    /// Handle of the filter block, when present.
    pub filter: Option<BlockHandle>,
    /// Handle of the metadata block.
    pub metadata: BlockHandle,
}

/// Twelve bytes for one handle: offset, then size, little-endian.
pub open spec fn spec_handle12(h: BlockHandle) -> Seq<u8> {
    spec_le64(h.offset) + spec_le32(h.size)
}

/// Twelve bytes for an optional handle: zeroes when absent.
pub open spec fn spec_opt_handle12(h: Option<BlockHandle>) -> Seq<u8> {
    match h {
        Some(h) => spec_handle12(h),
        None => spec_handle12(BlockHandle { offset: 0, size: 0 }),
    }
}

/// The 53 trailer bytes: the file header (magic and version), then the
/// handles for TLI, partitioned index, filter and metadata.
pub open spec fn spec_trailer_encoded(t: SegmentTrailer) -> Seq<u8> {
    spec_file_header(Version::V0) + spec_handle12(t.tli) + spec_opt_handle12(t.index_blocks)
        + spec_opt_handle12(t.filter) + spec_handle12(t.metadata)
}

/// What parsing the trailer region at the end of `bytes` yields.  Fails on
/// short files, bad magic, unknown versions, an absent TLI or metadata
/// handle, or an optional handle with a zero offset but nonzero size.
pub open spec fn spec_trailer_parse(bytes: Seq<u8>) -> Option<SegmentTrailer> {
    if bytes.len() < 53 {
        None
    } else {
        let t = bytes.len() - 53;
        if bytes.subrange(t as int, t + 5) != spec_file_header(Version::V0) {
            None
        } else {
            let tli = spec_handle_at(bytes, t + 5);
            let ib = spec_handle_at(bytes, t + 17);
            let fl = spec_handle_at(bytes, t + 29);
            let md = spec_handle_at(bytes, t + 41);
            if tli.offset == 0 || md.offset == 0 || (ib.offset == 0 && ib.size != 0) || (fl.offset
                == 0 && fl.size != 0) {
                None
            } else {
                Some(
                    SegmentTrailer {
                        tli,
                        index_blocks: if ib.offset == 0 {
                            None
                        } else {
                            Some(ib)
                        },
                        filter: if fl.offset == 0 {
                            None
                        } else {
                            Some(fl)
                        },
                        metadata: md,
                    },
                )
            }
        }
    }
}

/// The handle denoted by twelve bytes at `pos`.
pub open spec fn spec_handle_at(bytes: Seq<u8>, pos: int) -> BlockHandle
    recommends
        0 <= pos,
        pos + 12 <= bytes.len(),
{
    BlockHandle {
        offset: crate::coding::spec_u64_of_le(
            bytes[pos],
            bytes[pos + 1],
            bytes[pos + 2],
            bytes[pos + 3],
            bytes[pos + 4],
            bytes[pos + 5],
            bytes[pos + 6],
            bytes[pos + 7],
        ),
        size: crate::coding::spec_u32_of_le(
            bytes[pos + 8],
            bytes[pos + 9],
            bytes[pos + 10],
            bytes[pos + 11],
        ),
    }
}

impl SegmentTrailer {
    /// A writable trailer: the mandatory handles are at nonzero offsets and
    /// the optional ones, when present, too.
    pub open spec fn wf(&self) -> bool {
        &&& self.tli.offset != 0
        &&& self.metadata.offset != 0
        &&& (self.index_blocks is Some ==> self.index_blocks.unwrap().offset != 0)
        &&& (self.filter is Some ==> self.filter.unwrap().offset != 0)
    }

    /// Appends the 53 trailer bytes to `out`.
    pub fn encode_into(&self, out: &mut Vec<u8>)
        ensures
            final(out)@ == old(out)@ + spec_trailer_encoded(*self),
    {
        Version::V0.write_file_header(out);
        put_handle12(out, &self.tli);
        match &self.index_blocks {
            Some(h) => put_handle12(out, h),
            None => put_handle12(out, &BlockHandle { offset: 0, size: 0 }),
        }
        match &self.filter {
            Some(h) => put_handle12(out, h),
            None => put_handle12(out, &BlockHandle { offset: 0, size: 0 }),
        }
        put_handle12(out, &self.metadata);
        proof {
            assert(out@ =~= old(out)@ + spec_trailer_encoded(*self));
        }
    }

    /// Parses the trailer from the end of a file image.
    pub fn parse(bytes: &[u8]) -> (r: Result<SegmentTrailer, LsmError>)
        ensures
            match r {
                Ok(t) => spec_trailer_parse(bytes@) == Some(t) && t.wf(),
                Err(_) => spec_trailer_parse(bytes@) is None,
            },
    {
        let _n: usize = bytes.len();
        if bytes.len() < 53 {
            return Err(LsmError::Corrupt);
        }
        let t = bytes.len() - 53;
        let head = vstd::slice::slice_subrange(bytes, t, t + 5);
        let version = match Version::parse_file_header(head) {
            Some(v) => v,
            None => {
                proof {
                    if bytes@.subrange(t as int, t + 5) == spec_file_header(Version::V0) {
                        assert(head@.len() >= 5);
                        assert(head@.subrange(0, 5) =~= bytes@.subrange(t as int, t + 5));
                    }
                }
                return Err(LsmError::InvalidMagic);
            },
        };
        proof {
            assert(head@.subrange(0, 5) =~= bytes@.subrange(t as int, t + 5));
        }
        let tli = get_handle12(bytes, t + 5);
        let ib = get_handle12(bytes, t + 17);
        let fl = get_handle12(bytes, t + 29);
        let md = get_handle12(bytes, t + 41);
        if tli.offset == 0 || md.offset == 0 {
            return Err(LsmError::Corrupt);
        }
        if ib.offset == 0 && ib.size != 0 {
            return Err(LsmError::Corrupt);
        }
        if fl.offset == 0 && fl.size != 0 {
            return Err(LsmError::Corrupt);
        }
        let index_blocks = if ib.offset == 0 {
            None
        } else {
            Some(ib)
        };
        let filter = if fl.offset == 0 {
            None
        } else {
            Some(fl)
        };
        Ok(SegmentTrailer { tli, index_blocks, filter, metadata: md })
    }
}

/// Appends twelve handle bytes to `out`.
fn put_handle12(out: &mut Vec<u8>, h: &BlockHandle)
    ensures
        final(out)@ == old(out)@ + spec_handle12(*h),
{
    put_u64_le(out, h.offset);
    put_u32_le(out, h.size);
    proof {
        assert(out@ =~= old(out)@ + spec_handle12(*h));
    }
}

/// Reads twelve handle bytes at `pos`.
fn get_handle12(bytes: &[u8], pos: usize) -> (r: BlockHandle)
    requires
        pos + 12 <= bytes@.len(),
    ensures
        r == spec_handle_at(bytes@, pos as int),
{
    let _n: usize = bytes.len();
    let offset = get_u64_le(bytes, pos);
    let size = get_u32_le(bytes, pos + 8);
    BlockHandle { offset, size }
}

/// Parsing an encoded trailer at the end of a buffer yields it back.
pub proof fn lemma_trailer_round_trip(bytes: Seq<u8>, t: SegmentTrailer)
    requires
        t.wf(),
        bytes.len() >= 53,
        bytes.subrange(bytes.len() - 53, bytes.len() as int) == spec_trailer_encoded(t),
    ensures
        spec_trailer_parse(bytes) == Some(t),
{
    let base = bytes.len() - 53;
    let enc = spec_trailer_encoded(t);
    crate::bytes_util::lemma_sub_piece(bytes, base as int, enc, 0, 5);
    assert(enc.subrange(0, 5) =~= spec_file_header(Version::V0));
    crate::bytes_util::lemma_sub_piece(bytes, base as int, enc, 5, 17);
    crate::bytes_util::lemma_sub_piece(bytes, base as int, enc, 17, 29);
    crate::bytes_util::lemma_sub_piece(bytes, base as int, enc, 29, 41);
    crate::bytes_util::lemma_sub_piece(bytes, base as int, enc, 41, 53);
    assert(enc.subrange(5, 17) =~= spec_handle12(t.tli));
    assert(enc.subrange(17, 29) =~= spec_opt_handle12(t.index_blocks));
    assert(enc.subrange(29, 41) =~= spec_opt_handle12(t.filter));
    assert(enc.subrange(41, 53) =~= spec_handle12(t.metadata));
    lemma_handle12_round_trip(bytes, base + 5, t.tli);
    match t.index_blocks {
        Some(h) => {
            lemma_handle12_round_trip(bytes, base + 17, h);
        },
        None => {
            lemma_handle12_round_trip(bytes, base + 17, BlockHandle { offset: 0, size: 0 });
        },
    }
    match t.filter {
        Some(h) => {
            lemma_handle12_round_trip(bytes, base + 29, h);
        },
        None => {
            lemma_handle12_round_trip(bytes, base + 29, BlockHandle { offset: 0, size: 0 });
        },
    }
    lemma_handle12_round_trip(bytes, base + 41, t.metadata);
}

/// Parsing twelve encoded handle bytes yields the handle back.
proof fn lemma_handle12_round_trip(bytes: Seq<u8>, pos: int, h: BlockHandle)
    requires
        0 <= pos,
        pos + 12 <= bytes.len(),
        bytes.subrange(pos, pos + 12) == spec_handle12(h),
    ensures
        spec_handle_at(bytes, pos) == h,
{
    let enc = spec_handle12(h);
    assert forall|j: int| 0 <= j < 12 implies bytes[pos + j] == #[trigger] enc[j] by {
        assert(bytes.subrange(pos, pos + 12)[j] == bytes[pos + j]);
    }
    assert(enc.subrange(0, 8) =~= spec_le64(h.offset));
    assert(enc.subrange(8, 12) =~= spec_le32(h.size));
    crate::coding::lemma_le64_round_trip(h.offset);
    crate::coding::lemma_le32_round_trip(h.size);
}

} // verus!
