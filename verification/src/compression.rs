//! Pluggable block compression: none, LZ4, or DEFLATE (miniz), with the
//! stable two-byte on-disk tag encoding.

use vstd::prelude::*;

use crate::error::LsmError;

verus! {

/// How block payloads of a segment are compressed.  Recorded once in the
/// segment metadata, not per block.
#[derive(Clone, Copy, Debug, PartialEq, Eq)]
pub enum CompressionType {
    /// Payloads are stored as they are.
    NoCompression,
    /// LZ4 compression: fast, moderate ratio.
    Lz4,
    /// zlib/DEFLATE compression with a level from 0 (none) to 10 (smallest).
    Miniz(u8),
}

impl CompressionType {
    /// A compression kind the format accepts: a miniz level is at most 10.
    pub open spec fn wf(self) -> bool {
        match self {
            CompressionType::Miniz(level) => level <= 10,
            _ => true,
        }
    }

    /// The stable two-byte tag: `0 = none, 1 = lz4, 2 = miniz(level)`,
    /// padded to two bytes.
    pub open spec fn spec_encoded(self) -> Seq<u8> {
        match self {
            CompressionType::NoCompression => seq![0u8, 0u8],
            CompressionType::Lz4 => seq![1u8, 0u8],
            CompressionType::Miniz(level) => seq![2u8, level],
        }
    }

    /// The tag byte alone, used in `Decompress` errors.
    pub open spec fn spec_tag(self) -> u8 {
        match self {
            CompressionType::NoCompression => 0u8,
            CompressionType::Lz4 => 1u8,
            CompressionType::Miniz(_) => 2u8,
        }
    }

    /// Returns the tag byte of this compression kind.
    pub fn tag(&self) -> (r: u8)
        ensures
            r == self.spec_tag(),
    {
        match self {
            CompressionType::NoCompression => 0,
            CompressionType::Lz4 => 1,
            CompressionType::Miniz(_) => 2,
        }
    }

    /// Appends the two-byte encoding to `out`.
    pub fn encode_into(&self, out: &mut Vec<u8>)
        ensures
            final(out)@ == old(out)@ + self.spec_encoded(),
    {
        match self {
            CompressionType::NoCompression => {
                out.push(0);
                out.push(0);
            },
            CompressionType::Lz4 => {
                out.push(1);
                out.push(0);
            },
            CompressionType::Miniz(level) => {
                out.push(2);
                out.push(*level);
            },
        }
        proof {
            assert(out@ =~= old(out)@ + self.spec_encoded());
        }
    }

    /// Reads the two-byte encoding at `pos`.  An unknown tag yields
    /// `InvalidTag`; a bad pad byte or miniz level yields `Corrupt`.
    pub fn decode_from(bytes: &[u8], pos: usize) -> (r: Result<CompressionType, LsmError>)
        requires
            pos + 2 <= bytes@.len(),
        ensures
            match r {
                Ok(c) => c.wf() && bytes@.subrange(pos as int, pos + 2) == c.spec_encoded(),
                Err(e) => {
                    &&& forall|c: CompressionType|
                        c.wf() ==> bytes@.subrange(pos as int, pos + 2) != c.spec_encoded()
                    &&& e == (if bytes@[pos as int] == 0 || bytes@[pos as int] == 1 || bytes@[
                        pos as int] == 2 {
                        LsmError::Corrupt
                    } else {
                        LsmError::InvalidTag(bytes@[pos as int])
                    })
                },
            },
    {
        let tag = bytes[pos];
        let arg = bytes[pos + 1];
        let ghost enc = bytes@.subrange(pos as int, pos + 2);
        proof {
            assert(enc =~= seq![bytes@[pos as int], bytes@[pos + 1]]);
        }
        match tag {
            0 => {
                if arg == 0 {
                    proof {
                        assert(enc =~= CompressionType::NoCompression.spec_encoded());
                    }
                    Ok(CompressionType::NoCompression)
                } else {
                    Err(LsmError::Corrupt)
                }
            },
            1 => {
                if arg == 0 {
                    proof {
                        assert(enc =~= CompressionType::Lz4.spec_encoded());
                    }
                    Ok(CompressionType::Lz4)
                } else {
                    Err(LsmError::Corrupt)
                }
            },
            2 => {
                if arg <= 10 {
                    proof {
                        assert(enc =~= CompressionType::Miniz(arg).spec_encoded());
                    }
                    Ok(CompressionType::Miniz(arg))
                } else {
                    Err(LsmError::Corrupt)
                }
            },
            _ => Err(LsmError::InvalidTag(tag)),
        }
    }
}

/// The compression kind a two-byte encoding denotes, if any.
pub open spec fn spec_compression_decoded(b: Seq<u8>) -> Option<CompressionType> {
    if b.len() != 2 {
        None
    } else if b[0] == 0 && b[1] == 0 {
        Some(CompressionType::NoCompression)
    } else if b[0] == 1 && b[1] == 0 {
        Some(CompressionType::Lz4)
    } else if b[0] == 2 && b[1] <= 10 {
        Some(CompressionType::Miniz(b[1]))
    } else {
        None
    }
}

/// What LZ4 makes of a byte string.  A function of the input alone.
pub uninterp spec fn lz4_compressed(data: Seq<u8>) -> Seq<u8>;

/// What LZ4 decoding makes of a byte string: the decoded bytes, or nothing
/// if the input is not a valid LZ4 block.  A function of the input alone.
pub uninterp spec fn lz4_decompressed(data: Seq<u8>) -> Option<Seq<u8>>;

/// What DEFLATE at a given level makes of a byte string.  A function of the
/// input and level alone.
pub uninterp spec fn miniz_compressed(data: Seq<u8>, level: u8) -> Seq<u8>;

/// What DEFLATE decoding makes of a byte string: the decoded bytes, or
/// nothing if the input is not a valid DEFLATE stream.  A function of the
/// input alone.
pub uninterp spec fn miniz_decompressed(data: Seq<u8>) -> Option<Seq<u8>>;

/// Relies on `lz4_flex::block::compress`, and on `lz4_flex::block::decompress`
/// decoding its output back to the input (the documented block round trip).
#[verifier::external_body]
fn lz4_compress(data: &[u8]) -> (r: Vec<u8>)
    ensures
        r@ == lz4_compressed(data@),
        lz4_decompressed(r@) == Some(data@),
{
    lz4_flex::block::compress(data)
}

/// Relies on `lz4_flex::block::decompress` (safe decoder): with a buffer of
/// `max_len` bytes it returns the full decoding if it fits, and fails if the
/// input is malformed or the decoding is larger than the buffer.
#[verifier::external_body]
fn lz4_decompress(data: &[u8], max_len: usize) -> (r: Option<Vec<u8>>)
    ensures
        match r {
            Some(v) => lz4_decompressed(data@) == Some(v@) && v@.len() <= max_len,
            None => match lz4_decompressed(data@) {
                Some(d) => d.len() > max_len,
                None => true,
            },
        },
{
    lz4_flex::block::decompress(data, max_len).ok()
}

/// Relies on `miniz_oxide::deflate::compress_to_vec`, and on
/// `miniz_oxide::inflate::decompress_to_vec` decoding its output back to the
/// input (the documented round trip).
#[verifier::external_body]
fn miniz_compress(data: &[u8], level: u8) -> (r: Vec<u8>)
    requires
        level <= 10,
    ensures
        r@ == miniz_compressed(data@, level),
        miniz_decompressed(r@) == Some(data@),
{
    miniz_oxide::deflate::compress_to_vec(data, level)
}

/// Relies on `miniz_oxide::inflate::decompress_to_vec`: returns the decoded
/// bytes, or fails on a malformed DEFLATE stream.
#[verifier::external_body]
fn miniz_decompress(data: &[u8]) -> (r: Option<Vec<u8>>)
    ensures
        match r {
            Some(v) => miniz_decompressed(data@) == Some(v@),
            None => miniz_decompressed(data@) is None,
        },
{
    miniz_oxide::inflate::decompress_to_vec(data).ok()
}

/// The payload a block carries on disk for uncompressed data `d` under
/// compression `c`.
pub open spec fn spec_compress(d: Seq<u8>, c: CompressionType) -> Seq<u8> {
    match c {
        CompressionType::NoCompression => d,
        CompressionType::Lz4 => lz4_compressed(d),
        CompressionType::Miniz(level) => miniz_compressed(d, level),
    }
}

/// What decoding an on-disk payload under compression `c` yields.
pub open spec fn spec_decompress(d: Seq<u8>, c: CompressionType) -> Option<Seq<u8>> {
    match c {
        CompressionType::NoCompression => Some(d),
        CompressionType::Lz4 => lz4_decompressed(d),
        CompressionType::Miniz(_) => miniz_decompressed(d),
    }
}

/// Compresses a block payload.
pub fn compress_payload(data: &[u8], c: &CompressionType) -> (r: Vec<u8>)
    requires
        c.wf(),
    ensures
        r@ == spec_compress(data@, *c),
        spec_decompress(r@, *c) == Some(data@),
{
    match c {
        CompressionType::NoCompression => slice_to_vec(data),
        CompressionType::Lz4 => lz4_compress(data),
        CompressionType::Miniz(level) => miniz_compress(data, *level),
    }
}

/// Decompresses a block payload that must decode to exactly
/// `uncompressed_len` bytes.  Fails with `Decompress` when the decoder
/// rejects the bytes or the length does not match.
pub fn decompress_payload(data: &[u8], c: &CompressionType, uncompressed_len: usize) -> (r: Result<
    Vec<u8>,
    LsmError,
>)
    ensures
        match r {
            Ok(v) => {
                &&& spec_decompress(data@, *c) == Some(v@)
                &&& v@.len() == uncompressed_len
            },
            Err(e) => {
                &&& e == LsmError::Decompress(c.spec_tag())
                &&& match spec_decompress(data@, *c) {
                    Some(d) => d.len() != uncompressed_len,
                    None => true,
                }
            },
        },
{
    match c {
        CompressionType::NoCompression => {
            if data.len() == uncompressed_len {
                Ok(slice_to_vec(data))
            } else {
                Err(LsmError::Decompress(0))
            }
        },
        CompressionType::Lz4 => {
            match lz4_decompress(data, uncompressed_len) {
                Some(v) => {
                    if v.len() == uncompressed_len {
                        Ok(v)
                    } else {
                        Err(LsmError::Decompress(1))
                    }
                },
                None => Err(LsmError::Decompress(1)),
            }
        },
        CompressionType::Miniz(_) => {
            match miniz_decompress(data) {
                Some(v) => {
                    if v.len() == uncompressed_len {
                        Ok(v)
                    } else {
                        Err(LsmError::Decompress(2))
                    }
                },
                None => Err(LsmError::Decompress(2)),
            }
        },
    }
}

/// Copies a byte slice into a fresh vector.
fn slice_to_vec(data: &[u8]) -> (r: Vec<u8>)
    ensures
        r@ == data@,
{
    let mut out: Vec<u8> = Vec::new();
    let mut i: usize = 0;
    while i < data.len()
        invariant
            0 <= i <= data@.len(),
            out@ == data@.subrange(0, i as int),
        decreases data@.len() - i,
    {
        out.push(data[i]);
        proof {
            assert(out@ =~= data@.subrange(0, i + 1));
        }
        i = i + 1;
    }
    proof {
        assert(out@ =~= data@);
    }
    out
}

} // verus!
