//! Fixed-width little-endian and big-endian integers, and LEB128 varints,
//! encoded into and decoded out of byte buffers.

use vstd::prelude::*;

verus! {

/// Little-endian encoding of a `u16`.
pub open spec fn spec_le16(v: u16) -> Seq<u8> {
    seq![(v & 0xff) as u8, ((v >> 8) & 0xff) as u8]
}

/// Little-endian encoding of a `u32`.
pub open spec fn spec_le32(v: u32) -> Seq<u8> {
    seq![
        (v & 0xff) as u8,
        ((v >> 8) & 0xff) as u8,
        ((v >> 16) & 0xff) as u8,
        ((v >> 24) & 0xff) as u8,
    ]
}

/// Little-endian encoding of a `u64`.
pub open spec fn spec_le64(v: u64) -> Seq<u8> {
    seq![
        (v & 0xff) as u8,
        ((v >> 8) & 0xff) as u8,
        ((v >> 16) & 0xff) as u8,
        ((v >> 24) & 0xff) as u8,
        ((v >> 32) & 0xff) as u8,
        ((v >> 40) & 0xff) as u8,
        ((v >> 48) & 0xff) as u8,
        ((v >> 56) & 0xff) as u8,
    ]
}

/// Little-endian encoding of a `u128`.
pub open spec fn spec_le128(v: u128) -> Seq<u8> {
    spec_le64((v & 0xffff_ffff_ffff_ffff) as u64) + spec_le64((v >> 64) as u64)
}

/// Big-endian encoding of a `u16`.
pub open spec fn spec_be16(v: u16) -> Seq<u8> {
    seq![((v >> 8) & 0xff) as u8, (v & 0xff) as u8]
}

/// The `u16` denoted by two little-endian bytes.
pub open spec fn spec_u16_of_le(b0: u8, b1: u8) -> u16 {
    (b0 as u16) | ((b1 as u16) << 8)
}

/// The `u32` denoted by four little-endian bytes.
pub open spec fn spec_u32_of_le(b0: u8, b1: u8, b2: u8, b3: u8) -> u32 {
    (b0 as u32) | ((b1 as u32) << 8) | ((b2 as u32) << 16) | ((b3 as u32) << 24)
}

/// The `u64` denoted by eight little-endian bytes.
pub open spec fn spec_u64_of_le(
    b0: u8,
    b1: u8,
    b2: u8,
    b3: u8,
    b4: u8,
    b5: u8,
    b6: u8,
    b7: u8,
) -> u64 {
    (b0 as u64) | ((b1 as u64) << 8) | ((b2 as u64) << 16) | ((b3 as u64) << 24) | ((b4 as u64)
        << 32) | ((b5 as u64) << 40) | ((b6 as u64) << 48) | ((b7 as u64) << 56)
}

/// The `u16` denoted by two big-endian bytes.
pub open spec fn spec_u16_of_be(b0: u8, b1: u8) -> u16 {
    ((b0 as u16) << 8) | (b1 as u16)
}

/// Reading back the two little-endian bytes of `v` yields `v`.
pub proof fn lemma_le16_round_trip(v: u16)
    ensures
        spec_u16_of_le(spec_le16(v)[0], spec_le16(v)[1]) == v,
{
    assert((((v & 0xff) as u8) as u16) | (((((v >> 8) & 0xff) as u8) as u16) << 8) == v)
        by (bit_vector);
}

/// Reading back the four little-endian bytes of `v` yields `v`.
pub proof fn lemma_le32_round_trip(v: u32)
    ensures
        spec_u32_of_le(spec_le32(v)[0], spec_le32(v)[1], spec_le32(v)[2], spec_le32(v)[3]) == v,
{
    assert((((v & 0xff) as u8) as u32) | (((((v >> 8) & 0xff) as u8) as u32) << 8) | (((((v >> 16)
        & 0xff) as u8) as u32) << 16) | (((((v >> 24) & 0xff) as u8) as u32) << 24) == v)
        by (bit_vector);
}

/// Reading back the eight little-endian bytes of `v` yields `v`.
pub proof fn lemma_le64_round_trip(v: u64)
    ensures
        spec_u64_of_le(
            spec_le64(v)[0],
            spec_le64(v)[1],
            spec_le64(v)[2],
            spec_le64(v)[3],
            spec_le64(v)[4],
            spec_le64(v)[5],
            spec_le64(v)[6],
            spec_le64(v)[7],
        ) == v,
{
    assert((((v & 0xff) as u8) as u64) | (((((v >> 8) & 0xff) as u8) as u64) << 8) | (((((v >> 16)
        & 0xff) as u8) as u64) << 16) | (((((v >> 24) & 0xff) as u8) as u64) << 24) | (((((v >> 32)
        & 0xff) as u8) as u64) << 32) | (((((v >> 40) & 0xff) as u8) as u64) << 40) | (((((v >> 48)
        & 0xff) as u8) as u64) << 48) | (((((v >> 56) & 0xff) as u8) as u64) << 56) == v)
        by (bit_vector);
}

/// Reading back the two big-endian bytes of `v` yields `v`.
pub proof fn lemma_be16_round_trip(v: u16)
    ensures
        spec_u16_of_be(spec_be16(v)[0], spec_be16(v)[1]) == v,
{
    assert((((((v >> 8) & 0xff) as u8) as u16) << 8) | (((v & 0xff) as u8) as u16) == v)
        by (bit_vector);
}

/// Appends the two little-endian bytes of `v` to `out`.
pub fn put_u16_le(out: &mut Vec<u8>, v: u16)
    ensures
        final(out)@ == old(out)@ + spec_le16(v),
{
    out.push((v & 0xff) as u8);
    out.push(((v >> 8) & 0xff) as u8);
    proof {
        assert(out@ =~= old(out)@ + spec_le16(v));
    }
}

/// Appends the four little-endian bytes of `v` to `out`.
pub fn put_u32_le(out: &mut Vec<u8>, v: u32)
    ensures
        final(out)@ == old(out)@ + spec_le32(v),
{
    out.push((v & 0xff) as u8);
    out.push(((v >> 8) & 0xff) as u8);
    out.push(((v >> 16) & 0xff) as u8);
    out.push(((v >> 24) & 0xff) as u8);
    proof {
        assert(out@ =~= old(out)@ + spec_le32(v));
    }
}

/// Appends the eight little-endian bytes of `v` to `out`.
pub fn put_u64_le(out: &mut Vec<u8>, v: u64)
    ensures
        final(out)@ == old(out)@ + spec_le64(v),
{
    out.push((v & 0xff) as u8);
    out.push(((v >> 8) & 0xff) as u8);
    out.push(((v >> 16) & 0xff) as u8);
    out.push(((v >> 24) & 0xff) as u8);
    out.push(((v >> 32) & 0xff) as u8);
    out.push(((v >> 40) & 0xff) as u8);
    out.push(((v >> 48) & 0xff) as u8);
    out.push(((v >> 56) & 0xff) as u8);
    proof {
        assert(out@ =~= old(out)@ + spec_le64(v));
    }
}

/// Appends the sixteen little-endian bytes of `v` to `out`.
pub fn put_u128_le(out: &mut Vec<u8>, v: u128)
    ensures
        final(out)@ == old(out)@ + spec_le128(v),
{
    put_u64_le(out, (v & 0xffff_ffff_ffff_ffff) as u64);
    put_u64_le(out, (v >> 64) as u64);
    proof {
        assert(out@ =~= old(out)@ + spec_le128(v));
    }
}

/// Appends the two big-endian bytes of `v` to `out`.
pub fn put_u16_be(out: &mut Vec<u8>, v: u16)
    ensures
        final(out)@ == old(out)@ + spec_be16(v),
{
    out.push(((v >> 8) & 0xff) as u8);
    out.push((v & 0xff) as u8);
    proof {
        assert(out@ =~= old(out)@ + spec_be16(v));
    }
}

/// Reads a little-endian `u16` at position `pos`.
pub fn get_u16_le(bytes: &[u8], pos: usize) -> (r: u16)
    requires
        pos + 2 <= bytes@.len(),
    ensures
        r == spec_u16_of_le(bytes@[pos as int], bytes@[pos + 1]),
        bytes@.subrange(pos as int, pos + 2) == spec_le16(r),
{
    let r = bytes[pos] as u16 | ((bytes[pos + 1] as u16) << 8);
    proof {
        let b0 = bytes@[pos as int];
        let b1 = bytes@[pos + 1];
        assert((((b0 as u16) | ((b1 as u16) << 8)) & 0xff) as u8 == b0) by (bit_vector);
        assert(((((b0 as u16) | ((b1 as u16) << 8)) >> 8) & 0xff) as u8 == b1) by (bit_vector);
        assert(bytes@.subrange(pos as int, pos + 2) =~= spec_le16(r));
    }
    r
}

/// Reads a little-endian `u32` at position `pos`.
pub fn get_u32_le(bytes: &[u8], pos: usize) -> (r: u32)
    requires
        pos + 4 <= bytes@.len(),
    ensures
        r == spec_u32_of_le(bytes@[pos as int], bytes@[pos + 1], bytes@[pos + 2], bytes@[pos + 3]),
        bytes@.subrange(pos as int, pos + 4) == spec_le32(r),
{
    let r = bytes[pos] as u32 | ((bytes[pos + 1] as u32) << 8) | ((bytes[pos + 2] as u32) << 16) | (
    (bytes[pos + 3] as u32) << 24);
    proof {
        let b0 = bytes@[pos as int];
        let b1 = bytes@[pos + 1];
        let b2 = bytes@[pos + 2];
        let b3 = bytes@[pos + 3];
        let v = (b0 as u32) | ((b1 as u32) << 8) | ((b2 as u32) << 16) | ((b3 as u32) << 24);
        assert((v & 0xff) as u8 == b0 && ((v >> 8) & 0xff) as u8 == b1 && ((v >> 16) & 0xff) as u8
            == b2 && ((v >> 24) & 0xff) as u8 == b3) by (bit_vector)
            requires
                v == (b0 as u32) | ((b1 as u32) << 8) | ((b2 as u32) << 16) | ((b3 as u32) << 24),
        ;
        assert(bytes@.subrange(pos as int, pos + 4) =~= spec_le32(r));
    }
    r
}

/// Reads a little-endian `u64` at position `pos`.
pub fn get_u64_le(bytes: &[u8], pos: usize) -> (r: u64)
    requires
        pos + 8 <= bytes@.len(),
    ensures
        r == spec_u64_of_le(
            bytes@[pos as int],
            bytes@[pos + 1],
            bytes@[pos + 2],
            bytes@[pos + 3],
            bytes@[pos + 4],
            bytes@[pos + 5],
            bytes@[pos + 6],
            bytes@[pos + 7],
        ),
        bytes@.subrange(pos as int, pos + 8) == spec_le64(r),
{
    let r = bytes[pos] as u64 | ((bytes[pos + 1] as u64) << 8) | ((bytes[pos + 2] as u64) << 16) | (
    (bytes[pos + 3] as u64) << 24) | ((bytes[pos + 4] as u64) << 32) | ((bytes[pos + 5] as u64)
        << 40) | ((bytes[pos + 6] as u64) << 48) | ((bytes[pos + 7] as u64) << 56);
    proof {
        let b0 = bytes@[pos as int];
        let b1 = bytes@[pos + 1];
        let b2 = bytes@[pos + 2];
        let b3 = bytes@[pos + 3];
        let b4 = bytes@[pos + 4];
        let b5 = bytes@[pos + 5];
        let b6 = bytes@[pos + 6];
        let b7 = bytes@[pos + 7];
        let v = (b0 as u64) | ((b1 as u64) << 8) | ((b2 as u64) << 16) | ((b3 as u64) << 24) | ((
        b4 as u64) << 32) | ((b5 as u64) << 40) | ((b6 as u64) << 48) | ((b7 as u64) << 56);
        assert((v & 0xff) as u8 == b0 && ((v >> 8) & 0xff) as u8 == b1 && ((v >> 16) & 0xff) as u8
            == b2 && ((v >> 24) & 0xff) as u8 == b3 && ((v >> 32) & 0xff) as u8 == b4 && ((v >> 40)
            & 0xff) as u8 == b5 && ((v >> 48) & 0xff) as u8 == b6 && ((v >> 56) & 0xff) as u8
            == b7) by (bit_vector)
            requires
                v == (b0 as u64) | ((b1 as u64) << 8) | ((b2 as u64) << 16) | ((b3 as u64) << 24)
                    | ((b4 as u64) << 32) | ((b5 as u64) << 40) | ((b6 as u64) << 48) | ((b7 as u64)
                    << 56),
        ;
        assert(bytes@.subrange(pos as int, pos + 8) =~= spec_le64(r));
    }
    r
}

/// Reads a little-endian `u128` at position `pos`.
pub fn get_u128_le(bytes: &[u8], pos: usize) -> (r: u128)
    requires
        pos + 16 <= bytes@.len(),
    ensures
        bytes@.subrange(pos as int, pos + 16) == spec_le128(r),
{
    let _n: usize = bytes.len();
    let lo = get_u64_le(bytes, pos);
    let hi = get_u64_le(bytes, pos + 8);
    let r = lo as u128 | ((hi as u128) << 64);
    proof {
        assert(((lo as u128 | ((hi as u128) << 64)) & 0xffff_ffff_ffff_ffff) as u64 == lo && ((lo
            as u128 | ((hi as u128) << 64)) >> 64) as u64 == hi) by (bit_vector);
        assert(bytes@.subrange(pos as int, pos + 16) =~= bytes@.subrange(pos as int, pos + 8)
            + bytes@.subrange(pos + 8, pos + 16));
    }
    r
}

/// Reads a big-endian `u16` at position `pos`.
pub fn get_u16_be(bytes: &[u8], pos: usize) -> (r: u16)
    requires
        pos + 2 <= bytes@.len(),
    ensures
        r == spec_u16_of_be(bytes@[pos as int], bytes@[pos + 1]),
        bytes@.subrange(pos as int, pos + 2) == spec_be16(r),
{
    let r = ((bytes[pos] as u16) << 8) | bytes[pos + 1] as u16;
    proof {
        let b0 = bytes@[pos as int];
        let b1 = bytes@[pos + 1];
        assert(((((b0 as u16) << 8) | (b1 as u16)) >> 8) & 0xff == b0 as u16 && (((b0 as u16) << 8)
            | (b1 as u16)) & 0xff == b1 as u16) by (bit_vector);
        assert(bytes@.subrange(pos as int, pos + 2) =~= spec_be16(r));
    }
    r
}

/// LEB128 encoding of a `u64`: seven value bits per byte, high bit set on all
/// bytes but the last.
pub open spec fn spec_varint(v: u64) -> Seq<u8>
    decreases v,
{
    if v < 0x80 {
        seq![v as u8]
    } else {
        seq![(v % 0x80 + 0x80) as u8] + spec_varint(v / 0x80)
    }
}

/// A varint encoding takes between 1 and 10 bytes.
pub proof fn lemma_varint_len(v: u64)
    ensures
        1 <= spec_varint(v).len() <= 10,
    decreases v,
{
    if v >= 0x80 {
        lemma_varint_len(v / 0x80);
        assert(spec_varint(v / 0x80).len() <= 9) by {
            assert(pow128(0) == 1);
            assert(pow128(1) == 0x80);
            assert(pow128(2) == 0x4000);
            assert(pow128(3) == 0x20_0000);
            assert(pow128(4) == 0x1000_0000);
            assert(pow128(5) == 0x8_0000_0000);
            assert(pow128(6) == 0x400_0000_0000);
            assert(pow128(7) == 0x2_0000_0000_0000);
            assert(pow128(8) == 0x100_0000_0000_0000);
            assert(pow128(9) == 0x8000_0000_0000_0000);
            lemma_varint_len_helper(v / 0x80, 9);
        }
    }
}

proof fn lemma_varint_len_helper(v: u64, n: int)
    requires
        1 <= n,
        v < pow128(n),
    ensures
        spec_varint(v).len() <= n,
    decreases n,
{
    if v >= 0x80 {
        assert(v / 0x80 < pow128(n - 1));
        lemma_varint_len_helper(v / 0x80, n - 1);
    }
}

/// `0x80` to the power `n`.
pub open spec fn pow128(n: int) -> int
    decreases n,
{
    if n <= 0 {
        1
    } else {
        0x80 * pow128(n - 1)
    }
}

/// Appends the varint encoding of `v` to `out`.
pub fn put_varint(out: &mut Vec<u8>, v: u64)
    ensures
        final(out)@ == old(out)@ + spec_varint(v),
{
    let mut rem: u64 = v;
    let ghost emitted: Seq<u8> = Seq::empty();
    proof {
        assert(out@ =~= old(out)@ + emitted);
    }
    let ghost mut emitted = emitted;
    while rem >= 0x80
        invariant
            out@ == old(out)@ + emitted,
            emitted + spec_varint(rem) == spec_varint(v),
        decreases rem,
    {
        out.push((rem % 0x80 + 0x80) as u8);
        proof {
            emitted = emitted.push((rem % 0x80 + 0x80) as u8);
            assert(out@ =~= old(out)@ + emitted);
            assert(emitted + spec_varint(rem / 0x80) =~= spec_varint(v)) by {
                assert(spec_varint(rem) =~= seq![(rem % 0x80 + 0x80) as u8] + spec_varint(
                    rem / 0x80,
                ));
            }
        }
        rem = rem / 0x80;
    }
    out.push(rem as u8);
    proof {
        assert(spec_varint(rem) =~= seq![rem as u8]);
        assert(out@ =~= old(out)@ + spec_varint(v));
    }
}

/// Result of decoding a varint at some position: the value and the position
/// just past its last byte.  Overlong encodings (a continuation byte followed
/// by a zero remainder) are rejected, as are truncated or overflowing ones.
pub open spec fn spec_varint_decode(bytes: Seq<u8>, pos: int) -> Option<(u64, int)>
    decreases bytes.len() - pos,
{
    if pos < 0 || pos >= bytes.len() {
        None
    } else if bytes[pos] < 0x80 {
        Some((bytes[pos] as u64, pos + 1))
    } else {
        match spec_varint_decode(bytes, pos + 1) {
            None => None,
            Some((hi, end)) => if 1 <= hi <= (u64::MAX - 0x7f) / 0x80 {
                Some(((hi * 0x80 + (bytes[pos] - 0x80)) as u64, end))
            } else {
                None
            },
        }
    }
}

/// Decoding an encoded varint yields the value back, wherever it stands in a
/// larger buffer.
pub proof fn lemma_varint_round_trip(bytes: Seq<u8>, pos: int, v: u64)
    requires
        0 <= pos,
        pos + spec_varint(v).len() <= bytes.len(),
        bytes.subrange(pos, pos + spec_varint(v).len() as int) == spec_varint(v),
    ensures
        spec_varint_decode(bytes, pos) == Some::<(u64, int)>((v, pos + spec_varint(v).len())),
    decreases v,
{
    let enc = spec_varint(v);
    assert(bytes[pos] == enc[0]);
    if v < 0x80 {
        assert(enc =~= seq![v as u8]);
    } else {
        let tail = spec_varint(v / 0x80);
        assert(enc =~= seq![(v % 0x80 + 0x80) as u8] + tail);
        assert(bytes.subrange(pos + 1, pos + 1 + tail.len() as int) =~= tail) by {
            assert forall|j: int| 0 <= j < tail.len() implies bytes[pos + 1 + j] == tail[j] by {
                assert(enc[1 + j] == tail[j]);
                assert(bytes[pos + 1 + j] == enc[1 + j]);
            }
        }
        lemma_varint_round_trip(bytes, pos + 1, v / 0x80);
        assert(1 <= v / 0x80 <= (u64::MAX - 0x7f) / 0x80) by {
            assert(v / 0x80 <= u64::MAX / 0x80);
            assert(v / 0x80 >= 1);
        }
        assert((v / 0x80) * 0x80 + (v % 0x80) == v) by {
            vstd::arithmetic::div_mod::lemma_fundamental_div_mod(v as int, 0x80);
        }
    }
}

/// Reads a varint at position `pos`; fails on a truncated, overlong or
/// overflowing encoding.
pub fn get_varint(bytes: &[u8], pos: usize) -> (r: Option<(u64, usize)>)
    requires
        pos <= bytes@.len(),
    ensures
        match r {
            Some((v, end)) => {
                &&& spec_varint_decode(bytes@, pos as int) == Some::<(u64, int)>((v, end as int))
                &&& pos < end <= bytes@.len()
                &&& bytes@.subrange(pos as int, end as int) == spec_varint(v)
            },
            None => spec_varint_decode(bytes@, pos as int) is None,
        },
    decreases bytes@.len() - pos,
{
    if pos >= bytes.len() {
        return None;
    }
    let b = bytes[pos];
    if b < 0x80 {
        proof {
            assert(bytes@.subrange(pos as int, pos + 1) =~= spec_varint(b as u64));
        }
        return Some((b as u64, pos + 1));
    }
    match get_varint(bytes, pos + 1) {
        None => None,
        Some((hi, end)) => {
            if 1 <= hi && hi <= (u64::MAX - 0x7f) / 0x80 {
                let v: u64 = hi * 0x80 + (b - 0x80) as u64;
                proof {
                    lemma_varint_decode_encodes(bytes@, pos as int, v, end as int);
                }
                Some((v, end))
            } else {
                None
            }
        },
    }
}

/// A successful decode reads back exactly the encoding of its value.
proof fn lemma_varint_decode_encodes(bytes: Seq<u8>, pos: int, v: u64, end: int)
    requires
        0 <= pos <= bytes.len(),
        spec_varint_decode(bytes, pos) == Some::<(u64, int)>((v, end)),
    ensures
        pos < end <= bytes.len(),
        bytes.subrange(pos, end) == spec_varint(v),
    decreases bytes.len() - pos,
{
    if bytes[pos] < 0x80 {
        assert(bytes.subrange(pos, end) =~= seq![bytes[pos]]);
    } else {
        let (hi, e2) = spec_varint_decode(bytes, pos + 1).unwrap();
        lemma_varint_decode_encodes(bytes, pos + 1, hi, e2);
        assert(v >= 0x80) by {
            assert(v == hi * 0x80 + (bytes[pos] - 0x80));
            assert(hi >= 1);
        }
        assert(v / 0x80 == hi && v % 0x80 == bytes[pos] - 0x80) by {
            assert(v == hi * 0x80 + (bytes[pos] - 0x80));
            vstd::arithmetic::div_mod::lemma_fundamental_div_mod_converse(
                v as int,
                0x80,
                hi as int,
                (bytes[pos] - 0x80) as int,
            );
        }
        assert(bytes.subrange(pos, end) =~= seq![bytes[pos]] + bytes.subrange(pos + 1, end));
        assert(spec_varint(v) =~= seq![(v % 0x80 + 0x80) as u8] + spec_varint(v / 0x80));
    }
}

} // verus!
