//! Index blocks: ordered runs of keyed block handles `(end_key, offset,
//! size)` in the shared block layout, answering lowest/highest boundary
//! searches over end keys.

use vstd::prelude::*;

use crate::bytes_util::{
    bytes_le, bytes_lt, copy_range, lemma_lex_le_trans, lemma_sub_piece, lex_le, lex_lt,
};
use crate::coding::{
    get_u16_le, get_u32_le, get_varint, lemma_le32_round_trip, lemma_varint_round_trip, put_u16_le,
    put_u32_le, put_varint, spec_le16, spec_le32, spec_u16_of_le, spec_u32_of_le, spec_varint,
    spec_varint_decode,
};
use crate::data_block::spec_bin_entry;
use crate::error::LsmError;

verus! {

/// Points to a block in the file: offset and stored size in bytes.
#[derive(Clone, Copy, Debug, Default, PartialEq, Eq)]
pub struct BlockHandle {
    /// Position of the referenced block in the file.
    pub offset: u64,
    /// Size of the referenced block in bytes.
    pub size: u32,
}

impl BlockHandle {
    /// Builds a handle.
    pub fn new(offset: u64, size: u32) -> (r: BlockHandle)
        ensures
            r.offset == offset,
            r.size == size,
    {
        BlockHandle { offset, size }
    }

    /// Size of the referenced block in bytes.
    pub fn size(&self) -> (r: u32)
        ensures
            r == self.size,
    {
        self.size
    }

    /// Position of the referenced block in the file.
    pub fn offset(&self) -> (r: u64)
        ensures
            r == self.offset,
    {
        self.offset
    }
}

/// The mathematical shape of a keyed block handle.
#[verifier::ext_equal]
pub struct KeyedBlockHandleSpec {
    /// Largest user key in the referenced block.
    pub end_key: Seq<u8>,
    /// Position of the referenced block.
    pub offset: u64,
    /// Size of the referenced block in bytes.
    pub size: u32,
}

/// A block handle together with the largest key of the referenced block.
#[derive(Clone, Debug, PartialEq, Eq)]
pub struct KeyedBlockHandle {
    end_key: Vec<u8>,
    offset: u64,
    size: u32,
}

impl View for KeyedBlockHandle {
    type V = KeyedBlockHandleSpec;

    closed spec fn view(&self) -> KeyedBlockHandleSpec {
        KeyedBlockHandleSpec { end_key: self.end_key@, offset: self.offset, size: self.size }
    }
}

impl KeyedBlockHandle {
    /// Builds a keyed handle.
    pub fn new(end_key: Vec<u8>, offset: u64, size: u32) -> (r: KeyedBlockHandle)
        ensures
            r@.end_key == end_key@,
            r@.offset == offset,
            r@.size == size,
    {
        KeyedBlockHandle { end_key, offset, size }
    }

    /// Moves the handle right by `delta` bytes.
    pub fn shift(&mut self, delta: u64)
        requires
            old(self)@.offset + delta <= u64::MAX,
        ensures
            final(self)@.offset == old(self)@.offset + delta,
            final(self)@.end_key == old(self)@.end_key,
            final(self)@.size == old(self)@.size,
    {
        self.offset = self.offset + delta;
    }

    /// Size of the referenced block in bytes.
    pub fn size(&self) -> (r: u32)
        ensures
            r == self@.size,
    {
        self.size
    }

    /// Position of the referenced block.
    pub fn offset(&self) -> (r: u64)
        ensures
            r == self@.offset,
    {
        self.offset
    }

    /// The largest key in the referenced block.
    pub fn end_key(&self) -> (r: &Vec<u8>)
        ensures
            r@ == self@.end_key,
    {
        &self.end_key
    }

    /// Consumes the handle, returning its end key.
    pub fn into_end_key(self) -> (r: Vec<u8>)
        ensures
            r@ == self@.end_key,
    {
        self.end_key
    }

    /// Returns a fresh handle with the same components.
    pub fn duplicate(&self) -> (r: KeyedBlockHandle)
        ensures
            r@ == self@,
    {
        let r = KeyedBlockHandle {
            end_key: copy_range(self.end_key.as_slice(), 0, self.end_key.len()),
            offset: self.offset,
            size: self.size,
        };
        proof {
            assert(r@ =~= self@);
        }
        r
    }
}

/// A keyed handle the format can hold.
pub open spec fn spec_handle_wf(h: KeyedBlockHandleSpec) -> bool {
    1 <= h.end_key.len() <= 65535
}

/// The on-disk bytes of one handle: offset, size, key length, key.
pub open spec fn spec_enc_handle(h: KeyedBlockHandleSpec) -> Seq<u8> {
    spec_varint(h.offset) + spec_varint(h.size as u64) + spec_varint(h.end_key.len() as u64)
        + h.end_key
}

/// Decodes one handle at `pos`.
pub open spec fn spec_dec_handle(data: Seq<u8>, pos: int) -> Option<(KeyedBlockHandleSpec, int)> {
    match spec_varint_decode(data, pos) {
        None => None,
        Some((offset, p1)) => match spec_varint_decode(data, p1) {
            None => None,
            Some((size, p2)) => if size > u32::MAX {
                None
            } else {
                match spec_varint_decode(data, p2) {
                    None => None,
                    Some((klen, p3)) => if klen < 1 || klen > 65535 || p3 + klen > data.len() {
                        None
                    } else {
                        Some(
                            (
                                KeyedBlockHandleSpec {
                                    end_key: data.subrange(p3, p3 + klen),
                                    offset,
                                    size: size as u32,
                                },
                                p3 + klen,
                            ),
                        )
                    },
                }
            },
        },
    }
}

/// Encodes the handles from index `i` on.
pub open spec fn spec_enc_handles(views: Seq<KeyedBlockHandleSpec>, i: int) -> Seq<u8>
    decreases views.len() - i,
{
    if i < 0 || i >= views.len() {
        Seq::empty()
    } else {
        spec_enc_handle(views[i]) + spec_enc_handles(views, i + 1)
    }
}

/// Decodes `n` handles from `pos`: the handles, their start positions, and
/// the end position.
pub open spec fn spec_dec_handles(data: Seq<u8>, pos: int, n: int) -> Option<
    (Seq<KeyedBlockHandleSpec>, Seq<int>, int),
>
    decreases n,
{
    if n <= 0 {
        Some((Seq::empty(), Seq::empty(), pos))
    } else {
        match spec_dec_handle(data, pos) {
            None => None,
            Some((h, p2)) => match spec_dec_handles(data, p2, n - 1) {
                None => None,
                Some((hs, ps, end)) => Some((seq![h] + hs, seq![pos] + ps, end)),
            },
        }
    }
}

/// Decoding an encoded handle yields it back.
pub proof fn lemma_dec_handle_of_enc(data: Seq<u8>, pos: int, h: KeyedBlockHandleSpec)
    requires
        spec_handle_wf(h),
        0 <= pos,
        pos + spec_enc_handle(h).len() <= data.len(),
        data.subrange(pos, pos + spec_enc_handle(h).len() as int) == spec_enc_handle(h),
    ensures
        spec_dec_handle(data, pos) == Some::<(KeyedBlockHandleSpec, int)>(
            (h, pos + spec_enc_handle(h).len() as int),
        ),
{
    let enc = spec_enc_handle(h);
    let ov = spec_varint(h.offset);
    let sv = spec_varint(h.size as u64);
    let kv = spec_varint(h.end_key.len() as u64);
    let o1 = ov.len() as int;
    let o2 = o1 + sv.len() as int;
    let o3 = o2 + kv.len() as int;
    let o4 = o3 + h.end_key.len() as int;
    assert(enc.len() == o4);
    assert(enc.subrange(0, o1) =~= ov);
    assert(enc.subrange(o1, o2) =~= sv);
    assert(enc.subrange(o2, o3) =~= kv);
    assert(enc.subrange(o3, o4) =~= h.end_key);
    lemma_sub_piece(data, pos, enc, 0, o1);
    lemma_sub_piece(data, pos, enc, o1, o2);
    lemma_sub_piece(data, pos, enc, o2, o3);
    lemma_sub_piece(data, pos, enc, o3, o4);
    lemma_varint_round_trip(data, pos, h.offset);
    lemma_varint_round_trip(data, pos + o1, h.size as u64);
    lemma_varint_round_trip(data, pos + o2, h.end_key.len() as u64);
    assert(data.subrange(pos + o3, pos + o4) == h.end_key);
    assert(KeyedBlockHandleSpec {
        end_key: data.subrange(pos + o3, pos + o4),
        offset: h.offset,
        size: (h.size as u64) as u32,
    } =~= h);
}

/// Decoding an encoded run of handles yields the run back, with the right
/// positions.
pub proof fn lemma_dec_handles_of_enc(
    data: Seq<u8>,
    pos: int,
    views: Seq<KeyedBlockHandleSpec>,
    i: int,
)
    requires
        0 <= i <= views.len(),
        forall|j: int| i <= j < views.len() ==> spec_handle_wf(#[trigger] views[j]),
        0 <= pos,
        pos + spec_enc_handles(views, i).len() <= data.len(),
        data.subrange(pos, pos + spec_enc_handles(views, i).len() as int) == spec_enc_handles(
            views,
            i,
        ),
    ensures
        match spec_dec_handles(data, pos, views.len() - i) {
            Some((hs, ps, end)) => {
                &&& hs == views.skip(i)
                &&& end == pos + spec_enc_handles(views, i).len()
                &&& ps.len() == views.len() - i
                &&& forall|j: int|
                    0 <= j < ps.len() ==> ps[j] == pos + spec_enc_handles(views, i).len()
                        - spec_enc_handles(views, #[trigger] (i + j)).len()
            },
            None => false,
        },
    decreases views.len() - i,
{
    let whole = spec_enc_handles(views, i);
    if i >= views.len() {
        assert(views.skip(i) =~= Seq::<KeyedBlockHandleSpec>::empty());
    } else {
        let chunk = spec_enc_handle(views[i]);
        let tail = spec_enc_handles(views, i + 1);
        assert(whole =~= chunk + tail);
        assert(whole.subrange(0, chunk.len() as int) =~= chunk);
        assert(whole.subrange(chunk.len() as int, whole.len() as int) =~= tail);
        lemma_sub_piece(data, pos, whole, 0, chunk.len() as int);
        lemma_sub_piece(data, pos, whole, chunk.len() as int, whole.len() as int);
        lemma_dec_handle_of_enc(data, pos, views[i]);
        lemma_dec_handles_of_enc(data, pos + chunk.len() as int, views, i + 1);
        assert(views.skip(i) =~= seq![views[i]] + views.skip(i + 1));
        let (hs, ps, end) = spec_dec_handles(data, pos, views.len() - i).unwrap();
        let (hs2, ps2, _) = spec_dec_handles(
            data,
            pos + chunk.len() as int,
            views.len() - i - 1,
        ).unwrap();
        assert(ps =~= seq![pos] + ps2);
        assert forall|j: int|
            0 <= j < ps.len() implies ps[j] == pos + whole.len() - spec_enc_handles(
            views,
            #[trigger] (i + j),
        ).len() by {
            if j > 0 {
                assert(ps[j] == ps2[j - 1]);
                assert(ps2[j - 1] == pos + chunk.len() + tail.len() - spec_enc_handles(
                    views,
                    i + 1 + (j - 1),
                ).len());
            }
        }
    }
}

/// Byte offset, within the entries region, of handle `i`.
pub open spec fn spec_handle_off(views: Seq<KeyedBlockHandleSpec>, i: int) -> int {
    spec_enc_handles(views, 0).len() - spec_enc_handles(views, i).len()
}

/// The binary index over handles `i..`.
pub open spec fn spec_ib_bin_index(views: Seq<KeyedBlockHandleSpec>, step: int, i: int) -> Seq<u8>
    decreases views.len() - i,
{
    if i < 0 || i >= views.len() {
        Seq::empty()
    } else {
        spec_bin_entry(spec_handle_off(views, i), step) + spec_ib_bin_index(views, step, i + 1)
    }
}

/// Length of the binary index region.
pub proof fn lemma_ib_bin_index_len(views: Seq<KeyedBlockHandleSpec>, step: int, i: int)
    requires
        step == 2 || step == 4,
        0 <= i,
    ensures
        spec_ib_bin_index(views, step, i).len() == if i <= views.len() {
            step * (views.len() - i)
        } else {
            0
        },
    decreases views.len() - i,
{
    if i < views.len() {
        lemma_ib_bin_index_len(views, step, i + 1);
    }
}

/// The full payload of an index block: handles (every one a restart head,
/// the interval being one), binary index, trailer.
pub open spec fn spec_ib_encode(views: Seq<KeyedBlockHandleSpec>) -> Seq<u8> {
    let entries = spec_enc_handles(views, 0);
    let step: int = if entries.len() <= u16::MAX {
        2
    } else {
        4
    };
    entries + spec_ib_bin_index(views, step, 0) + crate::data_block::spec_db_trailer(
        views.len() as u32,
        1u8,
        step as u8,
        entries.len() as u32,
        views.len() as u32,
    )
}

/// What parsing an index block payload yields: the handles, or nothing if
/// the structure is malformed.  Unlike data blocks, the binary index
/// entries are checked against the real handle positions.
pub open spec fn spec_ib_parse(data: Seq<u8>) -> Option<Seq<KeyedBlockHandleSpec>> {
    if data.len() < 14 {
        None
    } else {
        let t = data.len() - 14;
        let n = spec_u32_of_le(data[t], data[t + 1], data[t + 2], data[t + 3]);
        let rint = data[t + 4];
        let step = data[t + 5];
        let bin_off = spec_u32_of_le(data[t + 6], data[t + 7], data[t + 8], data[t + 9]);
        let bin_len = spec_u32_of_le(data[t + 10], data[t + 11], data[t + 12], data[t + 13]);
        if rint != 1 || !(step == 2 || step == 4) || bin_off > t || bin_off + step * bin_len != t
            || bin_len != n || n == 0 || (step == 2 && bin_off > u16::MAX) {
            None
        } else {
            match spec_dec_handles(data, 0, n as int) {
                None => None,
                Some((hs, ps, end)) => if end == bin_off && (forall|i: int|
                    0 <= i < n ==> data.subrange(
                        bin_off + i * step,
                        bin_off + (i + 1) * step,
                    ) == spec_bin_entry(#[trigger] ps[i], step as int)) {
                    Some(hs)
                } else {
                    None
                },
            }
        }
    }
}

/// End keys are weakly ascending across the run of handles.
pub open spec fn spec_handles_sorted(views: Seq<KeyedBlockHandleSpec>) -> bool {
    forall|i: int|
        0 <= i < views.len() - 1 ==> lex_le(#[trigger] views[i].end_key, views[i + 1].end_key)
}

/// In a sorted run of handles, end keys ascend between any two positions.
pub proof fn lemma_handles_sorted_le(views: Seq<KeyedBlockHandleSpec>, i: int, j: int)
    requires
        spec_handles_sorted(views),
        0 <= i <= j < views.len(),
    ensures
        lex_le(views[i].end_key, views[j].end_key),
    decreases j - i,
{
    if i == j {
        if lex_lt(views[j].end_key, views[i].end_key) {
            crate::bytes_util::lemma_lex_asym(views[j].end_key, views[i].end_key);
        }
    } else {
        lemma_handles_sorted_le(views, i + 1, j);
        lemma_lex_le_trans(views[i].end_key, views[i + 1].end_key, views[j].end_key);
    }
}

/// One binary index entry of `bin` covers bytes `[i*step, (i+1)*step)`.
pub proof fn lemma_ib_bin_slice(views: Seq<KeyedBlockHandleSpec>, step: int, i: int)
    requires
        step == 2 || step == 4,
        0 <= i < views.len(),
    ensures
        spec_ib_bin_index(views, step, 0).subrange(i * step, (i + 1) * step) == spec_bin_entry(
            spec_handle_off(views, i),
            step,
        ),
{
    lemma_ib_bin_slice_from(views, step, 0, i);
}

proof fn lemma_ib_bin_slice_from(views: Seq<KeyedBlockHandleSpec>, step: int, j: int, i: int)
    requires
        step == 2 || step == 4,
        0 <= j <= i < views.len(),
    ensures
        spec_ib_bin_index(views, step, j).subrange((i - j) * step, (i - j + 1) * step)
            == spec_bin_entry(spec_handle_off(views, i), step),
    decreases i - j,
{
    let whole = spec_ib_bin_index(views, step, j);
    let chunk = spec_bin_entry(spec_handle_off(views, j), step);
    let tail = spec_ib_bin_index(views, step, j + 1);
    assert(whole =~= chunk + tail);
    lemma_ib_bin_index_len(views, step, j);
    lemma_ib_bin_index_len(views, step, j + 1);
    if j == i {
        assert(whole.subrange(0, step) =~= chunk);
    } else {
        lemma_ib_bin_slice_from(views, step, j + 1, i);
        assert((i - j) * step == (i - j - 1) * step + step) by (nonlinear_arith);
        assert((i - j + 1) * step == (i - j) * step + step) by (nonlinear_arith);
        assert(whole.subrange((i - j) * step, (i - j + 1) * step) =~= tail.subrange(
            (i - j - 1) * step,
            (i - j - 1 + 1) * step,
        ));
    }
}

/// Parsing an encoded index block yields the handles back.
#[verifier::rlimit(60)]
pub proof fn lemma_ib_round_trip(views: Seq<KeyedBlockHandleSpec>)
    requires
        forall|j: int| 0 <= j < views.len() ==> spec_handle_wf(#[trigger] views[j]),
        1 <= views.len() <= u32::MAX,
        spec_enc_handles(views, 0).len() <= u32::MAX,
    ensures
        spec_ib_parse(spec_ib_encode(views)) == Some(views),
{
    let entries = spec_enc_handles(views, 0);
    let step: int = if entries.len() <= u16::MAX {
        2
    } else {
        4
    };
    lemma_ib_bin_index_len(views, step, 0);
    let bin = spec_ib_bin_index(views, step, 0);
    let trl = crate::data_block::spec_db_trailer(
        views.len() as u32,
        1u8,
        step as u8,
        entries.len() as u32,
        views.len() as u32,
    );
    let data = spec_ib_encode(views);
    assert(data == entries + bin + trl);
    let t = data.len() - 14;
    assert forall|j: int| 0 <= j < 14 implies data[t + j] == #[trigger] trl[j] by {
        assert(data[t + j] == (entries + bin + trl)[entries.len() + bin.len() + j]);
    }
    assert(trl.subrange(0, 4) =~= spec_le32(views.len() as u32));
    assert(trl.subrange(6, 10) =~= spec_le32(entries.len() as u32));
    assert(trl.subrange(10, 14) =~= spec_le32(views.len() as u32));
    lemma_le32_round_trip(views.len() as u32);
    lemma_le32_round_trip(entries.len() as u32);
    assert(spec_u32_of_le(data[t], data[t + 1], data[t + 2], data[t + 3]) == views.len() as u32);
    assert(data[t + 4] == 1u8);
    assert(data[t + 5] == step as u8);
    assert(spec_u32_of_le(data[t + 6], data[t + 7], data[t + 8], data[t + 9])
        == entries.len() as u32);
    assert(spec_u32_of_le(data[t + 10], data[t + 11], data[t + 12], data[t + 13])
        == views.len() as u32);
    assert(data.subrange(0, entries.len() as int) =~= entries);
    lemma_dec_handles_of_enc(data, 0, views, 0);
    let (hs, ps, end) = spec_dec_handles(data, 0, views.len() as int).unwrap();
    assert(hs == views.skip(0) && views.skip(0) =~= views);
    let bin_off = entries.len() as int;
    assert forall|i: int| 0 <= i < views.len() implies data.subrange(
        bin_off + i * step,
        bin_off + (i + 1) * step,
    ) == spec_bin_entry(#[trigger] ps[i], step) by {
        assert(ps[i] == spec_enc_handles(views, 0).len() - spec_enc_handles(views, 0 + i).len());
        assert(ps[i] == spec_handle_off(views, i));
        lemma_ib_bin_slice(views, step, i);
        assert(0 <= i * step && (i + 1) * step <= bin.len()) by (nonlinear_arith)
            requires
                0 <= i < views.len(),
                step == 2 || step == 4,
                bin.len() == step * views.len(),
        ;
        assert(data.subrange(bin_off + i * step, bin_off + (i + 1) * step) =~= bin.subrange(
            i * step,
            (i + 1) * step,
        )) by {
            assert forall|x: int| 0 <= x < step implies #[trigger] data[bin_off + i * step + x]
                == bin[i * step + x] by {
                assert(data[bin_off + i * step + x] == (entries + bin + trl)[entries.len() + (i
                    * step + x)]);
            }
        }
    }
    assert(spec_ib_parse(data) == Some(hs));
}

/// A parsed restart head: where the handle points, and where its key lies
/// in the block bytes.
pub struct RestartHead {
    /// Position of the referenced block.
    pub offset: u64,
    /// Size of the referenced block in bytes.
    pub size: u32,
    /// Start of the end key within the block bytes.
    pub key_start: usize,
    /// Length of the end key.
    pub key_len: usize,
}

/// Parses one restart head (a full handle) at `pos`.  Mirrors
/// `spec_dec_handle` exactly.
pub fn parse_restart_head(data: &[u8], pos: usize) -> (r: Option<(RestartHead, usize)>)
    requires
        pos <= data@.len(),
    ensures
        match r {
            Some((rh, end)) => {
                &&& rh.key_start + rh.key_len <= data@.len()
                &&& spec_dec_handle(data@, pos as int) == Some::<(KeyedBlockHandleSpec, int)>(
                    (
                        KeyedBlockHandleSpec {
                            end_key: data@.subrange(
                                rh.key_start as int,
                                rh.key_start + rh.key_len,
                            ),
                            offset: rh.offset,
                            size: rh.size,
                        },
                        end as int,
                    ),
                )
                &&& pos < end <= data@.len()
            },
            None => spec_dec_handle(data@, pos as int) is None,
        },
{
    let (offset, p1) = match get_varint(data, pos) {
        Some(x) => x,
        None => {
            return None;
        },
    };
    let (size, p2) = match get_varint(data, p1) {
        Some(x) => x,
        None => {
            return None;
        },
    };
    if size > (u32::MAX as u64) {
        return None;
    }
    let (klen, p3) = match get_varint(data, p2) {
        Some(x) => x,
        None => {
            return None;
        },
    };
    if klen < 1 || klen > 65535 {
        return None;
    }
    if (klen as usize) > data.len() - p3 {
        return None;
    }
    let rh = RestartHead {
        offset,
        size: size as u32,
        key_start: p3,
        key_len: klen as usize,
    };
    Some((rh, p3 + klen as usize))
}

/// The first handle index at or after `i` whose end key is at least
/// `needle`.
pub open spec fn spec_first_ge(views: Seq<KeyedBlockHandleSpec>, needle: Seq<u8>, i: int) -> Option<
    int,
>
    decreases views.len() - i,
{
    if i < 0 || i >= views.len() {
        None
    } else if lex_le(needle, views[i].end_key) {
        Some(i)
    } else {
        spec_first_ge(views, needle, i + 1)
    }
}

/// The first handle index at or after `i` whose end key is strictly above
/// `needle`.
pub open spec fn spec_first_gt(views: Seq<KeyedBlockHandleSpec>, needle: Seq<u8>, i: int) -> Option<
    int,
>
    decreases views.len() - i,
{
    if i < 0 || i >= views.len() {
        None
    } else if lex_lt(needle, views[i].end_key) {
        Some(i)
    } else {
        spec_first_gt(views, needle, i + 1)
    }
}

/// Characterizes `spec_first_ge` from a binary-search frontier.
proof fn lemma_first_ge_at(views: Seq<KeyedBlockHandleSpec>, needle: Seq<u8>, lo: int, i: int)
    requires
        0 <= i <= lo <= views.len(),
        forall|j: int| 0 <= j < lo ==> !lex_le(needle, #[trigger] views[j].end_key),
        lo < views.len() ==> lex_le(needle, views[lo as int].end_key),
    ensures
        spec_first_ge(views, needle, i) == if lo < views.len() {
            Some(lo)
        } else {
            None::<int>
        },
    decreases lo - i,
{
    if i < lo {
        lemma_first_ge_at(views, needle, lo, i + 1);
    }
}

/// Characterizes `spec_first_gt` from a binary-search frontier.
proof fn lemma_first_gt_at(views: Seq<KeyedBlockHandleSpec>, needle: Seq<u8>, lo: int, i: int)
    requires
        0 <= i <= lo <= views.len(),
        forall|j: int| 0 <= j < lo ==> !lex_lt(needle, #[trigger] views[j].end_key),
        lo < views.len() ==> lex_lt(needle, views[lo as int].end_key),
    ensures
        spec_first_gt(views, needle, i) == if lo < views.len() {
            Some(lo)
        } else {
            None::<int>
        },
    decreases lo - i,
{
    if i < lo {
        lemma_first_gt_at(views, needle, lo, i + 1);
    }
}

/// Reads little-endian offsets out of the binary index region of a block.
pub struct BinaryIndexReader<'a> {
    bytes: &'a [u8],
    offset: usize,
    len: u32,
    step: u8,
}

impl<'a> BinaryIndexReader<'a> {
    /// A reader over `len` entries of `step` bytes each starting at
    /// `offset`.
    pub closed spec fn wf(&self) -> bool {
        &&& (self.step == 2 || self.step == 4)
        &&& self.offset + self.step * self.len <= self.bytes@.len()
    }

    /// Number of entries.
    pub closed spec fn spec_len(&self) -> u32 {
        self.len
    }

    /// The value of entry `i`.
    pub closed spec fn spec_entry(&self, i: int) -> int {
        let o = self.offset + self.step * i;
        if self.step == 2 {
            spec_u16_of_le(self.bytes@[o], self.bytes@[o + 1]) as int
        } else {
            spec_u32_of_le(
                self.bytes@[o],
                self.bytes@[o + 1],
                self.bytes@[o + 2],
                self.bytes@[o + 3],
            ) as int
        }
    }

    /// Builds a reader; the region must lie inside the bytes.
    pub fn new(bytes: &'a [u8], offset: usize, len: u32, step: u8) -> (r: BinaryIndexReader<'a>)
        requires
            step == 2 || step == 4,
            offset + step * len <= bytes@.len(),
        ensures
            r.wf(),
            r.spec_len() == len,
            forall|i: int| r.spec_entry(i) == BinaryIndexReader::spec_entry_of(
                bytes@, offset as int, step as int, i),
    {
        BinaryIndexReader { bytes, offset, len, step }
    }

    /// The value of entry `i` of a binary index region.
    pub open spec fn spec_entry_of(bytes: Seq<u8>, offset: int, step: int, i: int) -> int {
        let o = offset + step * i;
        if step == 2 {
            spec_u16_of_le(bytes[o], bytes[o + 1]) as int
        } else {
            spec_u32_of_le(bytes[o], bytes[o + 1], bytes[o + 2], bytes[o + 3]) as int
        }
    }

    /// Number of entries.
    pub fn len(&self) -> (r: u32)
        ensures
            r == self.spec_len(),
    {
        self.len
    }

    /// Reads entry `i`.
    pub fn get(&self, i: u32) -> (r: usize)
        requires
            self.wf(),
            i < self.spec_len(),
        ensures
            r == self.spec_entry(i as int),
    {
        let _n: usize = self.bytes.len();
        proof {
            assert(self.step * (i as int) + self.step <= self.step * (self.len as int))
                by (nonlinear_arith)
                requires
                    0 <= i < self.len,
                    self.step == 2 || self.step == 4,
            ;
        }
        let o = self.offset + (self.step as usize) * (i as usize);
        if self.step == 2 {
            get_u16_le(self.bytes, o) as usize
        } else {
            get_u32_le(self.bytes, o) as usize
        }
    }
}

/// Block that contains block handles (file offset + size), answering
/// boundary searches over their end keys.
pub struct IndexBlock {
    inner: crate::block::Block,
    handles: Vec<KeyedBlockHandle>,
    restart_interval: u8,
    binary_index_step_size: u8,
    binary_index_offset: u32,
    binary_index_len: u32,
}

/// The views of a run of keyed handles.
pub open spec fn views_of_handles(hs: Seq<KeyedBlockHandle>) -> Seq<KeyedBlockHandleSpec> {
    Seq::new(hs.len(), |i: int| hs[i]@)
}

impl IndexBlock {
    /// The decoded handles.
    pub closed spec fn views(&self) -> Seq<KeyedBlockHandleSpec> {
        views_of_handles(self.handles@)
    }

    /// The raw bytes of the block this index was decoded from.
    pub closed spec fn spec_inner_data(&self) -> Seq<u8> {
        self.inner.data@
    }

    /// A decoded index block holds handles with weakly ascending end keys.
    pub closed spec fn wf(&self) -> bool {
        spec_handles_sorted(self.views())
    }

    /// Decodes an index block payload: trailer, handles, and the binary
    /// index, which must point exactly at the handle positions.  Succeeds
    /// exactly when the payload parses and end keys are weakly ascending.
    pub fn new(inner: crate::block::Block) -> (r: Result<IndexBlock, LsmError>)
        ensures
            match r {
                Ok(ib) => {
                    &&& spec_ib_parse(ib.spec_inner_data()) == Some(ib.views())
                    &&& ib.spec_inner_data() == inner.data@
                    &&& ib.wf()
                    &&& ib.views().len() >= 1
                },
                Err(e) => {
                    &&& e == LsmError::Corrupt
                    &&& match spec_ib_parse(inner.data@) {
                        Some(hs) => !spec_handles_sorted(hs),
                        None => true,
                    }
                },
            },
    {
        let data = inner.data.as_slice();
        let _dn: usize = data.len();
        if data.len() < 14 {
            return Err(LsmError::Corrupt);
        }
        let t = data.len() - 14;
        let n = get_u32_le(data, t);
        let rint = data[t + 4];
        let step = data[t + 5];
        let bin_off = get_u32_le(data, t + 6);
        let bin_len = get_u32_le(data, t + 10);
        if rint != 1 || !(step == 2 || step == 4) {
            return Err(LsmError::Corrupt);
        }
        if (bin_off as usize) > t {
            return Err(LsmError::Corrupt);
        }
        proof {
            assert((step as u64) * (bin_len as u64) <= 4 * 0xffff_ffffu64) by (nonlinear_arith)
                requires
                    step as u64 <= 4,
                    bin_len as u64 <= 0xffff_ffffu64,
            ;
        }
        if (bin_off as u64) + (step as u64) * (bin_len as u64) != (t as u64) {
            return Err(LsmError::Corrupt);
        }
        if bin_len != n {
            return Err(LsmError::Corrupt);
        }
        if n == 0 {
            return Err(LsmError::Corrupt);
        }
        if step == 2 && bin_off > (u16::MAX as u32) {
            return Err(LsmError::Corrupt);
        }
        let ghost parse_shape: Option<Seq<KeyedBlockHandleSpec>> = spec_ib_parse(data@);
        let mut acc: Vec<KeyedBlockHandle> = Vec::new();
        let mut poss: Vec<usize> = Vec::new();
        let mut pos: usize = 0;
        let mut j: u32 = 0;
        while j < n
            invariant
                0 <= j <= n,
                data@ == inner.data@,
                pos <= data@.len(),
                acc@.len() == j,
                poss@.len() == j,
                data@.len() <= usize::MAX,
                forall|k: int| 0 <= k < j ==> 0 <= #[trigger] poss@[k] <= pos,
                parse_shape == spec_ib_parse(data@),
                match spec_dec_handles(data@, pos as int, n - j) {
                    Some((hs2, ps2, end)) => spec_dec_handles(data@, 0, n as int) == Some::<
                        (Seq<KeyedBlockHandleSpec>, Seq<int>, int),
                    >(
                        (
                            views_of_handles(acc@) + hs2,
                            Seq::new(poss@.len(), |k: int| poss@[k] as int) + ps2,
                            end,
                        ),
                    ),
                    None => spec_dec_handles(data@, 0, n as int) is None,
                },
                parse_shape == (match spec_dec_handles(data@, 0, n as int) {
                    None => None::<Seq<KeyedBlockHandleSpec>>,
                    Some((hs, ps, end)) => if end == bin_off && (forall|i: int|
                        0 <= i < n ==> data@.subrange(
                            bin_off + i * step,
                            bin_off + (i + 1) * step,
                        ) == spec_bin_entry(#[trigger] ps[i], step as int)) {
                        Some(hs)
                    } else {
                        None
                    },
                }),
            decreases n - j,
        {
            let (rh, end) = match parse_restart_head(data, pos) {
                Some(x) => x,
                None => {
                    return Err(LsmError::Corrupt);
                },
            };
            let key = copy_range(data, rh.key_start, rh.key_start + rh.key_len);
            let h = KeyedBlockHandle { end_key: key, offset: rh.offset, size: rh.size };
            let ghost old_acc = acc@;
            let ghost old_poss = poss@;
            acc.push(h);
            poss.push(pos);
            proof {
                assert(views_of_handles(acc@) =~= views_of_handles(old_acc) + seq![h@]);
                assert(h@ =~= spec_dec_handle(data@, pos as int).unwrap().0);
                assert(Seq::new(poss@.len(), |k: int| poss@[k] as int) =~= Seq::new(
                    old_poss.len(),
                    |k: int| old_poss[k] as int,
                ) + seq![pos as int]);
                match spec_dec_handles(data@, end as int, n - j - 1) {
                    Some((hs2, ps2, e2)) => {
                        assert(views_of_handles(acc@) + hs2 =~= views_of_handles(old_acc) + (
                        seq![h@] + hs2));
                        assert(Seq::new(poss@.len(), |k: int| poss@[k] as int) + ps2 =~= Seq::new(
                            old_poss.len(),
                            |k: int| old_poss[k] as int,
                        ) + (seq![pos as int] + ps2));
                    },
                    None => {},
                }
            }
            pos = end;
            j = j + 1;
        }
        if pos != bin_off as usize {
            return Err(LsmError::Corrupt);
        }
        // check the binary index points at the handle positions
        let reader = BinaryIndexReader::new(data, bin_off as usize, bin_len, step);
        let ghost gps = Seq::new(poss@.len(), |k: int| poss@[k] as int);
        proof {
            assert(spec_dec_handles(data@, pos as int, 0) == Some::<(
                Seq<KeyedBlockHandleSpec>,
                Seq<int>,
                int,
            )>((Seq::empty(), Seq::empty(), pos as int)));
            assert(views_of_handles(acc@) + Seq::<KeyedBlockHandleSpec>::empty()
                =~= views_of_handles(acc@));
            assert(gps + Seq::<int>::empty() =~= gps);
        }
        let mut i: u32 = 0;
        while i < n
            invariant
                0 <= i <= n,
                data@ == inner.data@,
                acc@.len() == n,
                poss@.len() == n,
                gps == Seq::new(poss@.len(), |k: int| poss@[k] as int),
                reader.wf(),
                reader.spec_len() == n,
                forall|k: int|
                    reader.spec_entry(k) == BinaryIndexReader::spec_entry_of(
                        data@,
                        bin_off as int,
                        step as int,
                        k,
                    ),
                step == 2 || step == 4,
                step == 2 ==> bin_off <= u16::MAX,
                bin_off as int + step as int * (n as int) <= data@.len(),
                forall|k: int| 0 <= k < n ==> 0 <= #[trigger] gps[k] <= bin_off,
                parse_shape == spec_ib_parse(data@),
                parse_shape == (if (forall|k: int|
                    0 <= k < n ==> data@.subrange(
                        bin_off + k * step,
                        bin_off + (k + 1) * step,
                    ) == spec_bin_entry(#[trigger] gps[k], step as int)) {
                    Some(views_of_handles(acc@))
                } else {
                    None::<Seq<KeyedBlockHandleSpec>>
                }),
                forall|k: int|
                    0 <= k < i ==> data@.subrange(
                        bin_off + k * step,
                        bin_off + (k + 1) * step,
                    ) == spec_bin_entry(#[trigger] gps[k], step as int),
            decreases n - i,
        {
            let stored = reader.get(i);
            let expected = poss[i as usize];
            proof {
                assert((i as int + 1) * step as int <= step as int * (n as int))
                    by (nonlinear_arith)
                    requires
                        0 <= i < n,
                        step == 2 || step == 4,
                ;
                lemma_bin_entry_match(data@, bin_off as int, step as int, i as int, gps[i as int]);
            }
            if stored != expected {
                return Err(LsmError::Corrupt);
            }
            i = i + 1;
        }
        // check end keys ascend
        let mut s: usize = 1;
        while s < acc.len()
            invariant
                acc@.len() == 0 || 1 <= s,
                s <= acc@.len() + 1,
                parse_shape == spec_ib_parse(inner.data@),
                parse_shape == Some(views_of_handles(acc@)),
                forall|x: int|
                    0 <= x < s - 1 && x < acc@.len() - 1 ==> lex_le(
                        #[trigger] views_of_handles(acc@)[x].end_key,
                        views_of_handles(acc@)[x + 1].end_key,
                    ),
            decreases acc@.len() - s,
        {
            if !bytes_le(acc[s - 1].end_key.as_slice(), acc[s].end_key.as_slice()) {
                proof {
                    assert(views_of_handles(acc@)[s - 1] == acc@[s - 1]@);
                    assert(views_of_handles(acc@)[s as int] == acc@[s as int]@);
                    assert(!lex_le(
                        views_of_handles(acc@)[s - 1].end_key,
                        views_of_handles(acc@)[s as int].end_key,
                    ));
                }
                return Err(LsmError::Corrupt);
            }
            proof {
                assert(views_of_handles(acc@)[s - 1] == acc@[s - 1]@);
                assert(views_of_handles(acc@)[s as int] == acc@[s as int]@);
                assert(lex_le(
                    views_of_handles(acc@)[s - 1].end_key,
                    views_of_handles(acc@)[s as int].end_key,
                ));
            }
            s = s + 1;
        }
        Ok(
            IndexBlock {
                inner,
                handles: acc,
                restart_interval: rint,
                binary_index_step_size: step,
                binary_index_offset: bin_off,
                binary_index_len: bin_len,
            },
        )
    }

    /// The decoded handles, in order.
    pub fn handles(&self) -> (r: &Vec<KeyedBlockHandle>)
        ensures
            views_of_handles(r@) == self.views(),
    {
        &self.handles
    }

    /// Returns the amount of handles in the block.
    pub fn item_count(&self) -> (r: usize)
        ensures
            r == self.views().len(),
    {
        self.handles.len()
    }

    /// Whether the block holds no handles: never true for a decoded index
    /// block, since the format refuses an empty handle run.
    pub fn is_empty(&self) -> (r: bool)
        ensures
            r == (self.views().len() == 0),
    {
        self.handles.len() == 0
    }

    /// Access the inner raw bytes.
    pub fn bytes(&self) -> (r: &Vec<u8>)
        ensures
            r@ == self.spec_inner_data(),
    {
        &self.inner.data
    }

    /// Returns the binary index length (number of pointers, one per
    /// restart interval).
    pub fn binary_index_len(&self) -> (r: u32)
        ensures
            r == self.spec_binary_index_len(),
    {
        self.binary_index_len
    }

    /// The stored binary index length.
    pub closed spec fn spec_binary_index_len(&self) -> u32 {
        self.binary_index_len
    }

    /// Returns the binary index offset within the block bytes.
    pub fn binary_index_offset(&self) -> (r: u32)
        ensures
            r == self.spec_binary_index_offset(),
    {
        self.binary_index_offset
    }

    /// The stored binary index offset.
    pub closed spec fn spec_binary_index_offset(&self) -> u32 {
        self.binary_index_offset
    }

    /// Returns the binary index step size: 2 for `u16` pointers (blocks up
    /// to 64 KiB), 4 for `u32` pointers.
    pub fn binary_index_step_size(&self) -> (r: u8)
        ensures
            r == self.spec_binary_index_step_size(),
    {
        self.binary_index_step_size
    }

    /// The stored binary index step size.
    pub closed spec fn spec_binary_index_step_size(&self) -> u8 {
        self.binary_index_step_size
    }

    /// A reader over the block's binary index region.
    pub fn get_binary_index_reader(&self) -> (r: BinaryIndexReader<'_>)
        requires
            self.spec_binary_index_offset() + self.spec_binary_index_step_size()
                * self.spec_binary_index_len() <= self.spec_inner_data().len(),
            self.spec_binary_index_step_size() == 2 || self.spec_binary_index_step_size() == 4,
        ensures
            r.wf(),
            r.spec_len() == self.spec_binary_index_len(),
    {
        BinaryIndexReader::new(
            self.inner.data.as_slice(),
            self.binary_index_offset as usize,
            self.binary_index_len,
            self.binary_index_step_size,
        )
    }

    /// Search for the lowest handle that may contain the needle: the first
    /// one whose end key is at least the needle, or the last handle when
    /// every end key is below it.  `None` only on an empty block.
    pub fn search_lowest(&self, needle: &[u8]) -> (r: Option<usize>)
        requires
            self.wf(),
        ensures
            match r {
                Some(j) => 0 <= j < self.views().len() && j as int == (
                match spec_first_ge(self.views(), needle@, 0) {
                    Some(i) => i,
                    None => self.views().len() - 1,
                }),
                None => self.views().len() == 0,
            },
    {
        let n = self.handles.len();
        if n == 0 {
            return None;
        }
        let mut lo: usize = 0;
        let mut hi: usize = n;
        while lo < hi
            invariant
                self.wf(),
                0 <= lo <= hi <= n,
                n == self.views().len(),
                n >= 1,
                forall|j: int| 0 <= j < lo ==> !lex_le(needle@, #[trigger] self.views()[j].end_key),
                forall|j: int|
                    hi <= j < n ==> lex_le(needle@, #[trigger] self.views()[j].end_key),
            decreases hi - lo,
        {
            let mid = lo + (hi - lo) / 2;
            proof {
                assert(self.views()[mid as int] == self.handles@[mid as int]@);
            }
            if bytes_lt(self.handles[mid].end_key.as_slice(), needle) {
                proof {
                    assert forall|j: int|
                        0 <= j < mid + 1 implies !lex_le(
                        needle@,
                        #[trigger] self.views()[j].end_key,
                    ) by {
                        if j >= lo {
                            lemma_handles_sorted_le(self.views(), j, mid as int);
                            if lex_le(needle@, self.views()[j].end_key) {
                                crate::bytes_util::lemma_lex_le_trans(
                                    needle@,
                                    self.views()[j].end_key,
                                    self.views()[mid as int].end_key,
                                );
                            }
                        }
                    }
                }
                lo = mid + 1;
            } else {
                proof {
                    assert forall|j: int|
                        mid <= j < n implies lex_le(needle@, #[trigger] self.views()[j].end_key) by {
                        lemma_handles_sorted_le(self.views(), mid as int, j);
                        crate::bytes_util::lemma_lex_le_trans(
                            needle@,
                            self.views()[mid as int].end_key,
                            self.views()[j].end_key,
                        );
                    }
                }
                hi = mid;
            }
        }
        proof {
            lemma_first_ge_at(self.views(), needle@, lo as int, 0);
        }
        if lo < n {
            Some(lo)
        } else {
            Some(n - 1)
        }
    }

    /// Search for the last handle that may contain the needle for reverse
    /// iteration: the first one whose end key is strictly above the
    /// needle, or the last handle when no end key is.  `None` only on an
    /// empty block.
    pub fn search_highest(&self, needle: &[u8]) -> (r: Option<usize>)
        requires
            self.wf(),
        ensures
            match r {
                Some(j) => 0 <= j < self.views().len() && j as int == (
                match spec_first_gt(self.views(), needle@, 0) {
                    Some(i) => i,
                    None => self.views().len() - 1,
                }),
                None => self.views().len() == 0,
            },
    {
        let n = self.handles.len();
        if n == 0 {
            return None;
        }
        let mut lo: usize = 0;
        let mut hi: usize = n;
        while lo < hi
            invariant
                self.wf(),
                0 <= lo <= hi <= n,
                n == self.views().len(),
                n >= 1,
                forall|j: int| 0 <= j < lo ==> !lex_lt(needle@, #[trigger] self.views()[j].end_key),
                forall|j: int|
                    hi <= j < n ==> lex_lt(needle@, #[trigger] self.views()[j].end_key),
            decreases hi - lo,
        {
            let mid = lo + (hi - lo) / 2;
            proof {
                assert(self.views()[mid as int] == self.handles@[mid as int]@);
            }
            if bytes_le(self.handles[mid].end_key.as_slice(), needle) {
                proof {
                    assert forall|j: int|
                        0 <= j < mid + 1 implies !lex_lt(
                        needle@,
                        #[trigger] self.views()[j].end_key,
                    ) by {
                        if j >= lo {
                            lemma_handles_sorted_le(self.views(), j, mid as int);
                            if lex_lt(needle@, self.views()[j].end_key) {
                                crate::bytes_util::lemma_lex_lt_le_trans(
                                    needle@,
                                    self.views()[j].end_key,
                                    self.views()[mid as int].end_key,
                                );
                            }
                        }
                    }
                }
                lo = mid + 1;
            } else {
                proof {
                    assert forall|j: int|
                        mid <= j < n implies lex_lt(needle@, #[trigger] self.views()[j].end_key) by {
                        lemma_handles_sorted_le(self.views(), mid as int, j);
                        crate::bytes_util::lemma_lex_lt_le_trans(
                            needle@,
                            self.views()[mid as int].end_key,
                            self.views()[j].end_key,
                        );
                    }
                }
                hi = mid;
            }
        }
        proof {
            lemma_first_gt_at(self.views(), needle@, lo as int, 0);
        }
        if lo < n {
            Some(lo)
        } else {
            Some(n - 1)
        }
    }

    /// The smallest handle whose end key is at least the needle, or
    /// nothing when the needle lies beyond the last end key.
    pub fn get_lowest_possible_block(&self, needle: &[u8]) -> (r: Option<KeyedBlockHandle>)
        requires
            self.wf(),
        ensures
            match spec_first_ge(self.views(), needle@, 0) {
                Some(i) => r is Some && r.unwrap()@ == self.views()[i],
                None => r is None,
            },
    {
        let j = match self.search_lowest(needle) {
            Some(j) => j,
            None => {
                return None;
            },
        };
        proof {
            assert(self.views()[j as int] == self.handles@[j as int]@);
        }
        if bytes_lt(self.handles[j].end_key.as_slice(), needle) {
            proof {
                if spec_first_ge(self.views(), needle@, 0) is Some {
                    let i = spec_first_ge(self.views(), needle@, 0).unwrap();
                    lemma_first_ge_props(self.views(), needle@, 0);
                    crate::bytes_util::lemma_lex_asym(self.views()[j as int].end_key, needle@);
                }
            }
            return None;
        }
        proof {
            if spec_first_ge(self.views(), needle@, 0) is None {
                lemma_first_ge_exists(self.views(), needle@, 0, j as int);
            }
        }
        Some(self.handles[j].duplicate())
    }

    /// The handle reverse iteration starts from: the first handle whose
    /// end key is strictly above the needle, else the last handle; nothing
    /// when the needle lies beyond the last end key.
    pub fn get_highest_possible_block(&self, needle: &[u8]) -> (r: Option<KeyedBlockHandle>)
        requires
            self.wf(),
        ensures
            ({
                let views = self.views();
                if views.len() == 0 {
                    r is None
                } else {
                    match spec_first_gt(views, needle@, 0) {
                        Some(i) => r is Some && r.unwrap()@ == views[i],
                        None => if lex_lt(views[views.len() - 1].end_key, needle@) {
                            r is None
                        } else {
                            r is Some && r.unwrap()@ == views[views.len() - 1]
                        },
                    }
                }
            }),
    {
        let j = match self.search_highest(needle) {
            Some(j) => j,
            None => {
                return None;
            },
        };
        proof {
            assert(self.views()[j as int] == self.handles@[j as int]@);
        }
        if bytes_lt(self.handles[j].end_key.as_slice(), needle) {
            proof {
                if spec_first_gt(self.views(), needle@, 0) is Some {
                    let i = spec_first_gt(self.views(), needle@, 0).unwrap();
                    lemma_first_gt_props(self.views(), needle@, 0);
                    crate::bytes_util::lemma_lex_asym(needle@, self.views()[j as int].end_key);
                }
            }
            return None;
        }
        Some(self.handles[j].duplicate())
    }
}

/// A witness that some end key reaches the needle shows the search finds
/// one.
proof fn lemma_first_ge_exists(views: Seq<KeyedBlockHandleSpec>, needle: Seq<u8>, i: int, w: int)
    requires
        0 <= i <= w < views.len(),
        lex_le(needle, views[w].end_key),
    ensures
        spec_first_ge(views, needle, i) is Some,
    decreases w - i,
{
    if i < w && !lex_le(needle, views[i].end_key) {
        lemma_first_ge_exists(views, needle, i + 1, w);
    }
}

/// A found `spec_first_ge` index satisfies its own test.
proof fn lemma_first_ge_props(views: Seq<KeyedBlockHandleSpec>, needle: Seq<u8>, i: int)
    requires
        0 <= i,
        spec_first_ge(views, needle, i) is Some,
    ensures
        ({
            let j = spec_first_ge(views, needle, i).unwrap();
            &&& i <= j < views.len()
            &&& lex_le(needle, views[j].end_key)
        }),
    decreases views.len() - i,
{
    if i < views.len() && !lex_le(needle, views[i].end_key) {
        lemma_first_ge_props(views, needle, i + 1);
    }
}

/// A found `spec_first_gt` index satisfies its own test.
proof fn lemma_first_gt_props(views: Seq<KeyedBlockHandleSpec>, needle: Seq<u8>, i: int)
    requires
        0 <= i,
        spec_first_gt(views, needle, i) is Some,
    ensures
        ({
            let j = spec_first_gt(views, needle, i).unwrap();
            &&& i <= j < views.len()
            &&& lex_lt(needle, views[j].end_key)
        }),
    decreases views.len() - i,
{
    if i < views.len() && !lex_lt(needle, views[i].end_key) {
        lemma_first_gt_props(views, needle, i + 1);
    }
}

/// The stored binary index entry for position `k` matches the expected
/// position exactly when its decoded value does.
proof fn lemma_bin_entry_match(data: Seq<u8>, bin_off: int, step: int, k: int, expected: int)
    requires
        step == 2 || step == 4,
        0 <= bin_off,
        0 <= k,
        bin_off + (k + 1) * step <= data.len(),
        0 <= expected <= bin_off,
        step == 2 ==> bin_off <= u16::MAX,
        bin_off <= u32::MAX,
    ensures
        (data.subrange(bin_off + k * step, bin_off + (k + 1) * step) == spec_bin_entry(
            expected,
            step,
        )) == (BinaryIndexReader::spec_entry_of(data, bin_off, step, k) == expected),
{
    let o = bin_off + step * k;
    assert((k + 1) * step == k * step + step) by (nonlinear_arith);
    assert(step * k == k * step) by (nonlinear_arith);
    let sub = data.subrange(bin_off + k * step, bin_off + (k + 1) * step);
    if step == 2 {
        assert(sub.len() == 2);
        assert(sub[0] == data[o] && sub[1] == data[o + 1]);
        crate::coding::lemma_le16_round_trip(expected as u16);
        if sub == spec_bin_entry(expected, step) {
            assert(data[o] == spec_le16(expected as u16)[0]);
            assert(data[o + 1] == spec_le16(expected as u16)[1]);
            assert(spec_u16_of_le(data[o], data[o + 1]) == expected as u16);
        }
        if BinaryIndexReader::spec_entry_of(data, bin_off, step, k) == expected {
            assert(spec_u16_of_le(data[o], data[o + 1]) as int == expected);
            assert(data.subrange(o, o + 2) == spec_le16(spec_u16_of_le(data[o], data[o + 1])))
                by {
                assert(data.subrange(o, o + 2) =~= seq![data[o], data[o + 1]]);
                lemma_le16_parts(data[o], data[o + 1]);
            }
            assert(sub =~= spec_bin_entry(expected, step));
        }
    } else {
        assert(sub.len() == 4);
        assert(sub[0] == data[o] && sub[1] == data[o + 1] && sub[2] == data[o + 2] && sub[3]
            == data[o + 3]);
        crate::coding::lemma_le32_round_trip(expected as u32);
        if sub == spec_bin_entry(expected, step) {
            assert(data[o] == spec_le32(expected as u32)[0]);
            assert(data[o + 1] == spec_le32(expected as u32)[1]);
            assert(data[o + 2] == spec_le32(expected as u32)[2]);
            assert(data[o + 3] == spec_le32(expected as u32)[3]);
            assert(spec_u32_of_le(data[o], data[o + 1], data[o + 2], data[o + 3])
                == expected as u32);
        }
        if BinaryIndexReader::spec_entry_of(data, bin_off, step, k) == expected {
            assert(spec_u32_of_le(data[o], data[o + 1], data[o + 2], data[o + 3]) as int
                == expected);
            assert(data.subrange(o, o + 4) == spec_le32(
                spec_u32_of_le(data[o], data[o + 1], data[o + 2], data[o + 3]),
            )) by {
                assert(data.subrange(o, o + 4) =~= seq![
                    data[o],
                    data[o + 1],
                    data[o + 2],
                    data[o + 3],
                ]);
                lemma_le32_parts(data[o], data[o + 1], data[o + 2], data[o + 3]);
            }
            assert(sub =~= spec_bin_entry(expected, step));
        }
    }
}

/// Two bytes are the little-endian encoding of the value they denote.
proof fn lemma_le16_parts(b0: u8, b1: u8)
    ensures
        spec_le16(spec_u16_of_le(b0, b1)) == seq![b0, b1],
{
    let v = spec_u16_of_le(b0, b1);
    assert((((b0 as u16) | ((b1 as u16) << 8)) & 0xff) as u8 == b0) by (bit_vector);
    assert(((((b0 as u16) | ((b1 as u16) << 8)) >> 8) & 0xff) as u8 == b1) by (bit_vector);
    assert(spec_le16(v) =~= seq![b0, b1]);
}

/// Four bytes are the little-endian encoding of the value they denote.
proof fn lemma_le32_parts(b0: u8, b1: u8, b2: u8, b3: u8)
    ensures
        spec_le32(spec_u32_of_le(b0, b1, b2, b3)) == seq![b0, b1, b2, b3],
{
    let v = spec_u32_of_le(b0, b1, b2, b3);
    let w = (b0 as u32) | ((b1 as u32) << 8) | ((b2 as u32) << 16) | ((b3 as u32) << 24);
    assert((w & 0xff) as u8 == b0 && ((w >> 8) & 0xff) as u8 == b1 && ((w >> 16) & 0xff) as u8 == b2
        && ((w >> 24) & 0xff) as u8 == b3) by (bit_vector)
        requires
            w == (b0 as u32) | ((b1 as u32) << 8) | ((b2 as u32) << 16) | ((b3 as u32) << 24),
    ;
    assert(spec_le32(v) =~= seq![b0, b1, b2, b3]);
}

/// Encodes a run of keyed handles into a full index block payload, every
/// handle a restart head (interval one).  An index block is never empty,
/// so at least one handle is required.  Succeeds exactly when every
/// handle is well formed and the handle count and encoded bytes fit in 32
/// bits.
pub fn encode_items(items: &Vec<KeyedBlockHandle>) -> (r: Result<Vec<u8>, LsmError>)
    requires
        items@.len() >= 1,
    ensures
        ({
            let views = views_of_handles(items@);
            match r {
                Ok(bytes) => {
                    &&& (forall|j: int| 0 <= j < views.len() ==> spec_handle_wf(#[trigger] views[j]))
                    &&& views.len() <= u32::MAX
                    &&& spec_enc_handles(views, 0).len() <= u32::MAX
                    &&& bytes@ == spec_ib_encode(views)
                },
                Err(e) => {
                    &&& e == LsmError::Corrupt
                    &&& !({
                        &&& (forall|j: int|
                            0 <= j < views.len() ==> spec_handle_wf(#[trigger] views[j]))
                        &&& views.len() <= u32::MAX
                        &&& spec_enc_handles(views, 0).len() <= u32::MAX
                    })
                },
            }
        }),
{
    let ghost views = views_of_handles(items@);
    if items.len() > (u32::MAX as usize) {
        return Err(LsmError::Corrupt);
    }
    let ghost full = spec_enc_handles(views, 0);
    let mut out: Vec<u8> = Vec::new();
    let mut offs: Vec<u32> = Vec::new();
    let mut i: usize = 0;
    while i < items.len()
        invariant
            0 <= i <= items@.len(),
            items@.len() <= u32::MAX,
            views == views_of_handles(items@),
            full == spec_enc_handles(views, 0),
            out@ + spec_enc_handles(views, i as int) == full,
            forall|j: int| 0 <= j < i ==> spec_handle_wf(#[trigger] views[j]),
            offs@.len() == i,
            forall|h: int| 0 <= h < i ==> offs@[h] == spec_handle_off(views, h),
        decreases items@.len() - i,
    {
        let e = &items[i];
        proof {
            assert(views[i as int] == items@[i as int]@);
        }
        if e.end_key.len() < 1 || e.end_key.len() > 65535 {
            return Err(LsmError::Corrupt);
        }
        if out.len() > (u32::MAX as usize) {
            proof {
                assert(full.len() >= out@.len());
            }
            return Err(LsmError::Corrupt);
        }
        offs.push(out.len() as u32);
        put_varint(&mut out, e.offset);
        put_varint(&mut out, e.size as u64);
        put_varint(&mut out, e.end_key.len() as u64);
        crate::bytes_util::append_bytes(&mut out, e.end_key.as_slice());
        i = i + 1;
        proof {
            assert(out@ + spec_enc_handles(views, i as int) =~= full);
        }
    }
    proof {
        assert(out@ =~= full);
    }
    if out.len() > (u32::MAX as usize) {
        return Err(LsmError::Corrupt);
    }
    let n_items: u32 = items.len() as u32;
    let bin_off: u32 = out.len() as u32;
    let step: u8 = if out.len() <= (u16::MAX as usize) {
        2
    } else {
        4
    };
    let hc: usize = offs.len();
    let mut h: usize = 0;
    while h < hc
        invariant
            0 <= h <= hc,
            hc == offs@.len(),
            hc == views.len(),
            views == views_of_handles(items@),
            full == spec_enc_handles(views, 0),
            full.len() <= u32::MAX,
            step as int == (if full.len() <= u16::MAX {
                2int
            } else {
                4int
            }),
            forall|g: int| 0 <= g < offs@.len() ==> offs@[g] == spec_handle_off(views, g),
            out@ + spec_ib_bin_index(views, step as int, h as int) == full + spec_ib_bin_index(
                views,
                step as int,
                0,
            ),
        decreases hc - h,
    {
        let off = offs[h];
        if step == 2 {
            put_u16_le(&mut out, off as u16);
        } else {
            put_u32_le(&mut out, off as u32);
        }
        h = h + 1;
        proof {
            assert(out@ + spec_ib_bin_index(views, step as int, h as int) =~= full
                + spec_ib_bin_index(views, step as int, 0));
        }
    }
    put_u32_le(&mut out, n_items);
    out.push(1);
    out.push(step);
    put_u32_le(&mut out, bin_off);
    put_u32_le(&mut out, n_items);
    proof {
        assert(out@ =~= spec_ib_encode(views));
    }
    Ok(out)
}

} // verus!
