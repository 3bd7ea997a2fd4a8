//! Data blocks: a run of internal values in restart-interval encoding with
//! prefix truncation, followed by a binary index over the interval heads
//! and a fixed trailer.
//!
//! The first entry of each restart interval stores its full key; the
//! entries after it store `(shared prefix length, remainder)` relative to
//! the interval's base key.

use vstd::prelude::*;

use crate::bytes_util::{common_prefix, common_prefix_len, copy_range, lemma_common_prefix_len,
    lemma_sub_piece};
use crate::coding::{
    get_u32_le, get_varint, lemma_le32_round_trip, lemma_varint_round_trip, put_u16_le, put_u32_le,
    put_varint, spec_le16, spec_le32, spec_u32_of_le, spec_varint, spec_varint_decode,
};
use crate::error::LsmError;
use crate::value::{
    spec_entries_sorted, spec_entry_lt, spec_entry_wf, spec_vt_from_tag, views_of_entries,
    EntrySpec, InternalValue, ValueType,
};

verus! {

/// The on-disk bytes of an interval head: tag, seqno, key length, key,
/// value length, value.
pub open spec fn spec_enc_head(e: EntrySpec) -> Seq<u8> {
    seq![e.value_type.spec_tag()] + spec_varint(e.seqno) + spec_varint(e.key.len() as u64) + e.key
        + spec_varint(e.value.len() as u64) + e.value
}

/// The on-disk bytes of a truncated entry: tag, seqno, shared prefix
/// length, remainder length, remainder, value length, value.  The shared
/// prefix is the longest common prefix with the interval's base key.
pub open spec fn spec_enc_trunc(e: EntrySpec, base: Seq<u8>) -> Seq<u8> {
    let shared = common_prefix_len(base, e.key);
    seq![e.value_type.spec_tag()] + spec_varint(e.seqno) + spec_varint(shared as u64) + spec_varint(
        (e.key.len() - shared) as u64,
    ) + e.key.skip(shared) + spec_varint(e.value.len() as u64) + e.value
}

/// Decodes an interval head at `pos`.
pub open spec fn spec_dec_head(data: Seq<u8>, pos: int) -> Option<(EntrySpec, int)> {
    if pos < 0 || pos >= data.len() {
        None
    } else {
        match spec_vt_from_tag(data[pos]) {
            None => None,
            Some(vt) => match spec_varint_decode(data, pos + 1) {
                None => None,
                Some((seqno, p1)) => match spec_varint_decode(data, p1) {
                    None => None,
                    Some((klen, p2)) => if klen < 1 || klen > 65535 || p2 + klen > data.len() {
                        None
                    } else {
                        match spec_varint_decode(data, p2 + klen) {
                            None => None,
                            Some((vlen, p3)) => if vlen > u32::MAX || p3 + vlen > data.len() {
                                None
                            } else {
                                Some(
                                    (
                                        EntrySpec {
                                            key: data.subrange(p2, p2 + klen),
                                            seqno,
                                            value_type: vt,
                                            value: data.subrange(p3, p3 + vlen),
                                        },
                                        p3 + vlen,
                                    ),
                                )
                            },
                        }
                    },
                },
            },
        }
    }
}

/// Decodes a truncated entry at `pos`, relative to the base key of its
/// interval.
pub open spec fn spec_dec_trunc(data: Seq<u8>, pos: int, base: Seq<u8>) -> Option<(EntrySpec, int)> {
    if pos < 0 || pos >= data.len() {
        None
    } else {
        match spec_vt_from_tag(data[pos]) {
            None => None,
            Some(vt) => match spec_varint_decode(data, pos + 1) {
                None => None,
                Some((seqno, p1)) => match spec_varint_decode(data, p1) {
                    None => None,
                    Some((shared, p2)) => match spec_varint_decode(data, p2) {
                        None => None,
                        Some((rest, p3)) => if shared > base.len() || shared + rest < 1 || shared
                            + rest > 65535 || p3 + rest > data.len() {
                            None
                        } else {
                            match spec_varint_decode(data, p3 + rest) {
                                None => None,
                                Some((vlen, p4)) => if vlen > u32::MAX || p4 + vlen > data.len() {
                                    None
                                } else {
                                    Some(
                                        (
                                            EntrySpec {
                                                key: base.take(shared as int) + data.subrange(
                                                    p3,
                                                    p3 + rest,
                                                ),
                                                seqno,
                                                value_type: vt,
                                                value: data.subrange(p4, p4 + vlen),
                                            },
                                            p4 + vlen,
                                        ),
                                    )
                                },
                            }
                        },
                    },
                },
            },
        }
    }
}

/// Encodes the entries from index `i` on: heads at multiples of the
/// restart interval, truncated entries in between, `base` being the key of
/// the interval head before `i`.
pub open spec fn spec_enc_entries(views: Seq<EntrySpec>, i: int, rint: int, base: Seq<u8>) -> Seq<
    u8,
>
    decreases views.len() - i,
{
    if rint < 1 || i < 0 || i >= views.len() {
        Seq::empty()
    } else if i % rint == 0 {
        spec_enc_head(views[i]) + spec_enc_entries(views, i + 1, rint, views[i].key)
    } else {
        spec_enc_trunc(views[i], base) + spec_enc_entries(views, i + 1, rint, base)
    }
}

/// Decodes `n` entries starting at `pos`, entry index `i`, with interval
/// base `base`; yields the entries and the end position.
pub open spec fn spec_dec_entries(
    data: Seq<u8>,
    pos: int,
    n: int,
    i: int,
    rint: int,
    base: Seq<u8>,
) -> Option<(Seq<EntrySpec>, int)>
    decreases n,
{
    if n <= 0 {
        Some((Seq::empty(), pos))
    } else if rint < 1 {
        None
    } else if i % rint == 0 {
        match spec_dec_head(data, pos) {
            None => None,
            Some((e, p2)) => match spec_dec_entries(data, p2, n - 1, i + 1, rint, e.key) {
                None => None,
                Some((es, p3)) => Some((seq![e] + es, p3)),
            },
        }
    } else {
        match spec_dec_trunc(data, pos, base) {
            None => None,
            Some((e, p2)) => match spec_dec_entries(data, p2, n - 1, i + 1, rint, base) {
                None => None,
                Some((es, p3)) => Some((seq![e] + es, p3)),
            },
        }
    }
}

/// Decoding an encoded head yields the entry back.
pub proof fn lemma_dec_head_of_enc(data: Seq<u8>, pos: int, e: EntrySpec)
    requires
        spec_entry_wf(e),
        0 <= pos,
        pos + spec_enc_head(e).len() <= data.len(),
        data.subrange(pos, pos + spec_enc_head(e).len() as int) == spec_enc_head(e),
    ensures
        spec_dec_head(data, pos) == Some::<(EntrySpec, int)>(
            (e, pos + spec_enc_head(e).len() as int),
        ),
{
    let enc = spec_enc_head(e);
    let sv = spec_varint(e.seqno);
    let kv = spec_varint(e.key.len() as u64);
    let vv = spec_varint(e.value.len() as u64);
    let o1 = 1int;
    let o2 = o1 + sv.len() as int;
    let o3 = o2 + kv.len() as int;
    let o4 = o3 + e.key.len() as int;
    let o5 = o4 + vv.len() as int;
    let o6 = o5 + e.value.len() as int;
    assert(enc.len() == o6);
    assert(data[pos] == e.value_type.spec_tag()) by {
        assert(data.subrange(pos, pos + enc.len() as int)[0] == data[pos]);
        assert(enc[0] == e.value_type.spec_tag());
    }
    assert(enc.subrange(o1, o2) =~= sv);
    assert(enc.subrange(o2, o3) =~= kv);
    assert(enc.subrange(o3, o4) =~= e.key);
    assert(enc.subrange(o4, o5) =~= vv);
    assert(enc.subrange(o5, o6) =~= e.value);
    lemma_sub_piece(data, pos, enc, o1, o2);
    lemma_sub_piece(data, pos, enc, o2, o3);
    lemma_sub_piece(data, pos, enc, o3, o4);
    lemma_sub_piece(data, pos, enc, o4, o5);
    lemma_sub_piece(data, pos, enc, o5, o6);
    lemma_varint_round_trip(data, pos + o1, e.seqno);
    lemma_varint_round_trip(data, pos + o2, e.key.len() as u64);
    lemma_varint_round_trip(data, pos + o4, e.value.len() as u64);
    assert(spec_vt_from_tag(e.value_type.spec_tag()) == Some(e.value_type));
    assert(data.subrange(pos + o3, pos + o4) == e.key);
    assert(data.subrange(pos + o5, pos + o6) == e.value);
    assert(spec_dec_head(data, pos) == Some::<(EntrySpec, int)>((
        EntrySpec {
            key: data.subrange(pos + o3, pos + o4),
            seqno: e.seqno,
            value_type: e.value_type,
            value: data.subrange(pos + o5, pos + o6),
        },
        pos + o6,
    )));
    assert(EntrySpec {
        key: data.subrange(pos + o3, pos + o4),
        seqno: e.seqno,
        value_type: e.value_type,
        value: data.subrange(pos + o5, pos + o6),
    } =~= e);
}

/// Decoding an encoded truncated entry yields the entry back.
pub proof fn lemma_dec_trunc_of_enc(data: Seq<u8>, pos: int, e: EntrySpec, base: Seq<u8>)
    requires
        spec_entry_wf(e),
        0 <= pos,
        pos + spec_enc_trunc(e, base).len() <= data.len(),
        data.subrange(pos, pos + spec_enc_trunc(e, base).len() as int) == spec_enc_trunc(e, base),
    ensures
        spec_dec_trunc(data, pos, base) == Some::<(EntrySpec, int)>(
            (e, pos + spec_enc_trunc(e, base).len() as int),
        ),
{
    lemma_common_prefix_len(base, e.key);
    let shared = common_prefix_len(base, e.key);
    let rest = e.key.len() - shared;
    let enc = spec_enc_trunc(e, base);
    let sv = spec_varint(e.seqno);
    let shv = spec_varint(shared as u64);
    let rv = spec_varint(rest as u64);
    let vv = spec_varint(e.value.len() as u64);
    let o1 = 1int;
    let o2 = o1 + sv.len() as int;
    let o3 = o2 + shv.len() as int;
    let o4 = o3 + rv.len() as int;
    let o5 = o4 + rest;
    let o6 = o5 + vv.len() as int;
    let o7 = o6 + e.value.len() as int;
    assert(enc.len() == o7);
    assert(data[pos] == e.value_type.spec_tag()) by {
        assert(data.subrange(pos, pos + enc.len() as int)[0] == data[pos]);
        assert(enc[0] == e.value_type.spec_tag());
    }
    assert(enc.subrange(o1, o2) =~= sv);
    assert(enc.subrange(o2, o3) =~= shv);
    assert(enc.subrange(o3, o4) =~= rv);
    assert(enc.subrange(o4, o5) =~= e.key.skip(shared));
    assert(enc.subrange(o5, o6) =~= vv);
    assert(enc.subrange(o6, o7) =~= e.value);
    lemma_sub_piece(data, pos, enc, o1, o2);
    lemma_sub_piece(data, pos, enc, o2, o3);
    lemma_sub_piece(data, pos, enc, o3, o4);
    lemma_sub_piece(data, pos, enc, o4, o5);
    lemma_sub_piece(data, pos, enc, o5, o6);
    lemma_sub_piece(data, pos, enc, o6, o7);
    lemma_varint_round_trip(data, pos + o1, e.seqno);
    lemma_varint_round_trip(data, pos + o2, shared as u64);
    lemma_varint_round_trip(data, pos + o3, rest as u64);
    lemma_varint_round_trip(data, pos + o5, e.value.len() as u64);
    assert(spec_vt_from_tag(e.value_type.spec_tag()) == Some(e.value_type));
    assert(data.subrange(pos + o4, pos + o5) == e.key.skip(shared));
    assert(data.subrange(pos + o6, pos + o7) == e.value);
    assert(base.take(shared) + e.key.skip(shared) =~= e.key);
    assert(spec_dec_trunc(data, pos, base) == Some::<(EntrySpec, int)>((
        EntrySpec {
            key: base.take(shared) + data.subrange(pos + o4, pos + o5),
            seqno: e.seqno,
            value_type: e.value_type,
            value: data.subrange(pos + o6, pos + o7),
        },
        pos + o7,
    )));
    assert(EntrySpec {
        key: base.take(shared) + data.subrange(pos + o4, pos + o5),
        seqno: e.seqno,
        value_type: e.value_type,
        value: data.subrange(pos + o6, pos + o7),
    } =~= e);
}

/// All entries from index `i` on are well formed.
pub open spec fn spec_entries_wf_from(views: Seq<EntrySpec>, i: int) -> bool {
    forall|j: int| i <= j < views.len() ==> spec_entry_wf(#[trigger] views[j])
}

/// Decoding an encoded run of entries yields the run back.
pub proof fn lemma_dec_entries_of_enc(
    data: Seq<u8>,
    pos: int,
    views: Seq<EntrySpec>,
    i: int,
    rint: int,
    base: Seq<u8>,
)
    requires
        1 <= rint,
        0 <= i <= views.len(),
        spec_entries_wf_from(views, i),
        0 <= pos,
        pos + spec_enc_entries(views, i, rint, base).len() <= data.len(),
        data.subrange(pos, pos + spec_enc_entries(views, i, rint, base).len() as int)
            == spec_enc_entries(views, i, rint, base),
    ensures
        spec_dec_entries(data, pos, views.len() - i, i, rint, base) == Some::<(Seq<EntrySpec>, int)>(
            (views.skip(i), pos + spec_enc_entries(views, i, rint, base).len() as int),
        ),
    decreases views.len() - i,
{
    let whole = spec_enc_entries(views, i, rint, base);
    if i >= views.len() {
        assert(views.skip(i) =~= Seq::<EntrySpec>::empty());
    } else {
        let chunk: Seq<u8> = if i % rint == 0 {
            spec_enc_head(views[i])
        } else {
            spec_enc_trunc(views[i], base)
        };
        let newbase: Seq<u8> = if i % rint == 0 {
            views[i].key
        } else {
            base
        };
        let tail = spec_enc_entries(views, i + 1, rint, newbase);
        assert(whole =~= chunk + tail);
        assert(whole.subrange(0, chunk.len() as int) =~= chunk);
        assert(whole.subrange(chunk.len() as int, whole.len() as int) =~= tail);
        lemma_sub_piece(data, pos, whole, 0, chunk.len() as int);
        lemma_sub_piece(data, pos, whole, chunk.len() as int, whole.len() as int);
        if i % rint == 0 {
            lemma_dec_head_of_enc(data, pos, views[i]);
        } else {
            lemma_dec_trunc_of_enc(data, pos, views[i], base);
        }
        lemma_dec_entries_of_enc(data, pos + chunk.len() as int, views, i + 1, rint, newbase);
        assert(views.skip(i) =~= seq![views[i]] + views.skip(i + 1));
    }
}

/// Number of restart heads for `n` entries with interval `rint`.
pub open spec fn spec_head_count(n: int, rint: int) -> int {
    (n + rint - 1) / rint
}

/// Byte offset, within the entries region, at which head `h` starts.
pub open spec fn spec_head_off(views: Seq<EntrySpec>, rint: int, h: int) -> int {
    spec_enc_entries(views, 0, rint, Seq::empty()).len() - spec_enc_entries(
        views,
        h * rint,
        rint,
        Seq::empty(),
    ).len()
}

/// One binary index entry: a little-endian `u16` or `u32` offset.
pub open spec fn spec_bin_entry(off: int, step: int) -> Seq<u8> {
    if step == 2 {
        spec_le16(off as u16)
    } else {
        spec_le32(off as u32)
    }
}

/// The binary index from head `h` on.
pub open spec fn spec_bin_index(views: Seq<EntrySpec>, rint: int, step: int, h: int) -> Seq<u8>
    decreases spec_head_count(views.len() as int, rint) - h,
{
    if rint < 1 || h < 0 || h >= spec_head_count(views.len() as int, rint) {
        Seq::empty()
    } else {
        spec_bin_entry(spec_head_off(views, rint, h), step) + spec_bin_index(
            views,
            rint,
            step,
            h + 1,
        )
    }
}

/// The 14 trailer bytes: item count, restart interval, binary index step
/// size, binary index offset, binary index length.
pub open spec fn spec_db_trailer(n: u32, rint: u8, step: u8, bin_off: u32, bin_len: u32) -> Seq<
    u8,
> {
    spec_le32(n) + seq![rint, step] + spec_le32(bin_off) + spec_le32(bin_len)
}

/// The full payload of a data block holding `views` with restart interval
/// `rint`: entries, binary index, trailer.
pub open spec fn spec_db_encode(views: Seq<EntrySpec>, rint: int) -> Seq<u8> {
    let entries = spec_enc_entries(views, 0, rint, Seq::empty());
    let step: int = if entries.len() <= u16::MAX {
        2
    } else {
        4
    };
    let hc = spec_head_count(views.len() as int, rint);
    entries + spec_bin_index(views, rint, step, 0) + spec_db_trailer(
        views.len() as u32,
        rint as u8,
        step as u8,
        entries.len() as u32,
        hc as u32,
    )
}

/// There are never more restart heads than entries.
pub proof fn lemma_head_count_le_n(n: int, rint: int)
    requires
        rint >= 1,
        n >= 0,
    ensures
        0 <= spec_head_count(n, rint) <= n,
{
    let q = spec_head_count(n, rint);
    vstd::arithmetic::div_mod::lemma_div_pos_is_pos(n + rint - 1, rint);
    vstd::arithmetic::div_mod::lemma_fundamental_div_mod(n + rint - 1, rint);
    vstd::arithmetic::div_mod::lemma_mod_bound(n + rint - 1, rint);
    if q > n {
        assert(q * rint >= (n + 1) * rint) by (nonlinear_arith)
            requires
                q >= n + 1,
                rint >= 1,
        ;
        assert((n + 1) * rint >= n + rint) by (nonlinear_arith)
            requires
                n >= 0,
                rint >= 1,
        ;
    }
}

/// Head counts at interval boundaries: at a head index the count grows by
/// one, elsewhere it stays.
pub proof fn lemma_head_count_step(i: int, rint: int)
    requires
        rint >= 1,
        i >= 0,
    ensures
        i % rint == 0 ==> spec_head_count(i, rint) == i / rint && spec_head_count(i + 1, rint) == i
            / rint + 1,
        i % rint != 0 ==> spec_head_count(i + 1, rint) == spec_head_count(i, rint),
    decreases 0int,
{
    vstd::arithmetic::div_mod::lemma_fundamental_div_mod(i, rint);
    vstd::arithmetic::div_mod::lemma_mod_bound(i, rint);
    let q = i / rint;
    let s = i % rint;
    vstd::arithmetic::div_mod::lemma_div_pos_is_pos(i, rint);
    assert((q + 1) * rint == q * rint + rint) by (nonlinear_arith);
    assert(q * rint == rint * q) by (nonlinear_arith);
    if s == 0 {
        vstd::arithmetic::div_mod::lemma_fundamental_div_mod_converse(
            i + rint - 1,
            rint,
            q,
            rint - 1,
        );
        vstd::arithmetic::div_mod::lemma_fundamental_div_mod_converse(i + rint, rint, q + 1, 0);
    } else {
        vstd::arithmetic::div_mod::lemma_fundamental_div_mod_converse(
            i + rint - 1,
            rint,
            q + 1,
            s - 1,
        );
        vstd::arithmetic::div_mod::lemma_fundamental_div_mod_converse(i + rint, rint, q + 1, s);
    }
}

/// The binary index over heads `h..` is `step` bytes per head.
pub proof fn lemma_bin_index_len(views: Seq<EntrySpec>, rint: int, step: int, h: int)
    requires
        rint >= 1,
        step == 2 || step == 4,
        0 <= h,
    ensures
        spec_bin_index(views, rint, step, h).len() == if h <= spec_head_count(
            views.len() as int,
            rint,
        ) {
            step * (spec_head_count(views.len() as int, rint) - h)
        } else {
            0
        },
    decreases spec_head_count(views.len() as int, rint) - h,
{
    if h < spec_head_count(views.len() as int, rint) {
        lemma_bin_index_len(views, rint, step, h + 1);
    }
}

/// What parsing a data block payload yields: the decoded entries, or
/// nothing if any part of the structure is malformed.  The binary index
/// region is bounds-checked but its entries are not consulted.
pub open spec fn spec_db_parse(data: Seq<u8>) -> Option<Seq<EntrySpec>> {
    if data.len() < 14 {
        None
    } else {
        let t = data.len() - 14;
        let n = spec_u32_of_le(data[t], data[t + 1], data[t + 2], data[t + 3]);
        let rint = data[t + 4];
        let step = data[t + 5];
        let bin_off = spec_u32_of_le(data[t + 6], data[t + 7], data[t + 8], data[t + 9]);
        let bin_len = spec_u32_of_le(data[t + 10], data[t + 11], data[t + 12], data[t + 13]);
        if rint < 1 || !(step == 2 || step == 4) || bin_off > t || bin_off + step * bin_len != t
            || bin_len != spec_head_count(n as int, rint as int) {
            None
        } else {
            match spec_dec_entries(data, 0, n as int, 0, rint as int, Seq::empty()) {
                None => None,
                Some((es, end)) => if end == bin_off {
                    Some(es)
                } else {
                    None
                },
            }
        }
    }
}

/// Parsing an encoded data block yields the entries back.
#[verifier::rlimit(100)]
#[verifier::spinoff_prover]
pub proof fn lemma_db_round_trip(views: Seq<EntrySpec>, rint: int)
    requires
        1 <= rint <= 255,
        spec_entries_wf_from(views, 0),
        views.len() <= u32::MAX,
        spec_enc_entries(views, 0, rint, Seq::empty()).len() <= u32::MAX,
    ensures
        spec_db_parse(spec_db_encode(views, rint)) == Some(views),
{
    let entries = spec_enc_entries(views, 0, rint, Seq::empty());
    let step: int = if entries.len() <= u16::MAX {
        2
    } else {
        4
    };
    let hc = spec_head_count(views.len() as int, rint);
    lemma_head_count_le_n(views.len() as int, rint);
    lemma_bin_index_len(views, rint, step, 0);
    let bin = spec_bin_index(views, rint, step, 0);
    let trl = spec_db_trailer(
        views.len() as u32,
        rint as u8,
        step as u8,
        entries.len() as u32,
        hc as u32,
    );
    let data = spec_db_encode(views, rint);
    assert(data == entries + bin + trl);
    assert(data.len() == entries.len() + bin.len() + 14);
    let t = data.len() - 14;
    assert(data.subrange(t as int, data.len() as int) =~= trl) by {
        assert forall|j: int| 0 <= j < 14 implies data[t + j] == #[trigger] trl[j] by {
            assert(data[t + j] == (entries + bin + trl)[entries.len() + bin.len() + j]);
        }
    }
    assert(trl.subrange(0, 4) =~= spec_le32(views.len() as u32));
    assert(trl.subrange(6, 10) =~= spec_le32(entries.len() as u32));
    assert(trl.subrange(10, 14) =~= spec_le32(hc as u32));
    lemma_le32_round_trip(views.len() as u32);
    lemma_le32_round_trip(entries.len() as u32);
    lemma_le32_round_trip(hc as u32);
    assert forall|j: int| 0 <= j < 14 implies data[t + j] == #[trigger] trl[j] by {
        assert(data.subrange(t as int, data.len() as int)[j] == data[t + j]);
    }
    assert(spec_u32_of_le(data[t], data[t + 1], data[t + 2], data[t + 3]) == views.len() as u32);
    assert(data[t + 4] == rint as u8);
    assert(data[t + 5] == step as u8);
    assert(spec_u32_of_le(data[t + 6], data[t + 7], data[t + 8], data[t + 9])
        == entries.len() as u32);
    assert(spec_u32_of_le(data[t + 10], data[t + 11], data[t + 12], data[t + 13]) == hc as u32);
    assert(data.subrange(0, entries.len() as int) =~= entries);
    lemma_dec_entries_of_enc(data, 0, views, 0, rint, Seq::empty());
    assert(views.skip(0) =~= views);
}

/// Encodes an interval head entry onto `out`.
fn enc_head_into(out: &mut Vec<u8>, e: &InternalValue)
    requires
        spec_entry_wf(e@),
    ensures
        final(out)@ == old(out)@ + spec_enc_head(e@),
{
    out.push(e.value_type.tag());
    put_varint(out, e.seqno);
    put_varint(out, e.user_key.len() as u64);
    crate::bytes_util::append_bytes(out, e.user_key.as_slice());
    put_varint(out, e.value.len() as u64);
    crate::bytes_util::append_bytes(out, e.value.as_slice());
    proof {
        assert(out@ =~= old(out)@ + spec_enc_head(e@));
    }
}

/// Encodes a truncated entry onto `out`, relative to the interval base key.
fn enc_trunc_into(out: &mut Vec<u8>, e: &InternalValue, base: &[u8])
    requires
        spec_entry_wf(e@),
    ensures
        final(out)@ == old(out)@ + spec_enc_trunc(e@, base@),
{
    let shared = common_prefix(base, e.user_key.as_slice());
    out.push(e.value_type.tag());
    put_varint(out, e.seqno);
    put_varint(out, shared as u64);
    put_varint(out, (e.user_key.len() - shared) as u64);
    let rest = vstd::slice::slice_subrange(e.user_key.as_slice(), shared, e.user_key.len());
    crate::bytes_util::append_bytes(out, rest);
    put_varint(out, e.value.len() as u64);
    crate::bytes_util::append_bytes(out, e.value.as_slice());
    proof {
        assert(e.user_key@.subrange(shared as int, e.user_key@.len() as int) =~= e.user_key@.skip(
            shared as int,
        ));
        assert(out@ =~= old(out)@ + spec_enc_trunc(e@, base@));
    }
}

/// Encodes a run of entries into a full data block payload with restart
/// interval `rint`.  Succeeds exactly when the interval is at least one,
/// every entry is well formed, and both the entry count and the encoded
/// entry bytes fit in 32 bits.
pub fn encode_items(items: &Vec<InternalValue>, rint: u8) -> (r: Result<Vec<u8>, LsmError>)
    ensures
        ({
            let views = views_of_entries(items@);
            match r {
                Ok(bytes) => {
                    &&& rint >= 1
                    &&& spec_entries_wf_from(views, 0)
                    &&& views.len() <= u32::MAX
                    &&& spec_enc_entries(views, 0, rint as int, Seq::empty()).len() <= u32::MAX
                    &&& bytes@ == spec_db_encode(views, rint as int)
                },
                Err(e) => {
                    &&& e == LsmError::Corrupt
                    &&& !({
                        &&& rint >= 1
                        &&& spec_entries_wf_from(views, 0)
                        &&& views.len() <= u32::MAX
                        &&& spec_enc_entries(views, 0, rint as int, Seq::empty()).len()
                            <= u32::MAX
                    })
                },
            }
        }),
{
    let ghost views = views_of_entries(items@);
    if rint < 1 {
        return Err(LsmError::Corrupt);
    }
    if items.len() > (u32::MAX as usize) {
        return Err(LsmError::Corrupt);
    }
    let ghost full = spec_enc_entries(views, 0, rint as int, Seq::empty());
    let mut out: Vec<u8> = Vec::new();
    let mut offs: Vec<u32> = Vec::new();
    let mut base: Vec<u8> = Vec::new();
    let mut i: usize = 0;
    proof {
        lemma_head_count_step(0, rint as int);
    }
    while i < items.len()
        invariant
            0 <= i <= items@.len(),
            items@.len() <= u32::MAX,
            rint >= 1,
            views == views_of_entries(items@),
            full == spec_enc_entries(views, 0, rint as int, Seq::empty()),
            out@ + spec_enc_entries(views, i as int, rint as int, base@) == full,
            forall|j: int| 0 <= j < i ==> spec_entry_wf(#[trigger] views[j]),
            offs@.len() == spec_head_count(i as int, rint as int),
            forall|h: int|
                0 <= h < offs@.len() ==> offs@[h] == spec_head_off(views, rint as int, h),
        decreases items@.len() - i,
    {
        let e = &items[i];
        if e.user_key.len() < 1 || e.user_key.len() > 65535 {
            proof {
                assert(views[i as int] == items@[i as int]@);
                assert(!spec_entry_wf(views[i as int]));
            }
            return Err(LsmError::Corrupt);
        }
        if e.value.len() > (u32::MAX as usize) {
            proof {
                assert(views[i as int] == items@[i as int]@);
                assert(!spec_entry_wf(views[i as int]));
            }
            return Err(LsmError::Corrupt);
        }
        if out.len() > (u32::MAX as usize) {
            proof {
                assert(full.len() >= out@.len());
            }
            return Err(LsmError::Corrupt);
        }
        proof {
            assert(views[i as int] == items@[i as int]@);
            lemma_head_count_step(i as int, rint as int);
            vstd::arithmetic::div_mod::lemma_fundamental_div_mod(i as int, rint as int);
        }
        if i % (rint as usize) == 0 {
            proof {
                assert(i as int % rint as int == 0);
                assert(spec_enc_entries(views, i as int, rint as int, base@) == spec_enc_entries(
                    views,
                    i as int,
                    rint as int,
                    Seq::empty(),
                ));
                let q = i as int / rint as int;
                assert(i as int == rint as int * q);
                assert(q * rint as int == rint as int * q) by (nonlinear_arith);
                assert(out@.len() + spec_enc_entries(views, i as int, rint as int, base@).len()
                    == full.len());
                assert(out@.len() == spec_head_off(views, rint as int, q));
            }
            offs.push(out.len() as u32);
            enc_head_into(&mut out, e);
            let klen = e.user_key.len();
            base = copy_range(e.user_key.as_slice(), 0, klen);
            proof {
                assert(base@ =~= views[i as int].key);
            }
        } else {
            proof {
                assert(i as int % rint as int != 0);
            }
            enc_trunc_into(&mut out, e, base.as_slice());
        }
        i = i + 1;
        proof {
            assert(out@ + spec_enc_entries(views, i as int, rint as int, base@) =~= full);
        }
    }
    proof {
        assert(out@ =~= full);
    }
    if out.len() > (u32::MAX as usize) {
        return Err(LsmError::Corrupt);
    }
    let n_entries: u32 = items.len() as u32;
    let bin_off: u32 = out.len() as u32;
    let step: u8 = if out.len() <= (u16::MAX as usize) {
        2
    } else {
        4
    };
    let hc: usize = offs.len();
    proof {
        lemma_head_count_le_n(items@.len() as int, rint as int);
    }
    let mut h: usize = 0;
    while h < hc
        invariant
            rint >= 1,
            0 <= h <= hc,
            hc == offs@.len(),
            hc == spec_head_count(views.len() as int, rint as int),
            views == views_of_entries(items@),
            full == spec_enc_entries(views, 0, rint as int, Seq::empty()),
            full.len() <= u32::MAX,
            step as int == (if full.len() <= u16::MAX {
                2int
            } else {
                4int
            }),
            forall|g: int|
                0 <= g < offs@.len() ==> offs@[g] == spec_head_off(views, rint as int, g),
            out@ + spec_bin_index(views, rint as int, step as int, h as int) == full
                + spec_bin_index(views, rint as int, step as int, 0),
        decreases hc - h,
    {
        let off = offs[h];
        proof {
            assert(offs@[h as int] == spec_head_off(views, rint as int, h as int));
        }
        if step == 2 {
            put_u16_le(&mut out, off as u16);
        } else {
            put_u32_le(&mut out, off as u32);
        }
        h = h + 1;
        proof {
            assert(out@ + spec_bin_index(views, rint as int, step as int, h as int) =~= full
                + spec_bin_index(views, rint as int, step as int, 0));
        }
    }
    put_u32_le(&mut out, n_entries);
    out.push(rint);
    out.push(step);
    put_u32_le(&mut out, bin_off);
    put_u32_le(&mut out, hc as u32);
    proof {
        assert(out@ =~= spec_db_encode(views, rint as int));
    }
    Ok(out)
}

/// Decodes an interval head at `pos`.  Mirrors `spec_dec_head` exactly.
fn dec_head(data: &[u8], pos: usize) -> (r: Option<(InternalValue, usize)>)
    ensures
        match r {
            Some((e, end)) => spec_dec_head(data@, pos as int) == Some::<(EntrySpec, int)>(
                (e@, end as int),
            ) && pos < end <= data@.len(),
            None => spec_dec_head(data@, pos as int) is None,
        },
{
    if pos >= data.len() {
        return None;
    }
    let vt = match ValueType::from_tag(data[pos]) {
        Some(vt) => vt,
        None => {
            return None;
        },
    };
    let (seqno, p1) = match get_varint(data, pos + 1) {
        Some(x) => x,
        None => {
            return None;
        },
    };
    let (klen, p2) = match get_varint(data, p1) {
        Some(x) => x,
        None => {
            return None;
        },
    };
    if klen < 1 || klen > 65535 {
        return None;
    }
    if (klen as usize) > data.len() - p2 {
        return None;
    }
    let key = copy_range(data, p2, p2 + klen as usize);
    let (vlen, p3) = match get_varint(data, p2 + klen as usize) {
        Some(x) => x,
        None => {
            return None;
        },
    };
    if vlen > (u32::MAX as u64) {
        return None;
    }
    if (vlen as usize) > data.len() - p3 {
        return None;
    }
    let value = copy_range(data, p3, p3 + vlen as usize);
    let e = InternalValue { user_key: key, seqno, value_type: vt, value };
    let end = p3 + vlen as usize;
    proof {
        assert(spec_dec_head(data@, pos as int) == Some::<(EntrySpec, int)>((e@, end as int)));
    }
    Some((e, end))
}

/// Decodes a truncated entry at `pos` against the interval base key.
/// Mirrors `spec_dec_trunc` exactly.
fn dec_trunc(data: &[u8], pos: usize, base: &[u8]) -> (r: Option<(InternalValue, usize)>)
    ensures
        match r {
            Some((e, end)) => spec_dec_trunc(data@, pos as int, base@) == Some::<(EntrySpec, int)>(
                (e@, end as int),
            ) && pos < end <= data@.len(),
            None => spec_dec_trunc(data@, pos as int, base@) is None,
        },
{
    if pos >= data.len() {
        return None;
    }
    let vt = match ValueType::from_tag(data[pos]) {
        Some(vt) => vt,
        None => {
            return None;
        },
    };
    let (seqno, p1) = match get_varint(data, pos + 1) {
        Some(x) => x,
        None => {
            return None;
        },
    };
    let (shared, p2) = match get_varint(data, p1) {
        Some(x) => x,
        None => {
            return None;
        },
    };
    let (rest, p3) = match get_varint(data, p2) {
        Some(x) => x,
        None => {
            return None;
        },
    };
    if shared > base.len() as u64 {
        return None;
    }
    if shared > 65535 || rest > 65535 {
        return None;
    }
    if shared + rest < 1 || shared + rest > 65535 {
        return None;
    }
    if (rest as usize) > data.len() - p3 {
        return None;
    }
    let mut key = copy_range(base, 0, shared as usize);
    crate::bytes_util::append_bytes(
        &mut key,
        vstd::slice::slice_subrange(data, p3, p3 + rest as usize),
    );
    let (vlen, p4) = match get_varint(data, p3 + rest as usize) {
        Some(x) => x,
        None => {
            return None;
        },
    };
    if vlen > (u32::MAX as u64) {
        return None;
    }
    if (vlen as usize) > data.len() - p4 {
        return None;
    }
    let value = copy_range(data, p4, p4 + vlen as usize);
    let e = InternalValue { user_key: key, seqno, value_type: vt, value };
    let end = p4 + vlen as usize;
    proof {
        assert(e.user_key@ =~= base@.take(shared as int) + data@.subrange(
            p3 as int,
            p3 + rest as int,
        ));
        assert(spec_dec_trunc(data@, pos as int, base@) == Some::<(EntrySpec, int)>((
            e@,
            end as int,
        )));
    }
    Some((e, end))
}

/// The first entry at or after `i` whose key equals `key` and, if a
/// snapshot is given, whose sequence number is below it.
pub open spec fn spec_point_read_from(
    views: Seq<EntrySpec>,
    key: Seq<u8>,
    seqno: Option<u64>,
    i: int,
) -> Option<EntrySpec>
    decreases views.len() - i,
{
    if i < 0 || i >= views.len() {
        None
    } else if views[i].key == key && (seqno is None || views[i].seqno < seqno.unwrap()) {
        Some(views[i])
    } else {
        spec_point_read_from(views, key, seqno, i + 1)
    }
}

/// An ordered run of internal values decoded from one block, servicing
/// point reads.
pub struct DataBlock {
    entries: Vec<InternalValue>,
    restart_interval: u8,
}

impl DataBlock {
    /// The decoded entries.
    pub closed spec fn views(&self) -> Seq<EntrySpec> {
        views_of_entries(self.entries@)
    }

    /// The restart interval recorded in the block trailer.
    pub closed spec fn spec_restart_interval(&self) -> u8 {
        self.restart_interval
    }

    /// A decoded block holds a strictly sorted run.
    pub closed spec fn wf(&self) -> bool {
        spec_entries_sorted(self.views())
    }

    /// Decodes a block payload.  Succeeds exactly when the payload parses
    /// and its entries are strictly sorted by `(key asc, seqno desc)`;
    /// fails with `Corrupt` otherwise.
    pub fn new(block: &crate::block::Block) -> (r: Result<DataBlock, LsmError>)
        ensures
            match r {
                Ok(db) => {
                    &&& spec_db_parse(block.data@) == Some(db.views())
                    &&& db.wf()
                },
                Err(e) => {
                    &&& e == LsmError::Corrupt
                    &&& match spec_db_parse(block.data@) {
                        Some(es) => !spec_entries_sorted(es),
                        None => true,
                    }
                },
            },
    {
        let data = block.data.as_slice();
        if data.len() < 14 {
            return Err(LsmError::Corrupt);
        }
        let t = data.len() - 14;
        let n = get_u32_le(data, t);
        let rint = data[t + 4];
        let step = data[t + 5];
        let bin_off = get_u32_le(data, t + 6);
        let bin_len = get_u32_le(data, t + 10);
        if rint < 1 || !(step == 2 || step == 4) {
            return Err(LsmError::Corrupt);
        }
        if (bin_off as usize) > t {
            return Err(LsmError::Corrupt);
        }
        proof {
            assert((step as u64) * (bin_len as u64) <= 4 * 0xffff_ffffu64) by (nonlinear_arith)
                requires
                    step as u64 <= 4,
                    bin_len as u64 <= 0xffff_ffffu64,
            ;
        }
        if (bin_off as u64) + (step as u64) * (bin_len as u64) != (t as u64) {
            return Err(LsmError::Corrupt);
        }
        let expect_heads: u64 = ((n as u64) + (rint as u64) - 1) / (rint as u64);
        if (bin_len as u64) != expect_heads {
            return Err(LsmError::Corrupt);
        }
        let mut acc: Vec<InternalValue> = Vec::new();
        let mut base: Vec<u8> = Vec::new();
        let mut pos: usize = 0;
        let mut j: u32 = 0;
        proof {
            assert(spec_db_parse(data@) == (match spec_dec_entries(
                data@,
                0,
                n as int,
                0,
                rint as int,
                Seq::empty(),
            ) {
                None => None::<Seq<EntrySpec>>,
                Some((es, end)) => if end == bin_off {
                    Some(es)
                } else {
                    None
                },
            }));
        }
        while j < n
            invariant
                0 <= j <= n,
                rint >= 1,
                data@ == block.data@,
                pos <= data@.len(),
                acc@.len() == j,
                spec_db_parse(data@) == (match spec_dec_entries(
                    data@,
                    0,
                    n as int,
                    0,
                    rint as int,
                    Seq::empty(),
                ) {
                    None => None::<Seq<EntrySpec>>,
                    Some((es, end)) => if end == bin_off {
                        Some(es)
                    } else {
                        None
                    },
                }),
                match spec_dec_entries(data@, pos as int, n - j, j as int, rint as int, base@) {
                    Some((es2, end)) => spec_dec_entries(
                        data@,
                        0,
                        n as int,
                        0,
                        rint as int,
                        Seq::empty(),
                    ) == Some::<(Seq<EntrySpec>, int)>((views_of_entries(acc@) + es2, end)),
                    None => spec_dec_entries(data@, 0, n as int, 0, rint as int, Seq::empty())
                        is None,
                },
            decreases n - j,
        {
            let is_head = (j as usize) % (rint as usize) == 0;
            proof {
                if is_head {
                    assert(j as int % rint as int == 0);
                } else {
                    assert(j as int % rint as int != 0);
                }
            }
            let parsed: Option<(InternalValue, usize)> = if is_head {
                dec_head(data, pos)
            } else {
                dec_trunc(data, pos, base.as_slice())
            };
            let (e, end) = match parsed {
                Some(x) => x,
                None => {
                    return Err(LsmError::Corrupt);
                },
            };
            if is_head {
                let klen = e.user_key.len();
                base = copy_range(e.user_key.as_slice(), 0, klen);
                proof {
                    assert(base@ =~= e@.key);
                }
            }
            let ghost old_acc = acc@;
            acc.push(e);
            proof {
                assert(views_of_entries(acc@) =~= views_of_entries(old_acc) + seq![e@]);
                match spec_dec_entries(data@, end as int, n - j - 1, j + 1, rint as int, base@) {
                    Some((es2, p3)) => {
                        assert(views_of_entries(acc@) + es2 =~= views_of_entries(old_acc) + (
                        seq![e@] + es2));
                    },
                    None => {},
                }
            }
            pos = end;
            j = j + 1;
        }
        if pos != bin_off as usize {
            return Err(LsmError::Corrupt);
        }
        proof {
            assert(spec_dec_entries(data@, pos as int, 0, n as int, rint as int, base@)
                == Some::<(Seq<EntrySpec>, int)>((Seq::empty(), pos as int)));
            assert(views_of_entries(acc@) + Seq::<EntrySpec>::empty() =~= views_of_entries(acc@));
        }
        let mut idx: usize = 1;
        while idx < acc.len()
            invariant
                acc@.len() == 0 || 1 <= idx,
                idx <= acc@.len() + 1,
                spec_db_parse(block.data@) == Some(views_of_entries(acc@)),
                forall|x: int|
                    0 <= x < idx - 1 && x < acc@.len() - 1 ==> spec_entry_lt(
                        #[trigger] views_of_entries(acc@)[x],
                        views_of_entries(acc@)[x + 1],
                    ),
            decreases acc@.len() - idx,
        {
            if !crate::value::entry_lt(&acc[idx - 1], &acc[idx]) {
                proof {
                    assert(views_of_entries(acc@)[idx - 1] == acc@[idx - 1]@);
                    assert(views_of_entries(acc@)[idx as int] == acc@[idx as int]@);
                }
                return Err(LsmError::Corrupt);
            }
            proof {
                assert(views_of_entries(acc@)[idx - 1] == acc@[idx - 1]@);
                assert(views_of_entries(acc@)[idx as int] == acc@[idx as int]@);
            }
            idx = idx + 1;
        }
        Ok(DataBlock { entries: acc, restart_interval: rint })
    }

    /// Number of entries in the block.
    pub fn item_count(&self) -> (r: usize)
        ensures
            r == self.views().len(),
    {
        self.entries.len()
    }

    /// Whether the block holds no entries; an empty run is never written.
    pub fn is_empty(&self) -> (r: bool)
        ensures
            r == (self.views().len() == 0),
    {
        self.entries.len() == 0
    }

    /// Consumes the block, yielding its entries.
    pub fn into_entries(self) -> (r: Vec<InternalValue>)
        ensures
            views_of_entries(r@) == self.views(),
    {
        self.entries
    }

    /// The decoded entries, in order.
    pub fn entries(&self) -> (r: &Vec<InternalValue>)
        ensures
            views_of_entries(r@) == self.views(),
    {
        &self.entries
    }

    /// Point read: the first entry with the given key and, if a snapshot
    /// sequence number is given, a sequence number strictly below it.
    /// Because versions of a key sort newest first, this is the newest
    /// visible version.
    pub fn point_read(&self, key: &[u8], seqno: Option<u64>) -> (r: Option<InternalValue>)
        ensures
            match r {
                Some(e) => spec_point_read_from(self.views(), key@, seqno, 0) == Some(e@),
                None => spec_point_read_from(self.views(), key@, seqno, 0) is None,
            },
    {
        let mut i: usize = 0;
        while i < self.entries.len()
            invariant
                0 <= i <= self.entries@.len(),
                spec_point_read_from(self.views(), key@, seqno, 0) == spec_point_read_from(
                    self.views(),
                    key@,
                    seqno,
                    i as int,
                ),
            decreases self.entries@.len() - i,
        {
            let e = &self.entries[i];
            proof {
                assert(self.views()[i as int] == e@);
            }
            if crate::bytes_util::bytes_eq(e.user_key.as_slice(), key) {
                let visible = match seqno {
                    Some(s) => e.seqno < s,
                    None => true,
                };
                if visible {
                    return Some(e.duplicate());
                }
            }
            i = i + 1;
        }
        None
    }
}

} // verus!
