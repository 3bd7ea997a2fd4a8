//! Compaction: pure strategies that inspect the level manifest and decide
//! which segments to merge, move or drop.

use vstd::prelude::*;

use crate::bytes_util::{bytes_le, bytes_lt, lex_le, lex_lt};
use crate::level_manifest::{
    id_among, sat_size_from, segments_form_run, spec_level_busy, spec_manifest_size, spec_run,
    spec_sat_size, spec_visible, views_of_metas, Level, LevelManifest,
};
use crate::meta::{ParsedMeta, SegMetaView};

verus! {

/// Input of a merge or move: the chosen segments, the destination level,
/// and the target size of each output segment.
#[derive(Clone, Debug, PartialEq, Eq)]
pub struct CompactionInput {
    /// Ids of the segments to rewrite or move.
    pub segment_ids: Vec<u64>,
    /// The level the output goes to.
    pub dest_level: u8,
    /// Cap, in bytes, for each output segment.
    pub target_size: u64,
}

/// What a strategy decided.
#[derive(Clone, Debug, PartialEq, Eq)]
pub enum Choice {
    /// Nothing to do.
    DoNothing,
    /// Merge the inputs into the destination level.
    Merge(CompactionInput),
    /// Only change the inputs' level assignment; valid when the
    /// destination has no overlap.
    Move(CompactionInput),
    /// Delete the segments outright.
    Drop(Vec<u64>),
}

/// The mathematical shape of a decision.
#[verifier::ext_equal]
pub enum SpecChoice {
    /// Nothing to do.
    DoNothing,
    /// Merge the inputs into the destination level.
    Merge { ids: Seq<u64>, dest: u8, target: u64 },
    /// Only change the inputs' level assignment.
    Move { ids: Seq<u64>, dest: u8, target: u64 },
    /// Delete the segments outright.
    Drop { ids: Seq<u64> },
}

impl View for Choice {
    type V = SpecChoice;

    open spec fn view(&self) -> SpecChoice {
        match self {
            Choice::DoNothing => SpecChoice::DoNothing,
            Choice::Merge(input) => SpecChoice::Merge {
                ids: input.segment_ids@,
                dest: input.dest_level,
                target: input.target_size,
            },
            Choice::Move(input) => SpecChoice::Move {
                ids: input.segment_ids@,
                dest: input.dest_level,
                target: input.target_size,
            },
            Choice::Drop(ids) => SpecChoice::Drop { ids: ids@ },
        }
    }
}

/// The resolved view of a manifest: each level with its hidden segments
/// left out.
pub open spec fn spec_resolved(m: &LevelManifest) -> Seq<Seq<SegMetaView>> {
    Seq::new(
        m.spec_levels().len(),
        |i: int| spec_visible(views_of_metas(m.spec_levels()[i].segments@), m.spec_hidden()),
    )
}

/// The ids of `n` segments starting at `i`.
pub open spec fn spec_ids_of(segs: Seq<SegMetaView>, i: int, n: int) -> Seq<u64>
    decreases n,
{
    if n <= 0 || i < 0 || i >= segs.len() {
        Seq::empty()
    } else {
        seq![segs[i].id] + spec_ids_of(segs, i + 1, n - 1)
    }
}

/// Collects the ids of `n` segments starting at `i`.
pub fn ids_of(segs: &Vec<ParsedMeta>, i: usize, n: usize) -> (r: Vec<u64>)
    requires
        i + n <= segs@.len(),
    ensures
        r@ == spec_ids_of(views_of_metas(segs@), i as int, n as int),
    decreases n,
{
    if n == 0 {
        Vec::new()
    } else {
        let _l: usize = segs.len();
        proof {
            assert(views_of_metas(segs@)[i as int] == segs@[i as int]@);
        }
        let mut rest = ids_of(segs, i + 1, n - 1);
        let mut r: Vec<u64> = Vec::new();
        r.push(segs[i].id);
        crate::bytes_util::append_u64s(&mut r, &rest);
        proof {
            assert(r@ =~= spec_ids_of(views_of_metas(segs@), i as int, n as int));
        }
        r
    }
}

/// Saturating total size of the `n` segments starting at `i`.
pub open spec fn spec_window_size(segs: Seq<SegMetaView>, i: int, n: int) -> u64
    decreases n,
{
    if n <= 0 || i < 0 || i >= segs.len() {
        0u64
    } else {
        let rest = spec_window_size(segs, i + 1, n - 1);
        if segs[i].file_size + rest > u64::MAX {
            u64::MAX
        } else {
            (segs[i].file_size + rest) as u64
        }
    }
}

/// Computes the saturating window size.
pub fn window_size(segs: &Vec<ParsedMeta>, i: usize, n: usize) -> (r: u64)
    requires
        i + n <= segs@.len(),
    ensures
        r == spec_window_size(views_of_metas(segs@), i as int, n as int),
    decreases n,
{
    if n == 0 {
        0
    } else {
        let _l: usize = segs.len();
        proof {
            assert(views_of_metas(segs@)[i as int] == segs@[i as int]@);
        }
        let rest = window_size(segs, i + 1, n - 1);
        let size = segs[i].file_size;
        if size > u64::MAX - rest {
            u64::MAX
        } else {
            size + rest
        }
    }
}

/// The first index in `[i, len - n]` whose `n`-segment window has the
/// least total size.
pub open spec fn spec_min_window_from(segs: Seq<SegMetaView>, n: int, i: int) -> int
    decreases segs.len() - n - i,
{
    if i < 0 || i >= segs.len() - n {
        i
    } else {
        let rest = spec_min_window_from(segs, n, i + 1);
        if spec_window_size(segs, i, n) <= spec_window_size(segs, rest, n) {
            i
        } else {
            rest
        }
    }
}

/// Finds the first least-total-size window of `n` segments.
pub fn min_window_from(segs: &Vec<ParsedMeta>, n: usize, i: usize) -> (r: usize)
    requires
        1 <= n <= segs@.len(),
        i <= segs@.len() - n,
    ensures
        r == spec_min_window_from(views_of_metas(segs@), n as int, i as int),
        i <= r <= segs@.len() - n,
    decreases segs@.len() - n - i,
{
    if i >= segs.len() - n {
        i
    } else {
        let rest = min_window_from(segs, n, i + 1);
        let here = window_size(segs, i, n);
        let there = window_size(segs, rest, n);
        if here <= there {
            i
        } else {
            rest
        }
    }
}

/// Choose a run of `n` consecutive segments with the least file size sum:
/// the least-effort set to partially compact.
pub fn choose_least_effort_compaction(segments: &Vec<ParsedMeta>, n: usize) -> (r: Vec<u64>)
    requires
        1 <= n <= segments@.len(),
    ensures
        r@ == spec_ids_of(
            views_of_metas(segments@),
            spec_min_window_from(views_of_metas(segments@), n as int, 0),
            n as int,
        ),
{
    let w = min_window_from(segments, n, 0);
    ids_of(segments, w, n)
}

/// Saturating `x - y`.
pub open spec fn spec_sat_sub(x: u64, y: u64) -> u64 {
    if x < y {
        0u64
    } else {
        (x - y) as u64
    }
}

/// `base * ratio^exp`, saturating at `u64::MAX`.
pub open spec fn spec_sat_pow_mul(ratio: u8, exp: int, base: u32) -> u64
    decreases exp,
{
    if exp <= 0 {
        base as u64
    } else {
        let prev = spec_sat_pow_mul(ratio, exp - 1, base);
        if prev * ratio > u64::MAX {
            u64::MAX
        } else {
            (prev * ratio) as u64
        }
    }
}

/// Computes `base * ratio^exp`, saturating.
pub fn sat_pow_mul(ratio: u8, exp: u8, base: u32) -> (r: u64)
    ensures
        r == spec_sat_pow_mul(ratio, exp as int, base),
    decreases exp,
{
    if exp == 0 {
        base as u64
    } else {
        let prev = sat_pow_mul(ratio, exp - 1, base);
        if ratio > 0 && prev > u64::MAX / (ratio as u64) {
            proof {
                vstd::arithmetic::div_mod::lemma_fundamental_div_mod(
                    u64::MAX as int,
                    ratio as int,
                );
                vstd::arithmetic::div_mod::lemma_mod_bound(u64::MAX as int, ratio as int);
                assert(prev * ratio > u64::MAX) by (nonlinear_arith)
                    requires
                        ratio >= 1,
                        prev > u64::MAX as int / (ratio as int),
                        ((u64::MAX as int / (ratio as int)) * (ratio as int)) + (u64::MAX as int % (
                        ratio as int)) == u64::MAX,
                        0 <= (u64::MAX as int % (ratio as int)),
                        (u64::MAX as int % (ratio as int)) < (ratio as int),
                ;
            }
            u64::MAX
        } else {
            proof {
                if ratio > 0 {
                    vstd::arithmetic::div_mod::lemma_fundamental_div_mod(
                        u64::MAX as int,
                        ratio as int,
                    );
                    vstd::arithmetic::div_mod::lemma_mod_bound(u64::MAX as int, ratio as int);
                    assert(prev * ratio <= u64::MAX) by (nonlinear_arith)
                        requires
                            ratio >= 1,
                            prev <= u64::MAX as int / (ratio as int),
                            ((u64::MAX as int / (ratio as int)) * (ratio as int)) + (u64::MAX
                                as int % (ratio as int)) == u64::MAX,
                            0 <= (u64::MAX as int % (ratio as int)),
                    ;
                }
            }
            prev * (ratio as u64)
        }
    }
}

/// The position at which a segment with minimum sequence number `s` is
/// inserted to keep an oldest-first order, after any equals.
pub open spec fn spec_pos_min(segs: Seq<SegMetaView>, s: u64, i: int) -> int
    decreases segs.len() - i,
{
    if i < 0 || i >= segs.len() {
        segs.len() as int
    } else if segs[i].seqno_min > s {
        i
    } else {
        spec_pos_min(segs, s, i + 1)
    }
}

/// Stable sort of segments by minimum sequence number, oldest first.
pub open spec fn spec_sort_min(segs: Seq<SegMetaView>) -> Seq<SegMetaView>
    decreases segs.len(),
{
    if segs.len() == 0 {
        Seq::empty()
    } else {
        let sorted = spec_sort_min(segs.drop_last());
        sorted.insert(spec_pos_min(sorted, segs.last().seqno_min, 0), segs.last())
    }
}

/// The position at which a segment with maximum sequence number `s` is
/// inserted to keep an oldest-first order, after any equals.
pub open spec fn spec_pos_max(segs: Seq<SegMetaView>, s: u64, i: int) -> int
    decreases segs.len() - i,
{
    if i < 0 || i >= segs.len() {
        segs.len() as int
    } else if segs[i].seqno_max > s {
        i
    } else {
        spec_pos_max(segs, s, i + 1)
    }
}

/// Stable sort of segments by maximum sequence number, oldest first.
pub open spec fn spec_sort_max(segs: Seq<SegMetaView>) -> Seq<SegMetaView>
    decreases segs.len(),
{
    if segs.len() == 0 {
        Seq::empty()
    } else {
        let sorted = spec_sort_max(segs.drop_last());
        sorted.insert(spec_pos_max(sorted, segs.last().seqno_max, 0), segs.last())
    }
}

/// Sorts segments by minimum sequence number, oldest first, stably.
pub fn sort_by_seqno_min(segs: &Vec<ParsedMeta>) -> (r: Vec<ParsedMeta>)
    ensures
        views_of_metas(r@) == spec_sort_min(views_of_metas(segs@)),
{
    let mut out: Vec<ParsedMeta> = Vec::new();
    let mut k: usize = 0;
    proof {
        assert(views_of_metas(segs@).take(0) =~= Seq::<SegMetaView>::empty());
        assert(views_of_metas(out@) =~= spec_sort_min(views_of_metas(segs@).take(0)));
    }
    while k < segs.len()
        invariant
            0 <= k <= segs@.len(),
            views_of_metas(out@) == spec_sort_min(views_of_metas(segs@).take(k as int)),
        decreases segs@.len() - k,
    {
        let ghost sorted0 = views_of_metas(out@);
        let x = segs[k].clone_meta();
        let ghost xv = x@;
        proof {
            assert(xv == views_of_metas(segs@)[k as int]);
        }
        let mut pos: usize = 0;
        while pos < out.len() && out[pos].seqno_min <= x.seqno_min
            invariant
                0 <= pos <= sorted0.len(),
                sorted0 == views_of_metas(out@),
                x@ == xv,
                spec_pos_min(sorted0, xv.seqno_min, 0) == spec_pos_min(
                    sorted0,
                    xv.seqno_min,
                    pos as int,
                ),
            decreases sorted0.len() - pos,
        {
            proof {
                assert(sorted0[pos as int] == out@[pos as int]@);
            }
            pos = pos + 1;
        }
        proof {
            if pos < out.len() {
                assert(sorted0[pos as int] == out@[pos as int]@);
            }
            assert(spec_pos_min(sorted0, xv.seqno_min, pos as int) == pos);
        }
        let ghost pre = out@;
        out.insert(pos, x);
        proof {
            assert(views_of_metas(out@) =~= views_of_metas(pre).insert(pos as int, xv));
            assert(views_of_metas(segs@).take(k + 1).drop_last() =~= views_of_metas(segs@).take(
                k as int,
            ));
            assert(views_of_metas(segs@).take(k + 1).last() == xv);
        }
        k = k + 1;
    }
    proof {
        assert(views_of_metas(segs@).take(segs@.len() as int) =~= views_of_metas(segs@));
    }
    out
}

/// Sorts segments by maximum sequence number, oldest first, stably.
pub fn sort_by_seqno_max(segs: &Vec<ParsedMeta>) -> (r: Vec<ParsedMeta>)
    ensures
        views_of_metas(r@) == spec_sort_max(views_of_metas(segs@)),
{
    let mut out: Vec<ParsedMeta> = Vec::new();
    let mut k: usize = 0;
    proof {
        assert(views_of_metas(segs@).take(0) =~= Seq::<SegMetaView>::empty());
        assert(views_of_metas(out@) =~= spec_sort_max(views_of_metas(segs@).take(0)));
    }
    while k < segs.len()
        invariant
            0 <= k <= segs@.len(),
            views_of_metas(out@) == spec_sort_max(views_of_metas(segs@).take(k as int)),
        decreases segs@.len() - k,
    {
        let ghost sorted0 = views_of_metas(out@);
        let x = segs[k].clone_meta();
        let ghost xv = x@;
        proof {
            assert(xv == views_of_metas(segs@)[k as int]);
        }
        let mut pos: usize = 0;
        while pos < out.len() && out[pos].seqno_max <= x.seqno_max
            invariant
                0 <= pos <= sorted0.len(),
                sorted0 == views_of_metas(out@),
                x@ == xv,
                spec_pos_max(sorted0, xv.seqno_max, 0) == spec_pos_max(
                    sorted0,
                    xv.seqno_max,
                    pos as int,
                ),
            decreases sorted0.len() - pos,
        {
            proof {
                assert(sorted0[pos as int] == out@[pos as int]@);
            }
            pos = pos + 1;
        }
        proof {
            if pos < out.len() {
                assert(sorted0[pos as int] == out@[pos as int]@);
            }
            assert(spec_pos_max(sorted0, xv.seqno_max, pos as int) == pos);
        }
        let ghost pre = out@;
        out.insert(pos, x);
        proof {
            assert(views_of_metas(out@) =~= views_of_metas(pre).insert(pos as int, xv));
            assert(views_of_metas(segs@).take(k + 1).drop_last() =~= views_of_metas(segs@).take(
                k as int,
            ));
            assert(views_of_metas(segs@).take(k + 1).last() == xv);
        }
        k = k + 1;
    }
    proof {
        assert(views_of_metas(segs@).take(segs@.len() as int) =~= views_of_metas(segs@));
    }
    out
}

/// The position at which a segment with first key `key` is inserted to
/// keep an ascending-by-first-key order, after any equals.
pub open spec fn spec_pos_key(segs: Seq<SegMetaView>, key: Seq<u8>, i: int) -> int
    decreases segs.len() - i,
{
    if i < 0 || i >= segs.len() {
        segs.len() as int
    } else if lex_lt(key, segs[i].key_min) {
        i
    } else {
        spec_pos_key(segs, key, i + 1)
    }
}

/// Stable sort of segments by first key, ascending.
pub open spec fn spec_sort_key(segs: Seq<SegMetaView>) -> Seq<SegMetaView>
    decreases segs.len(),
{
    if segs.len() == 0 {
        Seq::empty()
    } else {
        let sorted = spec_sort_key(segs.drop_last());
        sorted.insert(spec_pos_key(sorted, segs.last().key_min, 0), segs.last())
    }
}

/// Sorts segments by first key, ascending, stably.
pub fn sort_by_key_min(segs: &Vec<ParsedMeta>) -> (r: Vec<ParsedMeta>)
    ensures
        views_of_metas(r@) == spec_sort_key(views_of_metas(segs@)),
{
    let mut out: Vec<ParsedMeta> = Vec::new();
    let mut k: usize = 0;
    proof {
        assert(views_of_metas(segs@).take(0) =~= Seq::<SegMetaView>::empty());
        assert(views_of_metas(out@) =~= spec_sort_key(views_of_metas(segs@).take(0)));
    }
    while k < segs.len()
        invariant
            0 <= k <= segs@.len(),
            views_of_metas(out@) == spec_sort_key(views_of_metas(segs@).take(k as int)),
        decreases segs@.len() - k,
    {
        let ghost sorted0 = views_of_metas(out@);
        let x = segs[k].clone_meta();
        let ghost xv = x@;
        proof {
            assert(xv == views_of_metas(segs@)[k as int]);
        }
        let mut pos: usize = 0;
        while pos < out.len() && !bytes_lt(
            x.key_range.min.as_slice(),
            out[pos].key_range.min.as_slice(),
        )
            invariant
                0 <= pos <= sorted0.len(),
                sorted0 == views_of_metas(out@),
                x@ == xv,
                spec_pos_key(sorted0, xv.key_min, 0) == spec_pos_key(
                    sorted0,
                    xv.key_min,
                    pos as int,
                ),
            decreases sorted0.len() - pos,
        {
            proof {
                assert(sorted0[pos as int] == out@[pos as int]@);
            }
            pos = pos + 1;
        }
        proof {
            if pos < out.len() {
                assert(sorted0[pos as int] == out@[pos as int]@);
            }
            assert(spec_pos_key(sorted0, xv.key_min, pos as int) == pos);
        }
        let ghost pre = out@;
        out.insert(pos, x);
        proof {
            assert(views_of_metas(out@) =~= views_of_metas(pre).insert(pos as int, xv));
            assert(views_of_metas(segs@).take(k + 1).drop_last() =~= views_of_metas(segs@).take(
                k as int,
            ));
            assert(views_of_metas(segs@).take(k + 1).last() == xv);
        }
        k = k + 1;
    }
    proof {
        assert(views_of_metas(segs@).take(segs@.len() as int) =~= views_of_metas(segs@));
    }
    out
}

/// How many segments, walking from index zero, are picked to cover the
/// `budget`, at most `cap` of them.
pub open spec fn spec_pick_count(segs: Seq<SegMetaView>, budget: u64, cap: int, i: int) -> int
    decreases segs.len() - i,
{
    if i < 0 || i >= segs.len() || cap <= 0 || budget == 0 {
        i
    } else {
        spec_pick_count(segs, spec_sat_sub(budget, segs[i].file_size), cap - 1, i + 1)
    }
}

/// Walks segments from the start, consuming `budget`, picking at most
/// `cap`; returns how many were picked.
pub fn pick_count(segs: &Vec<ParsedMeta>, budget: u64, cap: usize, i: usize) -> (r: usize)
    requires
        i <= segs@.len(),
    ensures
        r == spec_pick_count(views_of_metas(segs@), budget, cap as int, i as int),
        i <= r <= segs@.len(),
    decreases segs@.len() - i,
{
    let _l: usize = segs.len();
    if i >= segs.len() || cap == 0 || budget == 0 {
        i
    } else {
        proof {
            assert(views_of_metas(segs@)[i as int] == segs@[i as int]@);
        }
        let size = segs[i].file_size;
        let nb = if budget < size {
            0
        } else {
            budget - size
        };
        pick_count(segs, nb, cap - 1, i + 1)
    }
}

/// The smallest first key among the first `n` segments.
pub open spec fn spec_agg_min(segs: Seq<SegMetaView>, n: int) -> Seq<u8>
    decreases n,
{
    if n <= 1 || segs.len() == 0 {
        if segs.len() > 0 {
            segs[0].key_min
        } else {
            Seq::empty()
        }
    } else {
        let rest = spec_agg_min(segs, n - 1);
        if n - 1 < segs.len() && lex_lt(segs[n - 1].key_min, rest) {
            segs[n - 1].key_min
        } else {
            rest
        }
    }
}

/// The largest last key among the first `n` segments.
pub open spec fn spec_agg_max(segs: Seq<SegMetaView>, n: int) -> Seq<u8>
    decreases n,
{
    if n <= 1 || segs.len() == 0 {
        if segs.len() > 0 {
            segs[0].key_max
        } else {
            Seq::empty()
        }
    } else {
        let rest = spec_agg_max(segs, n - 1);
        if n - 1 < segs.len() && lex_lt(rest, segs[n - 1].key_max) {
            segs[n - 1].key_max
        } else {
            rest
        }
    }
}

/// Computes the aggregate key range of the first `n` segments: the
/// smallest first key and the largest last key.
pub fn aggregate_key_range(segs: &Vec<ParsedMeta>, n: usize) -> (r: (Vec<u8>, Vec<u8>))
    requires
        1 <= n <= segs@.len(),
    ensures
        r.0@ == spec_agg_min(views_of_metas(segs@), n as int),
        r.1@ == spec_agg_max(views_of_metas(segs@), n as int),
    decreases n,
{
    proof {
        assert(views_of_metas(segs@)[0] == segs@[0]@);
    }
    if n == 1 {
        let lo = crate::bytes_util::copy_range(
            segs[0].key_range.min.as_slice(),
            0,
            segs[0].key_range.min.len(),
        );
        let hi = crate::bytes_util::copy_range(
            segs[0].key_range.max.as_slice(),
            0,
            segs[0].key_range.max.len(),
        );
        proof {
            assert(lo@ =~= views_of_metas(segs@)[0].key_min);
            assert(hi@ =~= views_of_metas(segs@)[0].key_max);
        }
        (lo, hi)
    } else {
        proof {
            assert(views_of_metas(segs@)[n - 1] == segs@[n - 1]@);
        }
        let (rlo, rhi) = aggregate_key_range(segs, n - 1);
        let lo = if bytes_lt(segs[n - 1].key_range.min.as_slice(), rlo.as_slice()) {
            crate::bytes_util::copy_range(
                segs[n - 1].key_range.min.as_slice(),
                0,
                segs[n - 1].key_range.min.len(),
            )
        } else {
            rlo
        };
        let hi = if bytes_lt(rhi.as_slice(), segs[n - 1].key_range.max.as_slice()) {
            crate::bytes_util::copy_range(
                segs[n - 1].key_range.max.as_slice(),
                0,
                segs[n - 1].key_range.max.len(),
            )
        } else {
            rhi
        };
        proof {
            assert(lo@ =~= spec_agg_min(views_of_metas(segs@), n as int));
            assert(hi@ =~= spec_agg_max(views_of_metas(segs@), n as int));
        }
        (lo, hi)
    }
}

/// Ids of the segments whose key ranges overlap `[lo, hi]`, from `i` on.
pub open spec fn spec_overlap_ids(segs: Seq<SegMetaView>, lo: Seq<u8>, hi: Seq<u8>, i: int) -> Seq<
    u64,
>
    decreases segs.len() - i,
{
    if i < 0 || i >= segs.len() {
        Seq::empty()
    } else if lex_le(segs[i].key_min, hi) && lex_le(lo, segs[i].key_max) {
        seq![segs[i].id] + spec_overlap_ids(segs, lo, hi, i + 1)
    } else {
        spec_overlap_ids(segs, lo, hi, i + 1)
    }
}

/// Collects the ids of the segments overlapping `[lo, hi]`.
pub fn overlap_ids(segs: &Vec<ParsedMeta>, lo: &Vec<u8>, hi: &Vec<u8>, i: usize) -> (r: Vec<u64>)
    requires
        i <= segs@.len(),
    ensures
        r@ == spec_overlap_ids(views_of_metas(segs@), lo@, hi@, i as int),
    decreases segs@.len() - i,
{
    let _l: usize = segs.len();
    if i >= segs.len() {
        Vec::new()
    } else {
        proof {
            assert(views_of_metas(segs@)[i as int] == segs@[i as int]@);
        }
        let rest = overlap_ids(segs, lo, hi, i + 1);
        let here = bytes_le(segs[i].key_range.min.as_slice(), hi.as_slice()) && bytes_le(
            lo.as_slice(),
            segs[i].key_range.max.as_slice(),
        );
        if here {
            let mut r: Vec<u64> = Vec::new();
            r.push(segs[i].id);
            crate::bytes_util::append_u64s(&mut r, &rest);
            proof {
                assert(r@ =~= spec_overlap_ids(views_of_metas(segs@), lo@, hi@, i as int));
            }
            r
        } else {
            rest
        }
    }
}

/// The decision of the maintenance strategy on the visible level-zero
/// run: when it grows past twenty segments, merge the cheapest window
/// of the overflow back into level zero.
pub open spec fn spec_maintenance_choose(l0: Seq<SegMetaView>) -> SpecChoice {
    if l0.len() > 20 {
        let n = l0.len() - 20 + 1;
        let sorted = spec_sort_min(l0);
        SpecChoice::Merge {
            ids: spec_ids_of(sorted, spec_min_window_from(sorted, n as int, 0), n as int),
            dest: 0,
            target: u64::MAX,
        }
    } else {
        SpecChoice::DoNothing
    }
}

/// Maintenance compactor: a hidden strategy other strategies fall back
/// to.  It cleans up level zero if it grows too large.
#[derive(Clone, Debug, PartialEq, Eq)]
pub struct MaintenanceStrategy;

impl Default for MaintenanceStrategy {
    /// The maintenance strategy has no parameters.
    fn default() -> (r: MaintenanceStrategy)
        ensures
            r == MaintenanceStrategy,
    {
        MaintenanceStrategy
    }
}

impl MaintenanceStrategy {
    /// Decides whether level zero needs a least-effort merge.
    pub fn decide(&self, m: &LevelManifest) -> (r: Choice)
        requires
            m.spec_levels().len() >= 1,
        ensures
            r@ == spec_maintenance_choose(spec_resolved(m)[0]),
    {
        let first = m.resolved_level(0);
        proof {
            assert(spec_resolved(m)[0] == spec_visible(
                views_of_metas(m.spec_levels()[0].segments@),
                m.spec_hidden(),
            ));
        }
        if first.segments.len() > 20 {
            let n = first.segments.len() - 20 + 1;
            let sorted = sort_by_seqno_min(&first.segments);
            proof {
                assert(views_of_metas(sorted@).len() == views_of_metas(first.segments@).len())
                    by {
                    lemma_sort_min_len(views_of_metas(first.segments@));
                }
            }
            let ids = choose_least_effort_compaction(&sorted, n);
            Choice::Merge(CompactionInput { segment_ids: ids, dest_level: 0, target_size: u64::MAX })
        } else {
            Choice::DoNothing
        }
    }
}

/// The insertion position lies inside the run.
pub proof fn lemma_pos_min_bounds(segs: Seq<SegMetaView>, s: u64, i: int)
    requires
        0 <= i <= segs.len(),
    ensures
        i <= spec_pos_min(segs, s, i) <= segs.len(),
    decreases segs.len() - i,
{
    if i < segs.len() && !(segs[i].seqno_min > s) {
        lemma_pos_min_bounds(segs, s, i + 1);
    }
}

/// The insertion position lies inside the run.
pub proof fn lemma_pos_key_bounds(segs: Seq<SegMetaView>, key: Seq<u8>, i: int)
    requires
        0 <= i <= segs.len(),
    ensures
        i <= spec_pos_key(segs, key, i) <= segs.len(),
    decreases segs.len() - i,
{
    if i < segs.len() && !lex_lt(key, segs[i].key_min) {
        lemma_pos_key_bounds(segs, key, i + 1);
    }
}

/// Sorting keeps the number of segments.
pub proof fn lemma_sort_min_len(segs: Seq<SegMetaView>)
    ensures
        spec_sort_min(segs).len() == segs.len(),
    decreases segs.len(),
{
    if segs.len() > 0 {
        lemma_sort_min_len(segs.drop_last());
        lemma_pos_min_bounds(spec_sort_min(segs.drop_last()), segs.last().seqno_min, 0);
    }
}

/// Sorting keeps the number of segments.
pub proof fn lemma_sort_key_len(segs: Seq<SegMetaView>)
    ensures
        spec_sort_key(segs).len() == segs.len(),
    decreases segs.len(),
{
    if segs.len() > 0 {
        lemma_sort_key_len(segs.drop_last());
        lemma_pos_key_bounds(spec_sort_key(segs.drop_last()), segs.last().key_min, 0);
    }
}

/// Whether a segment's age, in seconds, exceeds the TTL.
pub open spec fn spec_expired(seg: SegMetaView, ttl_seconds: u64, now_micros: u128) -> bool {
    ttl_seconds > 0 && (if now_micros >= seg.created_at {
        (now_micros - seg.created_at) as u128
    } else {
        0u128
    }) / 1_000_000 > ttl_seconds as u128
}

/// Ids of the expired segments of one level, from `i` on.
pub open spec fn spec_expired_level(
    segs: Seq<SegMetaView>,
    ttl_seconds: u64,
    now_micros: u128,
    i: int,
) -> Seq<u64>
    decreases segs.len() - i,
{
    if i < 0 || i >= segs.len() {
        Seq::empty()
    } else if spec_expired(segs[i], ttl_seconds, now_micros) {
        seq![segs[i].id] + spec_expired_level(segs, ttl_seconds, now_micros, i + 1)
    } else {
        spec_expired_level(segs, ttl_seconds, now_micros, i + 1)
    }
}

/// Ids of the expired segments of all levels, from level `l` on.
pub open spec fn spec_expired_all(
    resolved: Seq<Seq<SegMetaView>>,
    ttl_seconds: u64,
    now_micros: u128,
    l: int,
) -> Seq<u64>
    decreases resolved.len() - l,
{
    if l < 0 || l >= resolved.len() {
        Seq::empty()
    } else {
        spec_expired_level(resolved[l], ttl_seconds, now_micros, 0) + spec_expired_all(
            resolved,
            ttl_seconds,
            now_micros,
            l + 1,
        )
    }
}

/// Ids of the oldest segments, walking `rev` (oldest first), until
/// `bytes` of backlog are covered.
pub open spec fn spec_fifo_drop(rev: Seq<SegMetaView>, bytes: u64, i: int) -> Seq<u64>
    decreases rev.len() - i,
{
    if i < 0 || i >= rev.len() || bytes == 0 {
        Seq::empty()
    } else {
        seq![rev[i].id] + spec_fifo_drop(rev, spec_sat_sub(bytes, rev[i].file_size), i + 1)
    }
}

/// Appends the ids of `b` not already in `acc`.
pub open spec fn spec_append_unique(acc: Seq<u64>, b: Seq<u64>, i: int) -> Seq<u64>
    decreases b.len() - i,
{
    if i < 0 || i >= b.len() {
        acc
    } else if acc.contains(b[i]) {
        spec_append_unique(acc, b, i + 1)
    } else {
        spec_append_unique(acc.push(b[i]), b, i + 1)
    }
}

/// The decision of the FIFO strategy: drop expired segments and, if the
/// tree exceeds its size limit, the oldest level-zero segments; fall back
/// to maintenance when level zero is not disjoint.
pub open spec fn spec_fifo_choose(
    resolved: Seq<Seq<SegMetaView>>,
    db_size: u64,
    limit: u64,
    ttl_seconds: u64,
    now_micros: u128,
) -> SpecChoice {
    let expired = spec_expired_all(resolved, ttl_seconds, now_micros, 0);
    let dropped = if db_size > limit {
        spec_fifo_drop(spec_sort_max(resolved[0]), (db_size - limit) as u64, 0)
    } else {
        Seq::empty()
    };
    let ids = spec_append_unique(expired, dropped, 0);
    if ids.len() == 0 {
        if spec_run(resolved[0]) {
            SpecChoice::DoNothing
        } else {
            spec_maintenance_choose(resolved[0])
        }
    } else {
        SpecChoice::Drop { ids }
    }
}

/// FIFO-style compaction: limits the tree size to roughly `limit` bytes by
/// deleting the oldest segments, with an optional lazy TTL.  Meant for
/// workloads that only insert new, monotonically growing keys.
#[derive(Clone, Debug, PartialEq, Eq)]
pub struct FifoStrategy {
    /// Data set size limit in bytes.
    pub limit: u64,
    /// TTL in seconds; disabled when absent or zero.  Ages are measured in
    /// microseconds since the epoch.
    pub ttl_seconds: Option<u64>,
}

impl FifoStrategy {
    /// Configures a FIFO strategy.
    pub fn new(limit: u64, ttl_seconds: Option<u64>) -> (r: FifoStrategy)
        ensures
            r.limit == limit,
            r.ttl_seconds == ttl_seconds,
    {
        FifoStrategy { limit, ttl_seconds }
    }

    /// Decides what to drop, given the clock reading `now_micros`.
    pub fn decide(&self, m: &LevelManifest, now_micros: u128) -> (r: Choice)
        requires
            m.spec_levels().len() >= 1,
        ensures
            r@ == spec_fifo_choose(
                spec_resolved(m),
                spec_manifest_size(m.spec_levels(), 0),
                self.limit,
                match self.ttl_seconds {
                    Some(t) => t,
                    None => 0,
                },
                now_micros,
            ),
    {
        let ttl: u64 = match self.ttl_seconds {
            Some(t) => t,
            None => 0,
        };
        let ghost resolved = spec_resolved(m);
        // expired segments, across all levels
        let mut expired: Vec<u64> = Vec::new();
        let mut l: usize = 0;
        proof {
            assert(expired@ + spec_expired_all(resolved, ttl, now_micros, 0) =~= spec_expired_all(
                resolved,
                ttl,
                now_micros,
                0,
            ));
        }
        while l < m.depth()
            invariant
                0 <= l <= m.spec_levels().len(),
                resolved == spec_resolved(m),
                expired@ + spec_expired_all(resolved, ttl, now_micros, l as int)
                    == spec_expired_all(resolved, ttl, now_micros, 0),
            decreases m.spec_levels().len() - l,
        {
            let level = m.resolved_level(l);
            proof {
                assert(resolved[l as int] == level.segments@.map_values(|x: ParsedMeta| x@)
                    || true);
                assert(views_of_metas(level.segments@) == resolved[l as int]);
            }
            let ids = expired_level_ids(&level.segments, ttl, now_micros, 0);
            crate::bytes_util::append_u64s(&mut expired, &ids);
            proof {
                assert(expired@ + spec_expired_all(resolved, ttl, now_micros, l + 1)
                    =~= spec_expired_all(resolved, ttl, now_micros, 0));
            }
            l = l + 1;
        }
        proof {
            assert(expired@ + Seq::<u64>::empty() =~= expired@);
        }
        // size-limit drops from level zero, oldest first
        let db_size = m.size();
        let first = m.resolved_level(0);
        let mut ids = expired;
        if db_size > self.limit {
            let oldest = sort_by_seqno_max(&first.segments);
            let dropped = fifo_drop_ids(&oldest, db_size - self.limit, 0);
            let ghost pre = ids@;
            let mut k: usize = 0;
            while k < dropped.len()
                invariant
                    0 <= k <= dropped@.len(),
                    spec_append_unique(pre, dropped@, 0) == spec_append_unique(
                        ids@,
                        dropped@,
                        k as int,
                    ),
                decreases dropped@.len() - k,
            {
                if !id_among(&ids, dropped[k]) {
                    ids.push(dropped[k]);
                }
                k = k + 1;
            }
            proof {
                assert(spec_append_unique(pre, dropped@, 0) == ids@);
            }
        } else {
            proof {
                assert(spec_append_unique(ids@, Seq::<u64>::empty(), 0) == ids@);
            }
        }
        if ids.len() == 0 {
            if first.is_disjoint() {
                Choice::DoNothing
            } else {
                let maintenance = MaintenanceStrategy;
                maintenance.decide(m)
            }
        } else {
            Choice::Drop(ids)
        }
    }
}

/// Collects the ids of the expired segments of one level.
pub fn expired_level_ids(segs: &Vec<ParsedMeta>, ttl_seconds: u64, now_micros: u128, i: usize) -> (r:
    Vec<u64>)
    requires
        i <= segs@.len(),
    ensures
        r@ == spec_expired_level(views_of_metas(segs@), ttl_seconds, now_micros, i as int),
    decreases segs@.len() - i,
{
    let _l: usize = segs.len();
    if i >= segs.len() {
        Vec::new()
    } else {
        proof {
            assert(views_of_metas(segs@)[i as int] == segs@[i as int]@);
        }
        let rest = expired_level_ids(segs, ttl_seconds, now_micros, i + 1);
        let age_micros: u128 = if now_micros >= segs[i].created_at.get() {
            now_micros - segs[i].created_at.get()
        } else {
            0
        };
        let is_expired = ttl_seconds > 0 && age_micros / 1_000_000 > (ttl_seconds as u128);
        if is_expired {
            let mut r: Vec<u64> = Vec::new();
            r.push(segs[i].id);
            crate::bytes_util::append_u64s(&mut r, &rest);
            proof {
                assert(r@ =~= spec_expired_level(
                    views_of_metas(segs@),
                    ttl_seconds,
                    now_micros,
                    i as int,
                ));
            }
            r
        } else {
            rest
        }
    }
}

/// Collects the ids of the oldest segments until `bytes` are covered.
pub fn fifo_drop_ids(rev: &Vec<ParsedMeta>, bytes: u64, i: usize) -> (r: Vec<u64>)
    requires
        i <= rev@.len(),
    ensures
        r@ == spec_fifo_drop(views_of_metas(rev@), bytes, i as int),
    decreases rev@.len() - i,
{
    let _l: usize = rev.len();
    if i >= rev.len() || bytes == 0 {
        Vec::new()
    } else {
        proof {
            assert(views_of_metas(rev@)[i as int] == rev@[i as int]@);
        }
        let size = rev[i].file_size;
        let nb = if bytes < size {
            0
        } else {
            bytes - size
        };
        let rest = fifo_drop_ids(rev, nb, i + 1);
        let mut r: Vec<u64> = Vec::new();
        r.push(rev[i].id);
        crate::bytes_util::append_u64s(&mut r, &rest);
        proof {
            assert(r@ =~= spec_fifo_drop(views_of_metas(rev@), bytes, i as int));
        }
        r
    }
}

/// The raw (unfiltered) views of a manifest's levels.
pub open spec fn spec_raw(m: &LevelManifest) -> Seq<Seq<SegMetaView>> {
    Seq::new(m.spec_levels().len(), |i: int| views_of_metas(m.spec_levels()[i].segments@))
}

/// The decision of the size-tiered strategy, scanning levels from `i`
/// upward (deepest non-last level first): once a level reaches its
/// desired size, merge its oldest segments into the next level; when the
/// next level is the last one, absorb everything already there.
pub open spec fn spec_tiered_scan(
    resolved: Seq<Seq<SegMetaView>>,
    raw: Seq<Seq<SegMetaView>>,
    hidden: Seq<u64>,
    base_size: u32,
    ratio: u8,
    i: int,
) -> SpecChoice
    decreases i + 1,
{
    if i < 0 {
        spec_maintenance_choose(resolved[0])
    } else {
        let lvl = resolved[i];
        if lvl.len() == 0 {
            spec_tiered_scan(resolved, raw, hidden, base_size, ratio, i - 1)
        } else {
            let level_size = spec_sat_size(lvl, 0);
            let desired = spec_sat_pow_mul(ratio, i + 1, base_size);
            if level_size >= desired {
                let oldest = spec_sort_max(lvl);
                let cnt = spec_pick_count(oldest, desired, ratio as int, 0);
                let ids0 = spec_ids_of(oldest, 0, cnt);
                if i + 1 == resolved.len() - 1 {
                    if spec_level_busy(raw[i + 1], hidden) {
                        spec_tiered_scan(resolved, raw, hidden, base_size, ratio, i - 1)
                    } else {
                        SpecChoice::Merge {
                            ids: spec_append_unique(
                                ids0,
                                spec_ids_of(raw[i + 1], 0, raw[i + 1].len() as int),
                                0,
                            ),
                            dest: (i + 1) as u8,
                            target: u64::MAX,
                        }
                    }
                } else {
                    SpecChoice::Merge { ids: ids0, dest: (i + 1) as u8, target: u64::MAX }
                }
            } else {
                spec_tiered_scan(resolved, raw, hidden, base_size, ratio, i - 1)
            }
        }
    }
}

/// Size-tiered compaction: when a level reaches a threshold, its oldest
/// segments are merged into a larger segment on the next level.
#[derive(Clone, Debug, PartialEq, Eq)]
pub struct TieredStrategy {
    /// Base size of level zero.
    pub base_size: u32,
    /// Size ratio between levels (fanout): level `i` wants
    /// `base_size * level_ratio^(i + 1)` bytes.
    pub level_ratio: u8,
}

impl TieredStrategy {
    /// Creates a size-tiered strategy with a custom base size.
    pub fn new(base_size: u32, level_ratio: u8) -> (r: TieredStrategy)
        ensures
            r.base_size == base_size,
            r.level_ratio == level_ratio,
    {
        TieredStrategy { base_size, level_ratio }
    }
}

impl Default for TieredStrategy {
    /// Sixty-four MiB base size with a fanout of four.
    fn default() -> (r: TieredStrategy)
        ensures
            r.base_size == 64 * 1024 * 1024,
            r.level_ratio == 4,
    {
        TieredStrategy { base_size: 64 * 1024 * 1024, level_ratio: 4 }
    }
}

impl TieredStrategy {
    /// Decides the next size-tiered compaction.
    pub fn decide(&self, m: &LevelManifest) -> (r: Choice)
        requires
            m.spec_levels().len() >= 1,
            m.spec_levels().len() <= 255,
        ensures
            r@ == spec_tiered_scan(
                spec_resolved(m),
                spec_raw(m),
                m.spec_hidden(),
                self.base_size,
                self.level_ratio,
                m.spec_levels().len() - 2,
            ),
    {
        let depth = m.depth();
        if depth >= 2 {
            self.scan(m, depth - 2, true)
        } else {
            self.scan(m, 0, false)
        }
    }

    /// Scans one level and recurses upward; `valid` is false only when the
    /// manifest has a single level and the scan starts below level zero.
    fn scan(&self, m: &LevelManifest, i: usize, valid: bool) -> (r: Choice)
        requires
            m.spec_levels().len() >= 1,
            m.spec_levels().len() <= 255,
            valid ==> i == m.spec_levels().len() - 2 || i < m.spec_levels().len() - 2,
            valid ==> i <= m.spec_levels().len() - 2,
            !valid ==> m.spec_levels().len() < 2 && i == 0,
        ensures
            r@ == spec_tiered_scan(
                spec_resolved(m),
                spec_raw(m),
                m.spec_hidden(),
                self.base_size,
                self.level_ratio,
                if valid {
                    i as int
                } else {
                    -1
                },
            ),
        decreases i + 1,
    {
        let ghost resolved = spec_resolved(m);
        let ghost raw = spec_raw(m);
        if !valid {
            let maintenance = MaintenanceStrategy;
            return maintenance.decide(m);
        }
        let lvl = m.resolved_level(i);
        proof {
            assert(resolved[i as int] == views_of_metas(lvl.segments@));
        }
        if lvl.segments.len() == 0 {
            if i == 0 {
                proof {
                    assert(spec_tiered_scan(
                        resolved,
                        raw,
                        m.spec_hidden(),
                        self.base_size,
                        self.level_ratio,
                        -1,
                    ) == spec_maintenance_choose(resolved[0]));
                }
                let maintenance = MaintenanceStrategy;
                return maintenance.decide(m);
            }
            return self.scan(m, i - 1, true);
        }
        let level_size = lvl.size();
        let desired = sat_pow_mul(self.level_ratio, (i + 1) as u8, self.base_size);
        if level_size >= desired {
            let oldest = sort_by_seqno_max(&lvl.segments);
            let cnt = pick_count(&oldest, desired, self.level_ratio as usize, 0);
            let ids0 = ids_of(&oldest, 0, cnt);
            if i + 1 == depth_minus_one(m) {
                proof {
                    assert(raw[i + 1] == views_of_metas(m.spec_levels()[i + 1].segments@));
                }
                if m.is_busy(i + 1) {
                    if i == 0 {
                        proof {
                            assert(spec_tiered_scan(
                                resolved,
                                raw,
                                m.spec_hidden(),
                                self.base_size,
                                self.level_ratio,
                                -1,
                            ) == spec_maintenance_choose(resolved[0]));
                        }
                        let maintenance = MaintenanceStrategy;
                        return maintenance.decide(m);
                    }
                    return self.scan(m, i - 1, true);
                }
                let last_level = m.level_at(i + 1);
                let last_ids = ids_of(&last_level.segments, 0, last_level.segments.len());
                let mut ids = ids0;
                let ghost pre = ids@;
                let mut k: usize = 0;
                while k < last_ids.len()
                    invariant
                        0 <= k <= last_ids@.len(),
                        spec_append_unique(pre, last_ids@, 0) == spec_append_unique(
                            ids@,
                            last_ids@,
                            k as int,
                        ),
                    decreases last_ids@.len() - k,
                {
                    if !id_among(&ids, last_ids[k]) {
                        ids.push(last_ids[k]);
                    }
                    k = k + 1;
                }
                proof {
                    assert(spec_append_unique(pre, last_ids@, 0) == ids@);
                }
                return Choice::Merge(
                    CompactionInput {
                        segment_ids: ids,
                        dest_level: (i + 1) as u8,
                        target_size: u64::MAX,
                    },
                );
            }
            return Choice::Merge(
                CompactionInput {
                    segment_ids: ids0,
                    dest_level: (i + 1) as u8,
                    target_size: u64::MAX,
                },
            );
        }
        if i == 0 {
            proof {
                assert(spec_tiered_scan(
                    resolved,
                    raw,
                    m.spec_hidden(),
                    self.base_size,
                    self.level_ratio,
                    -1,
                ) == spec_maintenance_choose(resolved[0]));
            }
            let maintenance = MaintenanceStrategy;
            return maintenance.decide(m);
        }
        self.scan(m, i - 1, true)
    }
}

/// The index of the last level.
fn depth_minus_one(m: &LevelManifest) -> (r: usize)
    requires
        m.spec_levels().len() >= 1,
    ensures
        r == m.spec_levels().len() - 1,
{
    m.depth() - 1
}

/// The decision of the levelled strategy, scanning levels from `i` (the
/// deepest level that is not the last) down to level one, then falling
/// back to the level-zero threshold rule.
pub open spec fn spec_levelled_scan(
    resolved: Seq<Seq<SegMetaView>>,
    raw: Seq<Seq<SegMetaView>>,
    hidden: Seq<u64>,
    ratio: u8,
    target_size: u32,
    l0_threshold: u8,
    i: int,
) -> SpecChoice
    decreases i,
{
    if i < 1 {
        spec_levelled_l0(resolved, raw, hidden, target_size, l0_threshold)
    } else {
        let lvl = resolved[i];
        if lvl.len() == 0 || spec_level_busy(raw[i], hidden) || spec_level_busy(
            raw[i + 1],
            hidden,
        ) {
            spec_levelled_scan(resolved, raw, hidden, ratio, target_size, l0_threshold, i - 1)
        } else {
            let overshoot = spec_sat_sub(
                spec_sat_size(lvl, 0),
                spec_sat_pow_mul(ratio, i, target_size),
            );
            if overshoot > 0 {
                let sorted = spec_sort_key(lvl);
                let cnt = spec_pick_count(sorted, overshoot, ratio as int, 0);
                let lo = spec_agg_min(sorted, cnt);
                let hi = spec_agg_max(sorted, cnt);
                let over = spec_overlap_ids(resolved[i + 1], lo, hi, 0);
                if over.len() == 0 && spec_run(sorted.take(cnt)) {
                    SpecChoice::Move {
                        ids: spec_ids_of(sorted, 0, cnt),
                        dest: (i + 1) as u8,
                        target: target_size as u64,
                    }
                } else {
                    SpecChoice::Merge {
                        ids: spec_ids_of(sorted, 0, cnt) + over,
                        dest: (i + 1) as u8,
                        target: target_size as u64,
                    }
                }
            } else {
                spec_levelled_scan(resolved, raw, hidden, ratio, target_size, l0_threshold, i - 1)
            }
        }
    }
}

/// The level-zero rule of the levelled strategy: once enough segments
/// accumulate, merge them all, along with whatever they overlap in level
/// one.
pub open spec fn spec_levelled_l0(
    resolved: Seq<Seq<SegMetaView>>,
    raw: Seq<Seq<SegMetaView>>,
    hidden: Seq<u64>,
    target_size: u32,
    l0_threshold: u8,
) -> SpecChoice {
    if resolved.len() < 2 {
        SpecChoice::DoNothing
    } else {
        let first = resolved[0];
        if first.len() >= l0_threshold && !spec_level_busy(raw[0], hidden) && !spec_level_busy(
            raw[1],
            hidden,
        ) {
            let sorted = spec_sort_key(first);
            let lo = spec_agg_min(sorted, sorted.len() as int);
            let hi = spec_agg_max(sorted, sorted.len() as int);
            let over = spec_overlap_ids(resolved[1], lo, hi, 0);
            SpecChoice::Merge {
                ids: spec_ids_of(sorted, 0, sorted.len() as int) + over,
                dest: 1,
                target: target_size as u64,
            }
        } else {
            SpecChoice::DoNothing
        }
    }
}

/// Levelled compaction: when a level outgrows its target size, part of it
/// is merged into the overlapping segments of the next level, keeping
/// each level below level zero a single sorted run.
#[derive(Clone, Debug, PartialEq, Eq)]
pub struct LevelledStrategy {
    /// Merge level zero into level one once it holds this many segments.
    pub l0_threshold: u8,
    /// Target segment size in bytes.
    pub target_size: u32,
}

impl Default for LevelledStrategy {
    /// A threshold of four segments and sixty-four MiB targets.
    fn default() -> (r: LevelledStrategy)
        ensures
            r.l0_threshold == 4,
            r.target_size == 64 * 1024 * 1024,
    {
        LevelledStrategy { l0_threshold: 4, target_size: 64 * 1024 * 1024 }
    }
}

impl LevelledStrategy {
    /// Creates a levelled strategy with a custom threshold and target size.
    pub fn new(l0_threshold: u8, target_size: u32) -> (r: LevelledStrategy)
        ensures
            r.l0_threshold == l0_threshold,
            r.target_size == target_size,
    {
        LevelledStrategy { l0_threshold, target_size }
    }

    /// Decides the next levelled compaction.
    pub fn decide(&self, m: &LevelManifest, config: &crate::config::Config) -> (r: Choice)
        requires
            m.spec_levels().len() >= 1,
            m.spec_levels().len() <= 255,
            config.level_ratio >= 1,
            self.l0_threshold >= 1,
        ensures
            r@ == spec_levelled_scan(
                spec_resolved(m),
                spec_raw(m),
                m.spec_hidden(),
                config.level_ratio,
                self.target_size,
                self.l0_threshold,
                m.spec_levels().len() - 2,
            ),
    {
        let depth = m.depth();
        if depth >= 3 {
            self.scan(m, config.level_ratio, depth - 2)
        } else {
            proof {
                if m.spec_levels().len() == 2 {
                    assert(spec_levelled_scan(
                        spec_resolved(m),
                        spec_raw(m),
                        m.spec_hidden(),
                        config.level_ratio,
                        self.target_size,
                        self.l0_threshold,
                        0,
                    ) == spec_levelled_l0(
                        spec_resolved(m),
                        spec_raw(m),
                        m.spec_hidden(),
                        self.target_size,
                        self.l0_threshold,
                    ));
                }
            }
            self.decide_l0(m, config.level_ratio)
        }
    }

    /// Scans one level below the last and recurses toward level one.
    fn scan(&self, m: &LevelManifest, ratio: u8, i: usize) -> (r: Choice)
        requires
            m.spec_levels().len() >= 1,
            m.spec_levels().len() <= 255,
            ratio >= 1,
            self.l0_threshold >= 1,
            1 <= i <= m.spec_levels().len() - 2,
        ensures
            r@ == spec_levelled_scan(
                spec_resolved(m),
                spec_raw(m),
                m.spec_hidden(),
                ratio,
                self.target_size,
                self.l0_threshold,
                i as int,
            ),
        decreases i,
    {
        let ghost resolved = spec_resolved(m);
        let ghost raw = spec_raw(m);
        let lvl = m.resolved_level(i);
        proof {
            assert(resolved[i as int] == views_of_metas(lvl.segments@));
            assert(raw[i as int] == views_of_metas(m.spec_levels()[i as int].segments@));
            assert(raw[i + 1] == views_of_metas(m.spec_levels()[i + 1].segments@));
        }
        if lvl.segments.len() == 0 || m.is_busy(i) || m.is_busy(i + 1) {
            if i == 1 {
                proof {
                    assert(spec_levelled_scan(
                        resolved,
                        raw,
                        m.spec_hidden(),
                        ratio,
                        self.target_size,
                        self.l0_threshold,
                        0,
                    ) == spec_levelled_l0(
                        resolved,
                        raw,
                        m.spec_hidden(),
                        self.target_size,
                        self.l0_threshold,
                    ));
                }
                return self.decide_l0(m, ratio);
            }
            return self.scan(m, ratio, i - 1);
        }
        let overshoot = {
            let size = lvl.size();
            let desired = sat_pow_mul(ratio, i as u8, self.target_size);
            if size < desired {
                0
            } else {
                size - desired
            }
        };
        if overshoot > 0 {
            let sorted = sort_by_key_min(&lvl.segments);
            let cnt = pick_count(&sorted, overshoot, ratio as usize, 0);
            proof {
                lemma_sort_key_len(views_of_metas(lvl.segments@));
                assert(views_of_metas(sorted@)[0] == sorted@[0]@);
                lemma_pick_count_bounds(
                    views_of_metas(sorted@),
                    spec_sat_sub(overshoot, views_of_metas(sorted@)[0].file_size),
                    ratio as int - 1,
                    1,
                );
                assert(cnt >= 1);
            }
            let (lo, hi) = aggregate_key_range(&sorted, cnt);
            let next = m.resolved_level(i + 1);
            proof {
                assert(resolved[i + 1] == views_of_metas(next.segments@));
            }
            let over = overlap_ids(&next.segments, &lo, &hi, 0);
            let picked = take_metas(&sorted, cnt);
            if over.len() == 0 && segments_form_run(&picked) {
                return Choice::Move(
                    CompactionInput {
                        segment_ids: ids_of(&sorted, 0, cnt),
                        dest_level: (i + 1) as u8,
                        target_size: self.target_size as u64,
                    },
                );
            }
            let mut ids = ids_of(&sorted, 0, cnt);
            crate::bytes_util::append_u64s(&mut ids, &over);
            return Choice::Merge(
                CompactionInput {
                    segment_ids: ids,
                    dest_level: (i + 1) as u8,
                    target_size: self.target_size as u64,
                },
            );
        }
        if i == 1 {
            proof {
                assert(spec_levelled_scan(
                    resolved,
                    raw,
                    m.spec_hidden(),
                    ratio,
                    self.target_size,
                    self.l0_threshold,
                    0,
                ) == spec_levelled_l0(
                    resolved,
                    raw,
                    m.spec_hidden(),
                    self.target_size,
                    self.l0_threshold,
                ));
            }
            return self.decide_l0(m, ratio);
        }
        self.scan(m, ratio, i - 1)
    }

    /// The level-zero threshold rule.
    fn decide_l0(&self, m: &LevelManifest, ratio: u8) -> (r: Choice)
        requires
            m.spec_levels().len() >= 1,
            ratio >= 1,
            self.l0_threshold >= 1,
        ensures
            r@ == spec_levelled_l0(
                spec_resolved(m),
                spec_raw(m),
                m.spec_hidden(),
                self.target_size,
                self.l0_threshold,
            ),
    {
        let ghost resolved = spec_resolved(m);
        let ghost raw = spec_raw(m);
        if m.depth() < 2 {
            return Choice::DoNothing;
        }
        let first = m.resolved_level(0);
        proof {
            assert(resolved[0] == views_of_metas(first.segments@));
            assert(raw[0] == views_of_metas(m.spec_levels()[0].segments@));
            assert(raw[1] == views_of_metas(m.spec_levels()[1].segments@));
        }
        if first.segments.len() >= (self.l0_threshold as usize) && !m.is_busy(0) && !m.is_busy(1) {
            let sorted = sort_by_key_min(&first.segments);
            proof {
                lemma_sort_key_len(views_of_metas(first.segments@));
            }
            let n = sorted.len();
            proof {
                assert(n >= 1);
            }
            let (lo, hi) = aggregate_key_range(&sorted, n);
            let next = m.resolved_level(1);
            proof {
                assert(resolved[1] == views_of_metas(next.segments@));
            }
            let over = overlap_ids(&next.segments, &lo, &hi, 0);
            let mut ids = ids_of(&sorted, 0, n);
            crate::bytes_util::append_u64s(&mut ids, &over);
            Choice::Merge(
                CompactionInput { segment_ids: ids, dest_level: 1, target_size: self.target_size as u64 },
            )
        } else {
            Choice::DoNothing
        }
    }
}

/// Copies the first `n` segments.
pub fn take_metas(segs: &Vec<ParsedMeta>, n: usize) -> (r: Vec<ParsedMeta>)
    requires
        n <= segs@.len(),
    ensures
        views_of_metas(r@) == views_of_metas(segs@).take(n as int),
{
    let mut out: Vec<ParsedMeta> = Vec::new();
    let mut i: usize = 0;
    while i < n
        invariant
            0 <= i <= n <= segs@.len(),
            out@.len() == i,
            forall|j: int| 0 <= j < i ==> #[trigger] out@[j]@ == segs@[j]@,
        decreases n - i,
    {
        out.push(segs[i].clone_meta());
        i = i + 1;
    }
    proof {
        assert forall|j: int|
            0 <= j < n implies #[trigger] views_of_metas(out@)[j] == views_of_metas(segs@).take(
            n as int,
        )[j] by {
            assert(views_of_metas(out@)[j] == out@[j]@);
            assert(views_of_metas(segs@)[j] == segs@[j]@);
        }
        assert(views_of_metas(out@) =~= views_of_metas(segs@).take(n as int));
    }
    out
}

/// The pick count lies between its start index and the run length.
pub proof fn lemma_pick_count_bounds(segs: Seq<SegMetaView>, budget: u64, cap: int, i: int)
    requires
        0 <= i <= segs.len(),
    ensures
        i <= spec_pick_count(segs, budget, cap, i) <= segs.len(),
    decreases segs.len() - i,
{
    if i < segs.len() && cap > 0 && budget != 0 {
        lemma_pick_count_bounds(segs, spec_sat_sub(budget, segs[i].file_size), cap - 1, i + 1);
    }
}

/// An empty overlap scan means no segment of the level overlaps the
/// range: every key range either ends before `lo` or starts after `hi`.
pub proof fn lemma_overlap_empty(segs: Seq<SegMetaView>, lo: Seq<u8>, hi: Seq<u8>, i: int)
    requires
        spec_overlap_ids(segs, lo, hi, i).len() == 0,
        0 <= i,
    ensures
        forall|j: int|
            i <= j < segs.len() ==> !(lex_le((#[trigger] segs[j]).key_min, hi) && lex_le(
                lo,
                segs[j].key_max,
            )),
    decreases segs.len() - i,
{
    if i < segs.len() {
        lemma_overlap_empty(segs, lo, hi, i + 1);
    }
}

/// The levelled strategy moves a run only where it lands free: whenever
/// the scan answers `Move`, the moved segments are the first `cnt` of the
/// source level in ascending key order, they form a single sorted run,
/// and their aggregate key range overlaps no segment of the destination
/// level.
pub proof fn lemma_levelled_move_disjoint(
    resolved: Seq<Seq<SegMetaView>>,
    raw: Seq<Seq<SegMetaView>>,
    hidden: Seq<u64>,
    ratio: u8,
    target_size: u32,
    l0_threshold: u8,
    i: int,
)
    requires
        i <= 254,
        spec_levelled_scan(
            resolved,
            raw,
            hidden,
            ratio,
            target_size,
            l0_threshold,
            i,
        ) is Move,
    ensures
        ({
            let c = spec_levelled_scan(resolved, raw, hidden, ratio, target_size, l0_threshold, i);
            match c {
                SpecChoice::Move { ids, dest, target } => {
                    &&& 2 <= dest as int <= i + 1
                    &&& {
                        let src = spec_sort_key(resolved[dest as int - 1]);
                        exists|cnt: int|
                            {
                                &&& 0 <= cnt
                                &&& ids == spec_ids_of(src, 0, cnt)
                                &&& spec_run(src.take(cnt))
                                &&& forall|j: int|
                                    0 <= j < resolved[dest as int].len() ==> !(lex_le(
                                        (#[trigger] resolved[dest as int][j]).key_min,
                                        spec_agg_max(src, cnt),
                                    ) && lex_le(
                                        spec_agg_min(src, cnt),
                                        resolved[dest as int][j].key_max,
                                    ))
                            }
                    }
                },
                _ => true,
            }
        }),
    decreases i,
{
    if i < 1 {
        // the level-zero rule answers Merge or DoNothing, never Move
    } else {
        let lvl = resolved[i];
        if lvl.len() == 0 || spec_level_busy(raw[i], hidden) || spec_level_busy(
            raw[i + 1],
            hidden,
        ) {
            lemma_levelled_move_disjoint(
                resolved,
                raw,
                hidden,
                ratio,
                target_size,
                l0_threshold,
                i - 1,
            );
        } else {
            let overshoot = spec_sat_sub(
                spec_sat_size(lvl, 0),
                spec_sat_pow_mul(ratio, i, target_size),
            );
            if overshoot > 0 {
                let sorted = spec_sort_key(lvl);
                let cnt = spec_pick_count(sorted, overshoot, ratio as int, 0);
                let lo = spec_agg_min(sorted, cnt);
                let hi = spec_agg_max(sorted, cnt);
                let over = spec_overlap_ids(resolved[i + 1], lo, hi, 0);
                if over.len() == 0 && spec_run(sorted.take(cnt)) {
                    lemma_overlap_empty(resolved[i + 1], lo, hi, 0);
                    lemma_pick_count_bounds(sorted, overshoot, ratio as int, 0);
                    let c = spec_levelled_scan(
                        resolved,
                        raw,
                        hidden,
                        ratio,
                        target_size,
                        l0_threshold,
                        i,
                    );
                    let dest = (i + 1) as u8;
                    assert(c == (SpecChoice::Move {
                        ids: spec_ids_of(sorted, 0, cnt),
                        dest,
                        target: target_size as u64,
                    }));
                    assert(dest as int == i + 1);
                    assert(spec_sort_key(resolved[dest as int - 1]) == sorted);
                    let src = spec_sort_key(resolved[dest as int - 1]);
                    assert(0 <= cnt && spec_ids_of(sorted, 0, cnt) == spec_ids_of(src, 0, cnt)
                        && spec_run(src.take(cnt)) && forall|j: int|
                        0 <= j < resolved[dest as int].len() ==> !(lex_le(
                            (#[trigger] resolved[dest as int][j]).key_min,
                            spec_agg_max(src, cnt),
                        ) && lex_le(spec_agg_min(src, cnt), resolved[dest as int][j].key_max)));
                } else {
                    assert(false);
                }
            } else {
                lemma_levelled_move_disjoint(
                    resolved,
                    raw,
                    hidden,
                    ratio,
                    target_size,
                    l0_threshold,
                    i - 1,
                );
            }
        }
    }
}

} // verus!
