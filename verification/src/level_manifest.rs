//! The level manifest: which segments live in which level.  Level 0 may
//! hold overlapping runs; every deeper level is meant to hold a single
//! sorted run.  A hidden set marks segments claimed by an in-flight
//! compaction.  The manifest serializes to a checksummed byte image that
//! the embedding program rewrites atomically.

use vstd::prelude::*;

use crate::bytes_util::{bytes_lt, lex_le, lex_lt};
use crate::coding::{
    get_u32_le, get_u64_le, put_u32_le, put_u64_le, spec_le32, spec_le64,
};
use crate::error::LsmError;
use crate::hashes::{xxh3_64, xxh3_64_of};
use crate::meta::{ParsedMeta, SegMetaView};

verus! {

/// One level: a list of segment descriptors, newest first (largest maximum
/// sequence number first; ties keep insertion order).
#[derive(Clone, Debug)]
pub struct Level {
    /// The segments of the level.
    pub segments: Vec<ParsedMeta>,
}

/// The views of a list of segment descriptors.
pub open spec fn views_of_metas(segs: Seq<ParsedMeta>) -> Seq<SegMetaView> {
    Seq::new(segs.len(), |i: int| segs[i]@)
}

/// The position where a segment with `seqno_max == s` is inserted to keep
/// the newest-first order, after any equals: the first index whose segment
/// is strictly older.
pub open spec fn spec_insert_pos(segs: Seq<SegMetaView>, s: u64, i: int) -> int
    decreases segs.len() - i,
{
    if i < 0 || i >= segs.len() {
        segs.len() as int
    } else if segs[i].seqno_max < s {
        i
    } else {
        spec_insert_pos(segs, s, i + 1)
    }
}

/// Segments whose ids are not hidden, in order.
pub open spec fn spec_visible(segs: Seq<SegMetaView>, hidden: Seq<u64>) -> Seq<SegMetaView>
    decreases segs.len(),
{
    if segs.len() == 0 {
        Seq::empty()
    } else if hidden.contains(segs[0].id) {
        spec_visible(segs.skip(1), hidden)
    } else {
        seq![segs[0]] + spec_visible(segs.skip(1), hidden)
    }
}

/// Adjacent segments form an ascending disjoint run: each segment's last
/// key lies strictly before the next segment's first key.
pub open spec fn spec_run(segs: Seq<SegMetaView>) -> bool {
    forall|i: int|
        0 <= i < segs.len() - 1 ==> lex_lt((#[trigger] segs[i]).key_max, segs[i + 1].key_min)
}

/// In an ascending run of well-formed ranges, key ranges are pairwise
/// disjoint, and both endpoints ascend with the stored order: the single
/// sorted-run shape every level below level zero must keep.
pub proof fn lemma_run_disjoint(segs: Seq<SegMetaView>, i: int, j: int)
    requires
        spec_run(segs),
        forall|k: int| 0 <= k < segs.len() ==> lex_le((#[trigger] segs[k]).key_min, segs[k].key_max),
        0 <= i < j < segs.len(),
    ensures
        lex_lt(segs[i].key_max, segs[j].key_min),
        !(lex_le(segs[i].key_min, segs[j].key_max) && lex_le(segs[j].key_min, segs[i].key_max)),
        lex_lt(segs[i].key_min, segs[j].key_min),
    decreases j - i,
{
    if i + 1 == j {
    } else {
        lemma_run_disjoint(segs, i + 1, j);
        crate::bytes_util::lemma_lex_lt_le_trans(
            segs[i].key_max,
            segs[i + 1].key_min,
            segs[i + 1].key_max,
        );
        crate::bytes_util::lemma_lex_trans(segs[i].key_max, segs[i + 1].key_max, segs[j].key_min);
    }
    assert(!(lex_le(segs[i].key_min, segs[j].key_max) && lex_le(segs[j].key_min, segs[i].key_max)))
        by {
        if lex_le(segs[j].key_min, segs[i].key_max) {
            crate::bytes_util::lemma_lex_asym(segs[i].key_max, segs[j].key_min);
        }
    }
    assert(lex_lt(segs[i].key_min, segs[j].key_min)) by {
        crate::bytes_util::lemma_lex_le_lt_trans(segs[i].key_min, segs[i].key_max, segs[j].key_min);
    }
}

impl Level {
    /// An empty level.
    pub fn empty() -> (r: Level)
        ensures
            r.segments@ =~= Seq::<ParsedMeta>::empty(),
    {
        Level { segments: Vec::new() }
    }

    /// Number of segments in the level.
    pub fn len(&self) -> (r: usize)
        ensures
            r == self.segments@.len(),
    {
        self.segments.len()
    }

    /// Whether the level holds no segments.
    pub fn is_empty(&self) -> (r: bool)
        ensures
            r == (self.segments@.len() == 0),
    {
        self.segments.len() == 0
    }

    /// Total byte size of the level's segments, saturating.
    pub fn size(&self) -> (r: u64)
        ensures
            r == spec_sat_size(views_of_metas(self.segments@), 0),
    {
        sat_size_from(&self.segments, 0)
    }

    /// Whether the stored order forms an ascending disjoint run.
    pub fn is_disjoint(&self) -> (r: bool)
        ensures
            r == spec_run(views_of_metas(self.segments@)),
    {
        segments_form_run(&self.segments)
    }
}

/// Total file size of the segments from `i` on, saturating at `u64::MAX`.
pub open spec fn spec_sat_size(segs: Seq<SegMetaView>, i: int) -> u64
    decreases segs.len() - i,
{
    if i < 0 || i >= segs.len() {
        0u64
    } else {
        let rest = spec_sat_size(segs, i + 1);
        if segs[i].file_size + rest > u64::MAX {
            u64::MAX
        } else {
            (segs[i].file_size + rest) as u64
        }
    }
}

/// Computes the saturating total size of the segments from `i` on.
pub fn sat_size_from(segs: &Vec<ParsedMeta>, i: usize) -> (r: u64)
    requires
        i <= segs@.len(),
    ensures
        r == spec_sat_size(views_of_metas(segs@), i as int),
    decreases segs@.len() - i,
{
    if i >= segs.len() {
        0
    } else {
        let rest = sat_size_from(segs, i + 1);
        let size = segs[i].file_size;
        proof {
            assert(views_of_metas(segs@)[i as int] == segs@[i as int]@);
        }
        if size > u64::MAX - rest {
            u64::MAX
        } else {
            size + rest
        }
    }
}

/// Whether adjacent segments form an ascending disjoint run.
pub fn segments_form_run(segs: &Vec<ParsedMeta>) -> (r: bool)
    ensures
        r == spec_run(views_of_metas(segs@)),
{
    let mut i: usize = 1;
    while i < segs.len()
        invariant
            1 <= i || segs@.len() == 0,
            i <= segs@.len() + 1,
            forall|x: int|
                0 <= x < i - 1 && x < segs@.len() - 1 ==> lex_lt(
                    #[trigger] views_of_metas(segs@)[x].key_max,
                    views_of_metas(segs@)[x + 1].key_min,
                ),
        decreases segs@.len() - i,
    {
        proof {
            assert(views_of_metas(segs@)[i - 1] == segs@[i - 1]@);
            assert(views_of_metas(segs@)[i as int] == segs@[i as int]@);
        }
        if !bytes_lt(
            segs[i - 1].key_range.max.as_slice(),
            segs[i].key_range.min.as_slice(),
        ) {
            return false;
        }
        i = i + 1;
    }
    true
}

/// The hidden ids that are not among `ids`, in order.
pub open spec fn spec_remove_ids(hidden: Seq<u64>, ids: Seq<u64>) -> Seq<u64>
    decreases hidden.len(),
{
    if hidden.len() == 0 {
        Seq::empty()
    } else if ids.contains(hidden[0]) {
        spec_remove_ids(hidden.skip(1), ids)
    } else {
        seq![hidden[0]] + spec_remove_ids(hidden.skip(1), ids)
    }
}

/// Whether `id` occurs in `ids`.
pub fn id_among(ids: &Vec<u64>, id: u64) -> (r: bool)
    ensures
        r == ids@.contains(id),
{
    let mut j: usize = 0;
    while j < ids.len()
        invariant
            0 <= j <= ids@.len(),
            forall|w: int| 0 <= w < j ==> ids@[w] != id,
        decreases ids@.len() - j,
    {
        if ids[j] == id {
            return true;
        }
        j = j + 1;
    }
    false
}

/// Whether a level holds a hidden segment.
pub open spec fn spec_level_busy(segs: Seq<SegMetaView>, hidden: Seq<u64>) -> bool {
    exists|j: int| 0 <= j < segs.len() && hidden.contains((#[trigger] segs[j]).id)
}

/// The persistent list of levels, with the hidden set of segments claimed
/// by an in-flight compaction.
#[derive(Clone, Debug)]
pub struct LevelManifest {
    /// The levels, from level zero down.
    pub levels: Vec<Level>,
    hidden: Vec<u64>,
}

impl LevelManifest {
    /// The hidden segment ids.
    pub closed spec fn spec_hidden(&self) -> Seq<u64> {
        self.hidden@
    }

    /// The levels, as a sequence.
    pub closed spec fn spec_levels(&self) -> Seq<Level> {
        self.levels@
    }

    /// Creates a manifest of `level_count` empty levels.
    pub fn new(level_count: u8) -> (r: LevelManifest)
        requires
            level_count >= 1,
        ensures
            r.spec_levels().len() == level_count,
            forall|i: int| 0 <= i < level_count ==> (#[trigger] r.spec_levels()[i]).segments@.len() == 0,
            r.spec_hidden() =~= Seq::<u64>::empty(),
    {
        let mut levels: Vec<Level> = Vec::new();
        let mut i: usize = 0;
        while i < level_count as usize
            invariant
                0 <= i <= level_count,
                levels@.len() == i,
                forall|j: int| 0 <= j < i ==> (#[trigger] levels@[j]).segments@.len() == 0,
            decreases level_count - i,
        {
            levels.push(Level::empty());
            i = i + 1;
        }
        LevelManifest { levels, hidden: Vec::new() }
    }

    /// Number of levels.
    pub fn depth(&self) -> (r: usize)
        ensures
            r == self.spec_levels().len(),
    {
        self.levels.len()
    }

    /// Registers a new segment in level zero.
    pub fn add(&mut self, seg: ParsedMeta)
        requires
            old(self).spec_levels().len() >= 1,
        ensures
            final(self).spec_levels().len() == old(self).spec_levels().len(),
            views_of_metas(final(self).spec_levels()[0].segments@) == views_of_metas(
                old(self).spec_levels()[0].segments@,
            ).insert(
                spec_insert_pos(views_of_metas(old(self).spec_levels()[0].segments@), seg@.seqno_max, 0),
                seg@,
            ),
            forall|i: int|
                1 <= i < old(self).spec_levels().len() ==> final(self).spec_levels()[i] == old(
                    self,
                ).spec_levels()[i],
            final(self).spec_hidden() == old(self).spec_hidden(),
    {
        self.insert_into_level(0, seg);
    }

    /// Inserts a segment into the given level, keeping the newest-first
    /// order (ties keep their insertion order).
    pub fn insert_into_level(&mut self, idx: u8, seg: ParsedMeta)
        requires
            (idx as int) < old(self).spec_levels().len(),
        ensures
            final(self).spec_levels().len() == old(self).spec_levels().len(),
            views_of_metas(final(self).spec_levels()[idx as int].segments@) == views_of_metas(
                old(self).spec_levels()[idx as int].segments@,
            ).insert(
                spec_insert_pos(
                    views_of_metas(old(self).spec_levels()[idx as int].segments@),
                    seg@.seqno_max,
                    0,
                ),
                seg@,
            ),
            forall|i: int|
                0 <= i < old(self).spec_levels().len() && i != idx ==> final(self).spec_levels()[i] == old(
                    self,
                ).spec_levels()[i],
            final(self).spec_hidden() == old(self).spec_hidden(),
    {
        let level = &self.levels[idx as usize];
        let ghost segs0 = views_of_metas(level.segments@);
        let mut pos: usize = 0;
        while pos < level.segments.len() && level.segments[pos].seqno_max >= seg.seqno_max
            invariant
                0 <= pos <= segs0.len(),
                segs0 == views_of_metas(level.segments@),
                level == old(self).spec_levels()[idx as int],
                spec_insert_pos(segs0, seg@.seqno_max, 0) == spec_insert_pos(
                    segs0,
                    seg@.seqno_max,
                    pos as int,
                ),
            decreases segs0.len() - pos,
        {
            proof {
                assert(segs0[pos as int] == level.segments@[pos as int]@);
            }
            pos = pos + 1;
        }
        proof {
            if pos < level.segments.len() {
                assert(segs0[pos as int] == level.segments@[pos as int]@);
            }
            assert(spec_insert_pos(segs0, seg@.seqno_max, pos as int) == pos);
        }
        let lv = &mut self.levels[idx as usize];
        let ghost pre = lv.segments@;
        lv.segments.insert(pos, seg);
        proof {
            assert(views_of_metas(lv.segments@) =~= views_of_metas(pre).insert(
                pos as int,
                seg@,
            ));
        }
    }

    /// Marks segments as claimed by a compaction: invisible to other
    /// compactors until shown again.
    pub fn hide_segments(&mut self, ids: &Vec<u64>)
        ensures
            final(self).spec_hidden() == old(self).spec_hidden() + ids@,
            final(self).spec_levels() == old(self).spec_levels(),
    {
        let mut i: usize = 0;
        while i < ids.len()
            invariant
                0 <= i <= ids@.len(),
                self.hidden@ == old(self).hidden@ + ids@.subrange(0, i as int),
                self.spec_levels() == old(self).spec_levels(),
            decreases ids@.len() - i,
        {
            self.hidden.push(ids[i]);
            proof {
                assert(self.hidden@ =~= old(self).hidden@ + ids@.subrange(0, i + 1));
            }
            i = i + 1;
        }
        proof {
            assert(self.hidden@ =~= old(self).hidden@ + ids@);
        }
    }

    /// Makes previously hidden segments visible again.
    pub fn show_segments(&mut self, ids: &Vec<u64>)
        ensures
            final(self).spec_levels() == old(self).spec_levels(),
            final(self).spec_hidden() == spec_remove_ids(old(self).spec_hidden(), ids@),
    {
        let mut kept: Vec<u64> = Vec::new();
        let mut i: usize = 0;
        proof {
            assert(self.hidden@.skip(0) =~= self.hidden@);
            assert(kept@ + spec_remove_ids(self.hidden@, ids@) =~= spec_remove_ids(
                self.hidden@,
                ids@,
            ));
        }
        while i < self.hidden.len()
            invariant
                0 <= i <= self.hidden@.len(),
                self.levels@ == old(self).spec_levels(),
                self.hidden@ == old(self).spec_hidden(),
                kept@ + spec_remove_ids(self.hidden@.skip(i as int), ids@) == spec_remove_ids(
                    self.hidden@,
                    ids@,
                ),
            decreases self.hidden@.len() - i,
        {
            let id = self.hidden[i];
            proof {
                assert(self.hidden@.skip(i as int)[0] == self.hidden@[i as int]);
                assert(self.hidden@.skip(i as int).skip(1) =~= self.hidden@.skip(i + 1));
            }
            if !id_among(ids, id) {
                kept.push(id);
                proof {
                    assert(kept@ =~= kept@.drop_last().push(id));
                    assert(kept@ + spec_remove_ids(self.hidden@.skip(i + 1), ids@)
                        =~= spec_remove_ids(self.hidden@, ids@));
                }
            } else {
                proof {
                    assert(kept@ + spec_remove_ids(self.hidden@.skip(i + 1), ids@)
                        =~= spec_remove_ids(self.hidden@, ids@));
                }
            }
            i = i + 1;
        }
        proof {
            assert(self.hidden@.skip(self.hidden@.len() as int) =~= Seq::<u64>::empty());
            assert(kept@ + Seq::<u64>::empty() =~= kept@);
        }
        self.hidden = kept;
    }

    /// Whether a segment id is currently hidden.
    pub fn is_hidden(&self, id: u64) -> (r: bool)
        ensures
            r == self.spec_hidden().contains(id),
    {
        let mut j: usize = 0;
        while j < self.hidden.len()
            invariant
                0 <= j <= self.hidden@.len(),
                forall|w: int| 0 <= w < j ==> self.hidden@[w] != id,
            decreases self.hidden@.len() - j,
        {
            if self.hidden[j] == id {
                return true;
            }
            j = j + 1;
        }
        false
    }

    /// Whether a level holds any hidden segment: a compaction is busy with
    /// it.
    pub fn is_busy(&self, idx: usize) -> (r: bool)
        requires
            idx < self.spec_levels().len(),
        ensures
            r == spec_level_busy(
                views_of_metas(self.spec_levels()[idx as int].segments@),
                self.spec_hidden(),
            ),
    {
        let level = &self.levels[idx];
        let ghost vsegs = views_of_metas(level.segments@);
        let mut j: usize = 0;
        while j < level.segments.len()
            invariant
                0 <= j <= level.segments@.len(),
                level == self.spec_levels()[idx as int],
                vsegs == views_of_metas(level.segments@),
                forall|w: int|
                    0 <= w < j ==> !self.spec_hidden().contains((#[trigger] vsegs[w]).id),
            decreases level.segments@.len() - j,
        {
            proof {
                assert(vsegs[j as int] == level.segments@[j as int]@);
            }
            if self.is_hidden(level.segments[j].id) {
                return true;
            }
            j = j + 1;
        }
        false
    }

    /// The level at index `i`, borrowed.
    pub fn level_at(&self, i: usize) -> (r: &Level)
        requires
            i < self.spec_levels().len(),
        ensures
            r == self.spec_levels()[i as int],
    {
        &self.levels[i]
    }

    /// A read-only copy of one level with the hidden segments left out.
    pub fn resolved_level(&self, idx: usize) -> (r: Level)
        requires
            idx < self.spec_levels().len(),
        ensures
            views_of_metas(r.segments@) == spec_visible(
                views_of_metas(self.spec_levels()[idx as int].segments@),
                self.spec_hidden(),
            ),
    {
        let level = &self.levels[idx];
        let ghost vsegs = views_of_metas(level.segments@);
        let mut out: Vec<ParsedMeta> = Vec::new();
        let mut j: usize = 0;
        proof {
            assert(vsegs.skip(0) =~= vsegs);
            assert(views_of_metas(out@) + spec_visible(vsegs, self.spec_hidden()) =~= spec_visible(
                vsegs,
                self.spec_hidden(),
            ));
        }
        while j < level.segments.len()
            invariant
                0 <= j <= level.segments@.len(),
                level == self.spec_levels()[idx as int],
                vsegs == views_of_metas(level.segments@),
                views_of_metas(out@) + spec_visible(vsegs.skip(j as int), self.spec_hidden())
                    == spec_visible(vsegs, self.spec_hidden()),
            decreases level.segments@.len() - j,
        {
            proof {
                assert(vsegs.skip(j as int)[0] == vsegs[j as int]);
                assert(vsegs[j as int] == level.segments@[j as int]@);
                assert(vsegs.skip(j as int).skip(1) =~= vsegs.skip(j + 1));
            }
            if !self.is_hidden(level.segments[j].id) {
                let ghost out0 = out@;
                out.push(level.segments[j].clone_meta());
                proof {
                    assert(views_of_metas(out@) =~= views_of_metas(out0).push(
                        level.segments@[j as int]@,
                    ));
                    assert(views_of_metas(out@) + spec_visible(
                        vsegs.skip(j + 1),
                        self.spec_hidden(),
                    ) =~= spec_visible(vsegs, self.spec_hidden()));
                }
            } else {
                proof {
                    assert(views_of_metas(out@) + spec_visible(
                        vsegs.skip(j + 1),
                        self.spec_hidden(),
                    ) =~= spec_visible(vsegs, self.spec_hidden()));
                }
            }
            j = j + 1;
        }
        proof {
            assert(vsegs.skip(vsegs.len() as int) =~= Seq::<SegMetaView>::empty());
            assert(views_of_metas(out@) + Seq::<SegMetaView>::empty() =~= views_of_metas(out@));
        }
        Level { segments: out }
    }

    /// Total byte size across all levels, hidden segments included,
    /// saturating.
    pub fn size(&self) -> (r: u64)
        ensures
            r == spec_manifest_size(self.spec_levels(), 0),
    {
        let mut total: u64 = 0;
        let mut i: usize = self.levels.len();
        while i > 0
            invariant
                0 <= i <= self.spec_levels().len(),
                total == spec_manifest_size(self.spec_levels(), i as int),
            decreases i,
        {
            i = i - 1;
            let lsize = self.levels[i].size();
            total = if lsize > u64::MAX - total {
                u64::MAX
            } else {
                lsize + total
            };
        }
        total
    }
}

/// Total saturating size of the levels from `i` on.
pub open spec fn spec_manifest_size(levels: Seq<Level>, i: int) -> u64
    decreases levels.len() - i,
{
    if i < 0 || i >= levels.len() {
        0u64
    } else {
        let rest = spec_manifest_size(levels, i + 1);
        let lsize = spec_sat_size(views_of_metas(levels[i].segments@), 0);
        if lsize + rest > u64::MAX {
            u64::MAX
        } else {
            (lsize + rest) as u64
        }
    }
}

impl ParsedMeta {
    /// Returns a fresh descriptor with the same fields.
    pub fn clone_meta(&self) -> (r: ParsedMeta)
        ensures
            r@ == self@,
    {
        let r = ParsedMeta {
            id: self.id,
            created_at: self.created_at,
            data_block_count: self.data_block_count,
            index_block_count: self.index_block_count,
            key_range: crate::key_range::KeyRange::new(
                crate::bytes_util::copy_range(
                    self.key_range.min.as_slice(),
                    0,
                    self.key_range.min.len(),
                ),
                crate::bytes_util::copy_range(
                    self.key_range.max.as_slice(),
                    0,
                    self.key_range.max.len(),
                ),
            ),
            seqno_min: self.seqno_min,
            seqno_max: self.seqno_max,
            file_size: self.file_size,
            item_count: self.item_count,
            data_block_compression: self.data_block_compression,
        };
        proof {
            assert(r.key_range.min@ =~= self.key_range.min@);
            assert(r.key_range.max@ =~= self.key_range.max@);
            assert(r@ =~= self@);
        }
        r
    }
}

/// The byte image of a manifest: the file header, the level count, then
/// for each level its segment count and ids, then the xxh3 checksum of
/// everything before it.
pub open spec fn spec_manifest_encoded(ids: Seq<Seq<u64>>) -> Seq<u8> {
    let body = crate::version::spec_file_header(crate::version::Version::V0) + spec_le32(
        ids.len() as u32,
    ) + spec_levels_encoded(ids, 0);
    body + spec_le64(xxh3_64_of(body))
}

/// The encoded id lists from level `i` on.
pub open spec fn spec_levels_encoded(ids: Seq<Seq<u64>>, i: int) -> Seq<u8>
    decreases ids.len() - i,
{
    if i < 0 || i >= ids.len() {
        Seq::empty()
    } else {
        spec_le32(ids[i].len() as u32) + spec_ids_encoded(ids[i], 0) + spec_levels_encoded(
            ids,
            i + 1,
        )
    }
}

/// The encoded ids from index `j` on.
pub open spec fn spec_ids_encoded(ids: Seq<u64>, j: int) -> Seq<u8>
    decreases ids.len() - j,
{
    if j < 0 || j >= ids.len() {
        Seq::empty()
    } else {
        spec_le64(ids[j]) + spec_ids_encoded(ids, j + 1)
    }
}

/// The views of a list of id lists.
pub open spec fn views_of_id_lists(ids: Seq<Vec<u64>>) -> Seq<Seq<u64>> {
    Seq::new(ids.len(), |i: int| ids[i]@)
}

/// Appending one id extends its encoding by eight bytes.
pub proof fn lemma_ids_encoded_snoc(ids: Seq<u64>, x: u64)
    ensures
        spec_ids_encoded(ids.push(x), 0) == spec_ids_encoded(ids, 0) + spec_le64(x),
{
    lemma_ids_encoded_snoc_from(ids, x, 0);
}

proof fn lemma_ids_encoded_snoc_from(ids: Seq<u64>, x: u64, j: int)
    requires
        0 <= j <= ids.len(),
    ensures
        spec_ids_encoded(ids.push(x), j) == spec_ids_encoded(ids, j) + spec_le64(x),
    decreases ids.len() - j,
{
    let pushed = ids.push(x);
    if j == ids.len() {
        assert(pushed[j] == x);
        assert(spec_ids_encoded(pushed, j) =~= spec_le64(x) + spec_ids_encoded(pushed, j + 1));
        assert(spec_ids_encoded(pushed, j + 1) =~= Seq::<u8>::empty());
        assert(spec_ids_encoded(ids, j) =~= Seq::<u8>::empty());
        assert(spec_ids_encoded(pushed, j) =~= spec_ids_encoded(ids, j) + spec_le64(x));
    } else {
        assert(pushed[j] == ids[j]);
        lemma_ids_encoded_snoc_from(ids, x, j + 1);
        assert(spec_ids_encoded(pushed, j) =~= spec_ids_encoded(ids, j) + spec_le64(x));
    }
}

/// Appending one level extends the encoding by that level's bytes.
pub proof fn lemma_levels_encoded_snoc(lists: Seq<Seq<u64>>, l: Seq<u64>)
    ensures
        spec_levels_encoded(lists.push(l), 0) == spec_levels_encoded(lists, 0) + spec_le32(
            l.len() as u32,
        ) + spec_ids_encoded(l, 0),
{
    lemma_levels_encoded_snoc_from(lists, l, 0);
}

proof fn lemma_levels_encoded_snoc_from(lists: Seq<Seq<u64>>, l: Seq<u64>, j: int)
    requires
        0 <= j <= lists.len(),
    ensures
        spec_levels_encoded(lists.push(l), j) == spec_levels_encoded(lists, j) + spec_le32(
            l.len() as u32,
        ) + spec_ids_encoded(l, 0),
    decreases lists.len() - j,
{
    let pushed = lists.push(l);
    if j == lists.len() {
        assert(pushed[j] == l);
        assert(spec_levels_encoded(pushed, j + 1) =~= Seq::<u8>::empty());
        assert(spec_levels_encoded(lists, j) =~= Seq::<u8>::empty());
        assert(spec_levels_encoded(pushed, j) =~= spec_levels_encoded(lists, j) + spec_le32(
            l.len() as u32,
        ) + spec_ids_encoded(l, 0));
    } else {
        assert(pushed[j] == lists[j]);
        lemma_levels_encoded_snoc_from(lists, l, j + 1);
        assert(spec_levels_encoded(pushed, j) =~= spec_levels_encoded(lists, j) + spec_le32(
            l.len() as u32,
        ) + spec_ids_encoded(l, 0));
    }
}

/// Encodes the per-level segment id lists into the checksummed manifest
/// image: header, level count, id lists, and the xxh3 checksum of all of
/// it.
pub fn encode_manifest(lists: &Vec<Vec<u64>>) -> (r: Result<Vec<u8>, LsmError>)
    ensures
        match r {
            Ok(bytes) => bytes@ == spec_manifest_encoded(views_of_id_lists(lists@)),
            Err(e) => {
                &&& e == LsmError::Corrupt
                &&& (lists@.len() > u32::MAX || exists|i: int|
                    0 <= i < lists@.len() && (#[trigger] lists@[i])@.len() > u32::MAX)
            },
        },
{
    if lists.len() > (u32::MAX as usize) {
        return Err(LsmError::Corrupt);
    }
    let mut body: Vec<u8> = Vec::new();
    crate::version::Version::V0.write_file_header(&mut body);
    put_u32_le(&mut body, lists.len() as u32);
    let ghost header9 = body@;
    let mut k: usize = 0;
    proof {
        assert(body@ =~= header9 + spec_levels_encoded(
            views_of_id_lists(lists@).take(0),
            0,
        ));
        assert(spec_levels_encoded(views_of_id_lists(lists@).take(0), 0) =~= Seq::<u8>::empty());
    }
    while k < lists.len()
        invariant
            0 <= k <= lists@.len(),
            lists@.len() <= u32::MAX,
            header9 == crate::version::spec_file_header(crate::version::Version::V0) + spec_le32(
                lists@.len() as u32,
            ),
            body@ == header9 + spec_levels_encoded(views_of_id_lists(lists@).take(k as int), 0),
        decreases lists@.len() - k,
    {
        let level = &lists[k];
        if level.len() > (u32::MAX as usize) {
            return Err(LsmError::Corrupt);
        }
        put_u32_le(&mut body, level.len() as u32);
        let ghost pre_ids = body@;
        let mut j: usize = 0;
        proof {
            assert(body@ =~= pre_ids + spec_ids_encoded(level@.take(0), 0));
            assert(spec_ids_encoded(level@.take(0), 0) =~= Seq::<u8>::empty());
        }
        while j < level.len()
            invariant
                0 <= j <= level@.len(),
                body@ == pre_ids + spec_ids_encoded(level@.take(j as int), 0),
            decreases level@.len() - j,
        {
            put_u64_le(&mut body, level[j]);
            proof {
                lemma_ids_encoded_snoc(level@.take(j as int), level@[j as int]);
                assert(level@.take(j + 1) =~= level@.take(j as int).push(level@[j as int]));
                assert(body@ =~= pre_ids + spec_ids_encoded(level@.take(j + 1), 0));
            }
            j = j + 1;
        }
        proof {
            assert(level@.take(level@.len() as int) =~= level@);
            lemma_levels_encoded_snoc(
                views_of_id_lists(lists@).take(k as int),
                views_of_id_lists(lists@)[k as int],
            );
            assert(views_of_id_lists(lists@).take(k + 1) =~= views_of_id_lists(lists@).take(
                k as int,
            ).push(views_of_id_lists(lists@)[k as int]));
            assert(views_of_id_lists(lists@)[k as int] == level@);
            assert(body@ =~= header9 + spec_levels_encoded(
                views_of_id_lists(lists@).take(k + 1),
                0,
            ));
        }
        k = k + 1;
    }
    proof {
        assert(views_of_id_lists(lists@).take(lists@.len() as int) =~= views_of_id_lists(lists@));
    }
    let checksum = xxh3_64(body.as_slice());
    let ghost body_view = body@;
    put_u64_le(&mut body, checksum);
    proof {
        assert(body@ =~= spec_manifest_encoded(views_of_id_lists(lists@)));
    }
    Ok(body)
}

/// Decodes `c` eight-byte ids at `pos`, staying below `limit`.
pub open spec fn spec_parse_ids(bytes: Seq<u8>, pos: int, c: int, limit: int) -> Option<
    (Seq<u64>, int),
>
    decreases c,
{
    if c <= 0 {
        Some((Seq::empty(), pos))
    } else if limit - pos < 8 {
        None
    } else {
        let v = crate::coding::spec_u64_of_le(
            bytes[pos],
            bytes[pos + 1],
            bytes[pos + 2],
            bytes[pos + 3],
            bytes[pos + 4],
            bytes[pos + 5],
            bytes[pos + 6],
            bytes[pos + 7],
        );
        match spec_parse_ids(bytes, pos + 8, c - 1, limit) {
            None => None,
            Some((ids, end)) => Some((seq![v] + ids, end)),
        }
    }
}

/// Decodes `k` levels at `pos`: a four-byte count, then that many ids.
pub open spec fn spec_parse_levels(bytes: Seq<u8>, pos: int, k: int, limit: int) -> Option<
    (Seq<Seq<u64>>, int),
>
    decreases k,
{
    if k <= 0 {
        Some((Seq::empty(), pos))
    } else if limit - pos < 4 {
        None
    } else {
        let c = crate::coding::spec_u32_of_le(
            bytes[pos],
            bytes[pos + 1],
            bytes[pos + 2],
            bytes[pos + 3],
        );
        match spec_parse_ids(bytes, pos + 4, c as int, limit) {
            None => None,
            Some((ids, p2)) => match spec_parse_levels(bytes, p2, k - 1, limit) {
                None => None,
                Some((ls, end)) => Some((seq![ids] + ls, end)),
            },
        }
    }
}

/// What parsing a manifest image yields: the per-level id lists, or
/// nothing when the header, the structure, or the trailing checksum is
/// wrong.
pub open spec fn spec_manifest_parse(bytes: Seq<u8>) -> Option<Seq<Seq<u64>>> {
    if bytes.len() < 17 {
        None
    } else if bytes.subrange(0, 5) != crate::version::spec_file_header(
        crate::version::Version::V0,
    ) {
        None
    } else {
        let n = crate::coding::spec_u32_of_le(bytes[5], bytes[6], bytes[7], bytes[8]);
        let limit = bytes.len() - 8;
        match spec_parse_levels(bytes, 9, n as int, limit as int) {
            None => None,
            Some((ls, end)) => if end != limit {
                None
            } else if crate::coding::spec_u64_of_le(
                bytes[limit as int],
                bytes[limit + 1],
                bytes[limit + 2],
                bytes[limit + 3],
                bytes[limit + 4],
                bytes[limit + 5],
                bytes[limit + 6],
                bytes[limit + 7],
            ) != xxh3_64_of(bytes.subrange(0, limit as int)) {
                None
            } else {
                Some(ls)
            },
        }
    }
}

/// Parsing an encoded run of ids yields it back.
proof fn lemma_parse_ids_of_encoded(bytes: Seq<u8>, pos: int, ids: Seq<u64>, limit: int)
    requires
        0 <= pos,
        pos + 8 * ids.len() <= limit <= bytes.len(),
        bytes.subrange(pos, pos + 8 * ids.len()) == spec_ids_encoded(ids, 0),
    ensures
        spec_parse_ids(bytes, pos, ids.len() as int, limit) == Some::<(Seq<u64>, int)>(
            (ids, pos + 8 * ids.len()),
        ),
    decreases ids.len(),
{
    lemma_ids_encoded_len(ids, 0);
    if ids.len() == 0 {
        assert(ids =~= Seq::<u64>::empty());
    } else {
        let enc = spec_ids_encoded(ids, 0);
        assert(enc =~= spec_le64(ids[0]) + spec_ids_encoded(ids.skip(1), 0)) by {
            lemma_ids_encoded_drop_first(ids, 1);
            assert(spec_ids_encoded(ids, 0) =~= spec_le64(ids[0]) + spec_ids_encoded(ids, 1));
        }
        crate::bytes_util::lemma_sub_piece(bytes, pos, enc, 0, 8);
        crate::bytes_util::lemma_sub_piece(bytes, pos, enc, 8, enc.len() as int);
        lemma_ids_encoded_len(ids.skip(1), 0);
        assert(enc.subrange(0, 8) =~= spec_le64(ids[0]));
        assert(enc.subrange(8, enc.len() as int) =~= spec_ids_encoded(ids.skip(1), 0));
        crate::coding::lemma_le64_round_trip(ids[0]);
        assert forall|j: int| 0 <= j < 8 implies bytes[pos + j] == #[trigger] spec_le64(
            ids[0],
        )[j] by {
            assert(bytes.subrange(pos, pos + 8)[j] == bytes[pos + j]);
        }
        lemma_parse_ids_of_encoded(bytes, pos + 8, ids.skip(1), limit);
        assert(seq![ids[0]] + ids.skip(1) =~= ids);
    }
}

/// The encoding of `c` ids is eight bytes each.
proof fn lemma_ids_encoded_len(ids: Seq<u64>, j: int)
    requires
        0 <= j <= ids.len(),
    ensures
        spec_ids_encoded(ids, j).len() == 8 * (ids.len() - j),
    decreases ids.len() - j,
{
    if j < ids.len() {
        lemma_ids_encoded_len(ids, j + 1);
    }
}

/// Encoding from index `j` equals encoding the tail, shifted by one.
proof fn lemma_ids_encoded_drop_first(ids: Seq<u64>, j: int)
    requires
        1 <= j <= ids.len(),
    ensures
        spec_ids_encoded(ids, j) == spec_ids_encoded(ids.skip(1), j - 1),
    decreases ids.len() - j,
{
    if j < ids.len() {
        lemma_ids_encoded_drop_first(ids, j + 1);
        assert(ids.skip(1)[j - 1] == ids[j]);
        assert(spec_ids_encoded(ids, j) =~= spec_le64(ids[j]) + spec_ids_encoded(ids, j + 1));
        assert(spec_ids_encoded(ids.skip(1), j - 1) =~= spec_le64(ids.skip(1)[j - 1])
            + spec_ids_encoded(ids.skip(1), j));
    } else {
        assert(spec_ids_encoded(ids, j) =~= Seq::<u8>::empty());
        assert(spec_ids_encoded(ids.skip(1), j - 1) =~= Seq::<u8>::empty());
    }
}

/// The byte length of the encoded levels from `j` on.
pub open spec fn spec_levels_encoded_len(lists: Seq<Seq<u64>>, j: int) -> int
    decreases lists.len() - j,
{
    if j < 0 || j >= lists.len() {
        0
    } else {
        4 + 8 * lists[j].len() + spec_levels_encoded_len(lists, j + 1)
    }
}

proof fn lemma_levels_encoded_len(lists: Seq<Seq<u64>>, j: int)
    requires
        0 <= j <= lists.len(),
    ensures
        spec_levels_encoded(lists, j).len() == spec_levels_encoded_len(lists, j),
        spec_levels_encoded_len(lists, j) >= 0,
    decreases lists.len() - j,
{
    if j < lists.len() {
        lemma_levels_encoded_len(lists, j + 1);
        lemma_ids_encoded_len(lists[j], 0);
    }
}

/// Parsing an encoded run of levels yields it back.
proof fn lemma_parse_levels_of_encoded(bytes: Seq<u8>, pos: int, lists: Seq<Seq<u64>>, limit: int)
    requires
        0 <= pos,
        forall|i: int| 0 <= i < lists.len() ==> (#[trigger] lists[i]).len() <= u32::MAX,
        pos + spec_levels_encoded(lists, 0).len() <= limit <= bytes.len(),
        bytes.subrange(pos, pos + spec_levels_encoded(lists, 0).len() as int)
            == spec_levels_encoded(lists, 0),
    ensures
        spec_parse_levels(bytes, pos, lists.len() as int, limit) == Some::<(Seq<Seq<u64>>, int)>(
            (lists, pos + spec_levels_encoded(lists, 0).len() as int),
        ),
    decreases lists.len(),
{
    lemma_levels_encoded_len(lists, 0);
    if lists.len() == 0 {
        assert(lists =~= Seq::<Seq<u64>>::empty());
    } else {
        let enc = spec_levels_encoded(lists, 0);
        let head = lists[0];
        let head_enc = spec_le32(head.len() as u32) + spec_ids_encoded(head, 0);
        lemma_ids_encoded_len(head, 0);
        assert(enc =~= head_enc + spec_levels_encoded(lists.skip(1), 0)) by {
            lemma_levels_encoded_drop_first(lists, 1);
            assert(spec_levels_encoded(lists, 0) =~= spec_le32(head.len() as u32)
                + spec_ids_encoded(head, 0) + spec_levels_encoded(lists, 1));
        }
        crate::bytes_util::lemma_sub_piece(bytes, pos, enc, 0, 4);
        crate::bytes_util::lemma_sub_piece(bytes, pos, enc, 4, 4 + 8 * head.len() as int);
        crate::bytes_util::lemma_sub_piece(bytes, pos, enc, 4 + 8 * head.len() as int, enc.len() as int);
        assert(enc.subrange(0, 4) =~= spec_le32(head.len() as u32));
        assert(enc.subrange(4, 4 + 8 * head.len() as int) =~= spec_ids_encoded(head, 0));
        lemma_levels_encoded_len(lists.skip(1), 0);
        assert(enc.subrange(4 + 8 * head.len() as int, enc.len() as int) =~= spec_levels_encoded(
            lists.skip(1),
            0,
        ));
        crate::coding::lemma_le32_round_trip(head.len() as u32);
        assert forall|j: int| 0 <= j < 4 implies bytes[pos + j] == #[trigger] spec_le32(
            head.len() as u32,
        )[j] by {
            assert(bytes.subrange(pos, pos + 4)[j] == bytes[pos + j]);
        }
        lemma_parse_ids_of_encoded(bytes, pos + 4, head, limit);
        assert forall|i: int| 0 <= i < lists.skip(1).len() implies (#[trigger] lists.skip(
            1,
        )[i]).len() <= u32::MAX by {
            assert(lists.skip(1)[i] == lists[i + 1]);
        }
        lemma_parse_levels_of_encoded(bytes, pos + 4 + 8 * head.len() as int, lists.skip(1), limit);
        assert(seq![head] + lists.skip(1) =~= lists);
    }
}

proof fn lemma_levels_encoded_drop_first(lists: Seq<Seq<u64>>, j: int)
    requires
        1 <= j <= lists.len(),
    ensures
        spec_levels_encoded(lists, j) == spec_levels_encoded(lists.skip(1), j - 1),
    decreases lists.len() - j,
{
    if j < lists.len() {
        lemma_levels_encoded_drop_first(lists, j + 1);
        assert(lists.skip(1)[j - 1] == lists[j]);
        assert(spec_levels_encoded(lists, j) =~= spec_le32(lists[j].len() as u32)
            + spec_ids_encoded(lists[j], 0) + spec_levels_encoded(lists, j + 1));
        assert(spec_levels_encoded(lists.skip(1), j - 1) =~= spec_le32(
            lists.skip(1)[j - 1].len() as u32,
        ) + spec_ids_encoded(lists.skip(1)[j - 1], 0) + spec_levels_encoded(lists.skip(1), j));
    } else {
        assert(spec_levels_encoded(lists, j) =~= Seq::<u8>::empty());
        assert(spec_levels_encoded(lists.skip(1), j - 1) =~= Seq::<u8>::empty());
    }
}

/// Parsing an encoded manifest image yields the id lists back: together
/// with `decode_manifest`'s contract, only images whose checksum still
/// matches their content decode, and they decode to what was written.
pub proof fn lemma_manifest_parse_of_encoded(lists: Seq<Seq<u64>>)
    requires
        lists.len() <= u32::MAX,
        forall|i: int| 0 <= i < lists.len() ==> (#[trigger] lists[i]).len() <= u32::MAX,
    ensures
        spec_manifest_parse(spec_manifest_encoded(lists)) == Some(lists),
{
    let body = crate::version::spec_file_header(crate::version::Version::V0) + spec_le32(
        lists.len() as u32,
    ) + spec_levels_encoded(lists, 0);
    let bytes = spec_manifest_encoded(lists);
    lemma_levels_encoded_len(lists, 0);
    assert(bytes =~= body + spec_le64(xxh3_64_of(body)));
    let limit = bytes.len() - 8;
    assert(limit == body.len());
    assert(bytes.subrange(0, 5) =~= crate::version::spec_file_header(
        crate::version::Version::V0,
    ));
    assert(bytes.subrange(5, 9) =~= spec_le32(lists.len() as u32));
    crate::coding::lemma_le32_round_trip(lists.len() as u32);
    assert forall|j: int| 0 <= j < 4 implies bytes[5 + j] == #[trigger] spec_le32(
        lists.len() as u32,
    )[j] by {
        assert(bytes.subrange(5, 9)[j] == bytes[5 + j]);
    }
    assert(bytes.subrange(9, 9 + spec_levels_encoded(lists, 0).len() as int)
        =~= spec_levels_encoded(lists, 0));
    lemma_parse_levels_of_encoded(bytes, 9, lists, limit as int);
    assert(bytes.subrange(limit as int, bytes.len() as int) =~= spec_le64(xxh3_64_of(body)));
    crate::coding::lemma_le64_round_trip(xxh3_64_of(body));
    assert forall|j: int| 0 <= j < 8 implies bytes[limit + j] == #[trigger] spec_le64(
        xxh3_64_of(body),
    )[j] by {
        assert(bytes.subrange(limit as int, bytes.len() as int)[j] == bytes[limit + j]);
    }
    assert(bytes.subrange(0, limit as int) =~= body);
}

/// Decodes a manifest image.  Succeeds exactly when the bytes parse as a
/// manifest whose trailing checksum matches, and then the bytes are the
/// canonical encoding of the returned id lists: any truncated or tampered
/// image is rejected, so a torn rewrite is detected on load.
pub fn decode_manifest(bytes: &[u8]) -> (r: Result<Vec<Vec<u64>>, LsmError>)
    ensures
        match r {
            Ok(lists) => {
                &&& spec_manifest_parse(bytes@) == Some(views_of_id_lists(lists@))
                &&& bytes@ == spec_manifest_encoded(views_of_id_lists(lists@))
            },
            Err(_) => spec_manifest_parse(bytes@) is None,
        },
{
    let _n: usize = bytes.len();
    if bytes.len() < 17 {
        return Err(LsmError::Corrupt);
    }
    match crate::version::Version::parse_file_header(bytes) {
        Some(_) => {},
        None => {
            proof {
                if bytes@.subrange(0, 5) == crate::version::spec_file_header(
                    crate::version::Version::V0,
                ) {
                }
            }
            return Err(LsmError::InvalidMagic);
        },
    };
    let n_levels = get_u32_le(bytes, 5);
    let limit = bytes.len() - 8;
    proof {
        assert(bytes@.subrange(0, 5) =~= bytes@.subrange(0, 5));
    }
    let ghost top_shape: Option<Seq<Seq<u64>>> = spec_manifest_parse(bytes@);
    proof {
        assert(top_shape == (match spec_parse_levels(bytes@, 9, n_levels as int, limit as int) {
            None => None::<Seq<Seq<u64>>>,
            Some((ls, end)) => if end != limit {
                None
            } else if crate::coding::spec_u64_of_le(
                bytes@[limit as int],
                bytes@[limit + 1],
                bytes@[limit + 2],
                bytes@[limit + 3],
                bytes@[limit + 4],
                bytes@[limit + 5],
                bytes@[limit + 6],
                bytes@[limit + 7],
            ) != xxh3_64_of(bytes@.subrange(0, limit as int)) {
                None
            } else {
                Some(ls)
            },
        }));
    }
    let mut lists: Vec<Vec<u64>> = Vec::new();
    let mut pos: usize = 9;
    let mut k: u32 = 0;
    proof {
        assert(bytes@.subrange(9, 9) =~= Seq::<u8>::empty());
        assert(spec_levels_encoded(views_of_id_lists(lists@), 0) =~= Seq::<u8>::empty());
        assert(views_of_id_lists(lists@) + Seq::<Seq<u64>>::empty() =~= views_of_id_lists(
            lists@,
        ));
    }
    while k < n_levels
        invariant
            0 <= k <= n_levels,
            9 <= pos <= limit,
            limit == bytes@.len() - 8,
            bytes@.len() >= 17,
            lists@.len() == k,
            bytes@.subrange(9, pos as int) == spec_levels_encoded(views_of_id_lists(lists@), 0),
            top_shape == spec_manifest_parse(bytes@),
            top_shape == (match spec_parse_levels(bytes@, 9, n_levels as int, limit as int) {
                None => None::<Seq<Seq<u64>>>,
                Some((ls, end)) => if end != limit {
                    None
                } else if crate::coding::spec_u64_of_le(
                    bytes@[limit as int],
                    bytes@[limit + 1],
                    bytes@[limit + 2],
                    bytes@[limit + 3],
                    bytes@[limit + 4],
                    bytes@[limit + 5],
                    bytes@[limit + 6],
                    bytes@[limit + 7],
                ) != xxh3_64_of(bytes@.subrange(0, limit as int)) {
                    None
                } else {
                    Some(ls)
                },
            }),
            match spec_parse_levels(bytes@, pos as int, n_levels - k, limit as int) {
                Some((ls2, end)) => spec_parse_levels(bytes@, 9, n_levels as int, limit as int)
                    == Some::<(Seq<Seq<u64>>, int)>((views_of_id_lists(lists@) + ls2, end)),
                None => spec_parse_levels(bytes@, 9, n_levels as int, limit as int) is None,
            },
        decreases n_levels - k,
    {
        if limit - pos < 4 {
            return Err(LsmError::Corrupt);
        }
        let count = get_u32_le(bytes, pos);
        let ghost p0 = pos + 4;
        let mut level: Vec<u64> = Vec::new();
        let mut j: u32 = 0;
        let mut p: usize = pos + 4;
        proof {
            assert(bytes@.subrange(p0, p0) =~= Seq::<u8>::empty());
            assert(spec_ids_encoded(level@, 0) =~= Seq::<u8>::empty());
            assert(level@ + Seq::<u64>::empty() =~= level@);
            assert(spec_parse_ids(bytes@, p0, count as int, limit as int) is None
                ==> spec_manifest_parse(bytes@) is None) by {
                if spec_parse_ids(bytes@, p0, count as int, limit as int) is None {
                    assert(spec_parse_levels(bytes@, pos as int, n_levels - k, limit as int)
                        is None);
                }
            }
        }
        while j < count
            invariant
                0 <= j <= count,
                p0 == pos + 4,
                9 <= pos,
                pos + 4 <= p <= limit,
                limit == bytes@.len() - 8,
                level@.len() == j,
                bytes@.subrange(p0, p as int) == spec_ids_encoded(level@, 0),
                spec_parse_ids(bytes@, p0, count as int, limit as int) is None
                    ==> spec_manifest_parse(bytes@) is None,
                match spec_parse_ids(bytes@, p as int, count - j, limit as int) {
                    Some((ids2, end)) => spec_parse_ids(bytes@, p0, count as int, limit as int)
                        == Some::<(Seq<u64>, int)>((level@ + ids2, end)),
                    None => spec_parse_ids(bytes@, p0, count as int, limit as int) is None,
                },
            decreases count - j,
        {
            if limit - p < 8 {
                return Err(LsmError::Corrupt);
            }
            let id = get_u64_le(bytes, p);
            let ghost lv0 = level@;
            level.push(id);
            proof {
                lemma_ids_encoded_snoc(lv0, id);
                assert(level@ == lv0.push(id));
                assert(bytes@.subrange(p0, p + 8) =~= bytes@.subrange(p0, p as int)
                    + bytes@.subrange(p as int, p + 8));
                assert(bytes@.subrange(p0, p as int) == spec_ids_encoded(lv0, 0));
                assert(bytes@.subrange(p as int, p + 8) == spec_le64(id));
                assert(spec_ids_encoded(level@, 0) == spec_ids_encoded(lv0, 0) + spec_le64(id));
                assert(bytes@.subrange(p0, p + 8) =~= spec_ids_encoded(level@, 0));
                match spec_parse_ids(bytes@, p + 8, count - j - 1, limit as int) {
                    Some((ids2, end)) => {
                        assert(level@ + ids2 =~= lv0 + (seq![id] + ids2));
                    },
                    None => {},
                }
            }
            p = p + 8;
            j = j + 1;
        }
        let ghost pre_lists = lists@;
        lists.push(level);
        proof {
            lemma_levels_encoded_snoc(views_of_id_lists(pre_lists), lists@.last()@);
            assert(views_of_id_lists(lists@) =~= views_of_id_lists(pre_lists).push(
                lists@.last()@,
            ));
            assert(bytes@.subrange(9, p as int) =~= bytes@.subrange(9, pos as int)
                + bytes@.subrange(pos as int, pos + 4) + bytes@.subrange(p0, p as int));
            match spec_parse_levels(bytes@, p as int, n_levels - k - 1, limit as int) {
                Some((ls2, end)) => {
                    assert(views_of_id_lists(lists@) + ls2 =~= views_of_id_lists(pre_lists) + (
                    seq![lists@.last()@] + ls2));
                },
                None => {},
            }
        }
        pos = p;
        k = k + 1;
    }
    if pos != limit {
        return Err(LsmError::Corrupt);
    }
    let stored = get_u64_le(bytes, pos);
    let body = vstd::slice::slice_subrange(bytes, 0, pos);
    let actual = xxh3_64(body);
    if actual != stored {
        proof {
            assert(body@ =~= bytes@.subrange(0, limit as int));
        }
        return Err(LsmError::Checksum);
    }
    proof {
        assert(bytes@ =~= bytes@.subrange(0, 5) + bytes@.subrange(5, 9) + bytes@.subrange(
            9,
            pos as int,
        ) + bytes@.subrange(pos as int, pos + 8));
        assert(body@ =~= bytes@.subrange(0, 5) + bytes@.subrange(5, 9) + bytes@.subrange(
            9,
            pos as int,
        ));
        assert(body@ =~= bytes@.subrange(0, limit as int));
        assert(bytes@ =~= spec_manifest_encoded(views_of_id_lists(lists@)));
    }
    Ok(lists)
}

} // verus!
