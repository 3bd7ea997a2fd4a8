//! Segments: immutable sorted runs on disk.  The writer streams ordered
//! entries into data blocks and emits index, filter, metadata and trailer
//! in one forward pass; the reader recovers a segment from its byte image
//! and services point reads and scans.

use vstd::prelude::*;

use crate::block::{spec_block_at, Block};
use crate::bytes_util::{bytes_le, bytes_lt, copy_range, lex_le, lex_lt};
use crate::coding::{put_u128_le, put_u64_le, spec_le128, spec_le64};
use crate::compression::{spec_compress, CompressionType};
use crate::data_block::{spec_db_encode, spec_db_parse, spec_entries_wf_from, spec_point_read_from, DataBlock};
use crate::error::LsmError;
use crate::hashes::{composite_hash, spec_hash_h1, spec_hash_h2, CompositeHash};
use crate::index_block::{
    views_of_handles, BlockHandle, IndexBlock, KeyedBlockHandle, KeyedBlockHandleSpec,
};
use crate::key_range::KeyRange;
use crate::meta::{
    k_compression, k_created_at, k_data_block_count, k_id, k_index_block_count, k_item_count,
    k_key_max, k_key_min, k_seqno_max, k_seqno_min, key_checksum_type, key_compression,
    key_created_at, key_data_block_count, key_hash_type, key_id, key_index_block_count,
    key_item_count, key_key_max, key_key_min, key_seqno_max, key_seqno_min, key_size, name_xxh3,
    spec_meta_compression, spec_meta_field, spec_meta_wf, ParsedMeta, Timestamp,
};
use crate::standard_bloom::{spec_std_contains, Builder, StandardBloomFilter};
use crate::trailer::{spec_trailer_parse, SegmentTrailer};
use crate::value::{
    spec_entries_sorted, spec_entry_lt, spec_entry_wf, views_of_entries, EntrySpec, InternalValue,
    ValueType,
};

verus! {

/// Whether to update the block cache on a read miss.
#[derive(Clone, Copy, Debug, PartialEq, Eq)]
pub enum CachePolicy {
    /// Read cached blocks, but do not change the cache.
    Read,
    /// Read cached blocks, and update the cache.
    Write,
}

/// A segment id qualified by the tree it belongs to.
pub type GlobalSegmentId = (u64, u64);

/// The entries of the data blocks listed by `handles`, from index `i` on,
/// concatenated; nothing if any block fails to read or parse.
pub open spec fn spec_blocks_entries(
    bytes: Seq<u8>,
    handles: Seq<KeyedBlockHandleSpec>,
    i: int,
    c: CompressionType,
) -> Option<Seq<EntrySpec>>
    decreases handles.len() - i,
{
    if i < 0 || i >= handles.len() {
        Some(Seq::empty())
    } else {
        match spec_block_at(bytes, handles[i].offset as int, handles[i].size as int, c) {
            None => None,
            Some(p) => match spec_db_parse(p) {
                None => None,
                Some(es) => match spec_blocks_entries(bytes, handles, i + 1, c) {
                    None => None,
                    Some(rest) => Some(es + rest),
                },
            },
        }
    }
}

/// What a reader makes of a whole segment image: parse the trailer, read
/// the metadata block, learn the compression, read the top-level index,
/// and decode every data block it lists, in order.
#[verifier::opaque]
pub open spec fn spec_segment_entries(bytes: Seq<u8>) -> Option<Seq<EntrySpec>> {
    match spec_trailer_parse(bytes) {
        None => None,
        Some(tr) => match spec_block_at(
            bytes,
            tr.metadata.offset as int,
            tr.metadata.size as int,
            CompressionType::NoCompression,
        ) {
            None => None,
            Some(meta_payload) => match spec_db_parse(meta_payload) {
                None => None,
                Some(meta_views) => match spec_meta_compression(meta_views) {
                    None => None,
                    Some(comp) => match spec_block_at(
                        bytes,
                        tr.tli.offset as int,
                        tr.tli.size as int,
                        comp,
                    ) {
                        None => None,
                        Some(tli_payload) => match crate::index_block::spec_ib_parse(tli_payload) {
                            None => None,
                            Some(handles) => spec_blocks_entries(bytes, handles, 0, comp),
                        },
                    },
                },
            },
        },
    }
}

/// Reading a block region only looks at that region: appending bytes to
/// the file does not change what any contained block reads as.
pub proof fn lemma_block_at_stable(b1: Seq<u8>, b2: Seq<u8>, off: int, size: int, c: CompressionType)
    requires
        0 <= off,
        off + size <= b1.len(),
        b1.len() <= b2.len(),
        b2.subrange(0, b1.len() as int) == b1,
    ensures
        spec_block_at(b2, off, size, c) == spec_block_at(b1, off, size, c),
{
    reveal(spec_block_at);
    if size >= 24 {
        assert forall|j: int| 0 <= j < size implies #[trigger] b2[off + j] == b1[off + j] by {
            assert(b2.subrange(0, b1.len() as int)[off + j] == b2[off + j]);
        }
        assert(crate::block::spec_header_decoded(b2, off) == crate::block::spec_header_decoded(
            b1,
            off,
        ));
        assert(b2.subrange(off + 24, off + size) =~= b1.subrange(off + 24, off + size));
    }
}

/// Appending bytes to the file does not change what the listed data
/// blocks read as.
pub proof fn lemma_blocks_entries_stable(
    b1: Seq<u8>,
    b2: Seq<u8>,
    handles: Seq<KeyedBlockHandleSpec>,
    i: int,
    c: CompressionType,
)
    requires
        b1.len() <= b2.len(),
        b2.subrange(0, b1.len() as int) == b1,
        forall|j: int|
            0 <= j < handles.len() ==> (#[trigger] handles[j].offset) + handles[j].size
                <= b1.len(),
    ensures
        spec_blocks_entries(b2, handles, i, c) == spec_blocks_entries(b1, handles, i, c),
    decreases handles.len() - i,
{
    if 0 <= i < handles.len() {
        lemma_block_at_stable(b1, b2, handles[i].offset as int, handles[i].size as int, c);
        lemma_blocks_entries_stable(b1, b2, handles, i + 1, c);
    }
}

/// Appending one handle to the list appends that block's entries to the
/// run the list reads as.
pub proof fn lemma_blocks_entries_snoc(
    bytes: Seq<u8>,
    handles: Seq<KeyedBlockHandleSpec>,
    h: KeyedBlockHandleSpec,
    i: int,
    c: CompressionType,
)
    requires
        0 <= i <= handles.len(),
    ensures
        spec_blocks_entries(bytes, handles.push(h), i, c) == (
        match spec_blocks_entries(bytes, handles, i, c) {
            None => None::<Seq<EntrySpec>>,
            Some(es) => match spec_block_at(bytes, h.offset as int, h.size as int, c) {
                None => None,
                Some(p) => match spec_db_parse(p) {
                    None => None,
                    Some(es2) => Some(es + es2),
                },
            },
        }),
    decreases handles.len() - i,
{
    let pushed = handles.push(h);
    if i == handles.len() {
        assert(pushed[i] == h);
        assert(spec_blocks_entries(bytes, pushed, i + 1, c) == Some(Seq::<EntrySpec>::empty()));
        match spec_block_at(bytes, h.offset as int, h.size as int, c) {
            None => {},
            Some(p) => {
                match spec_db_parse(p) {
                    None => {},
                    Some(es2) => {
                        assert(es2 + Seq::<EntrySpec>::empty() =~= es2);
                        assert(Seq::<EntrySpec>::empty() + es2 =~= es2);
                    },
                }
            },
        }
    } else {
        assert(pushed[i] == handles[i]);
        lemma_blocks_entries_snoc(bytes, handles, h, i + 1, c);
        match spec_blocks_entries(bytes, handles, i, c) {
            None => {},
            Some(es) => {
                match spec_block_at(bytes, h.offset as int, h.size as int, c) {
                    None => {},
                    Some(p) => {
                        match spec_db_parse(p) {
                            None => {},
                            Some(es2) => {
                                let head = spec_db_parse(
                                    spec_block_at(
                                        bytes,
                                        handles[i].offset as int,
                                        handles[i].size as int,
                                        c,
                                    ).unwrap(),
                                );
                                match head {
                                    Some(hd) => {
                                        match spec_blocks_entries(bytes, handles, i + 1, c) {
                                            Some(rest) => {
                                                assert(hd + (rest + es2) =~= (hd + rest) + es2);
                                            },
                                            None => {},
                                        }
                                    },
                                    None => {},
                                }
                            },
                        }
                    },
                }
            },
        }
    }
}


/// Chains the section facts of a finished segment image into the statement
/// that the whole image reads back as the flushed run.
proof fn lemma_finish_glue(
    out: Seq<u8>,
    file0: Seq<u8>,
    file1: Seq<u8>,
    file3: Seq<u8>,
    hviews: Seq<KeyedBlockHandleSpec>,
    flushed: Seq<EntrySpec>,
    comp: CompressionType,
    tr: SegmentTrailer,
    tli_payload: Seq<u8>,
    meta_payload: Seq<u8>,
    mviews: Seq<EntrySpec>,
)
    requires
        spec_trailer_parse(out) == Some(tr),
        file0.len() <= file1.len() <= file3.len() <= out.len(),
        out.subrange(0, file0.len() as int) == file0,
        out.subrange(0, file1.len() as int) == file1,
        out.subrange(0, file3.len() as int) == file3,
        spec_block_at(
            file3,
            tr.metadata.offset as int,
            tr.metadata.size as int,
            CompressionType::NoCompression,
        ) == Some(meta_payload),
        tr.metadata.offset + tr.metadata.size <= file3.len(),
        spec_db_parse(meta_payload) == Some(mviews),
        spec_meta_compression(mviews) == Some(comp),
        spec_block_at(file1, tr.tli.offset as int, tr.tli.size as int, comp) == Some(tli_payload),
        tr.tli.offset + tr.tli.size <= file1.len(),
        crate::index_block::spec_ib_parse(tli_payload) == Some(hviews),
        spec_blocks_entries(file0, hviews, 0, comp) == Some(flushed),
        forall|j: int|
            0 <= j < hviews.len() ==> (#[trigger] hviews[j].offset) + hviews[j].size
                <= file0.len(),
    ensures
        spec_segment_entries(out) == Some(flushed),
{
    reveal(spec_segment_entries);
    lemma_block_at_stable(
        file3,
        out,
        tr.metadata.offset as int,
        tr.metadata.size as int,
        CompressionType::NoCompression,
    );
    lemma_block_at_stable(file1, out, tr.tli.offset as int, tr.tli.size as int, comp);
    lemma_blocks_entries_stable(file0, out, hviews, 0, comp);
}

/// A metadata block whose second entry records a compression kind reports
/// that kind.
proof fn lemma_meta_lookup(mviews: Seq<EntrySpec>, comp: CompressionType)
    requires
        mviews.len() >= 2,
        comp.wf(),
        mviews[0].key == crate::meta::k_checksum_type(),
        mviews[1].key == k_compression(),
        mviews[1].value == comp.spec_encoded(),
    ensures
        spec_meta_compression(mviews) == Some(comp),
{
    assert(mviews[0].key.len() == 14 && k_compression().len() == 17);
    assert(spec_point_read_from(mviews, k_compression(), None, 0) == spec_point_read_from(
        mviews,
        k_compression(),
        None,
        1,
    ));
    assert(spec_point_read_from(mviews, k_compression(), None, 1) == Some(mviews[1]));
    crate::meta::lemma_compression_round_trip(comp);
}



/// The one step from "each section was written correctly" to "the finished
/// image reads back as the flushed run".
#[verifier::rlimit(100)]
#[verifier::spinoff_prover]
proof fn lemma_finish_final(
    out: Seq<u8>,
    file0: Seq<u8>,
    file1: Seq<u8>,
    file2: Seq<u8>,
    file3: Seq<u8>,
    hviews: Seq<KeyedBlockHandleSpec>,
    written0: Seq<EntrySpec>,
    comp: CompressionType,
    tr: SegmentTrailer,
    tli_payload: Seq<u8>,
    meta_payload: Seq<u8>,
    mviews: Seq<EntrySpec>,
)
    requires
        out == file3 + crate::trailer::spec_trailer_encoded(tr),
        tr.wf(),
        file0.len() <= file1.len() <= file2.len() <= file3.len(),
        file1.subrange(0, file0.len() as int) == file0,
        file2.subrange(0, file1.len() as int) == file1,
        file3.subrange(0, file2.len() as int) == file2,
        spec_block_at(
            file3,
            tr.metadata.offset as int,
            tr.metadata.size as int,
            CompressionType::NoCompression,
        ) == Some(meta_payload),
        tr.metadata.offset + tr.metadata.size <= file3.len(),
        spec_db_parse(meta_payload) == Some(mviews),
        mviews.len() >= 2,
        comp.wf(),
        mviews[0].key == crate::meta::k_checksum_type(),
        mviews[1].key == k_compression(),
        mviews[1].value == comp.spec_encoded(),
        spec_block_at(file1, tr.tli.offset as int, tr.tli.size as int, comp) == Some(tli_payload),
        tr.tli.offset + tr.tli.size <= file1.len(),
        crate::index_block::spec_ib_parse(tli_payload) == Some(hviews),
        spec_blocks_entries(file0, hviews, 0, comp) == Some(written0),
        forall|j: int|
            0 <= j < hviews.len() ==> (#[trigger] hviews[j].offset) + hviews[j].size
                <= file0.len(),
    ensures
        spec_segment_entries(out) == Some(written0),
{
    assert(out.subrange(0, file3.len() as int) =~= file3);
    assert(out.subrange(0, file2.len() as int) =~= file2) by {
        assert forall|j: int| 0 <= j < file2.len() implies out[j] == #[trigger] file2[j] by {
            assert(file3.subrange(0, file2.len() as int)[j] == file3[j]);
        }
    }
    assert(out.subrange(0, file1.len() as int) =~= file1) by {
        assert forall|j: int| 0 <= j < file1.len() implies out[j] == #[trigger] file1[j] by {
            assert(file2.subrange(0, file1.len() as int)[j] == file2[j]);
            assert(file3.subrange(0, file2.len() as int)[j] == file3[j]);
        }
    }
    assert(out.subrange(0, file0.len() as int) =~= file0) by {
        assert forall|j: int| 0 <= j < file0.len() implies out[j] == #[trigger] file0[j] by {
            assert(file1.subrange(0, file0.len() as int)[j] == file1[j]);
            assert(file2.subrange(0, file1.len() as int)[j] == file2[j]);
            assert(file3.subrange(0, file2.len() as int)[j] == file3[j]);
        }
    }
    assert(out.subrange(out.len() - 53, out.len() as int)
        =~= crate::trailer::spec_trailer_encoded(tr));
    crate::trailer::lemma_trailer_round_trip(out, tr);
    lemma_meta_lookup(mviews, comp);
    lemma_finish_glue(
        out,
        file0,
        file1,
        file3,
        hviews,
        written0,
        comp,
        tr,
        tli_payload,
        meta_payload,
        mviews,
    );
}


/// Builds and encodes the metadata block payload for a segment.
#[verifier::rlimit(100)]
#[verifier::spinoff_prover]
fn build_meta_payload(
    compression: &CompressionType,
    created_at: u128,
    data_block_count: u64,
    segment_id: u64,
    item_count: u64,
    seqno_min: u64,
    seqno_max: u64,
    file_len: u64,
    kmax: &Vec<u8>,
    kmin: &Vec<u8>,
) -> (r: Result<(Vec<u8>, Ghost<Seq<EntrySpec>>), LsmError>)
    requires
        compression.wf(),
        1 <= kmax@.len() <= 65535,
        1 <= kmin@.len() <= 65535,
    ensures
        match r {
            Ok((payload, mviews)) => {
                &&& mviews@ == spec_meta_entry_list(
                    *compression,
                    created_at,
                    data_block_count,
                    segment_id,
                    item_count,
                    kmax@,
                    kmin@,
                    seqno_max,
                    seqno_min,
                    file_len,
                )
                &&& spec_db_parse(payload@) == Some(mviews@)
                &&& payload@ == spec_db_encode(mviews@, 16)
                &&& mviews@.len() >= 2
                &&& mviews@[0].key == crate::meta::k_checksum_type()
                &&& mviews@[1].key == k_compression()
                &&& mviews@[1].value == compression.spec_encoded()
            },
            Err(e) => {
                &&& e == LsmError::Corrupt
                &&& !spec_meta_fits(
                    spec_meta_entry_list(
                        *compression,
                        created_at,
                        data_block_count,
                        segment_id,
                        item_count,
                        kmax@,
                        kmin@,
                        seqno_max,
                        seqno_min,
                        file_len,
                    ),
                )
            },
        },
{
    let ghost spec_list = spec_meta_entry_list(
        *compression,
        created_at,
        data_block_count,
        segment_id,
        item_count,
        kmax@,
        kmin@,
        seqno_max,
        seqno_min,
        file_len,
    );
    let mut v_comp: Vec<u8> = Vec::new();
    compression.encode_into(&mut v_comp);
    let ghost v_comp_view = v_comp@;
    let mut v_created: Vec<u8> = Vec::new();
    put_u128_le(&mut v_created, created_at);
    let mut v_dbc: Vec<u8> = Vec::new();
    put_u64_le(&mut v_dbc, data_block_count);
    let mut v_id: Vec<u8> = Vec::new();
    put_u64_le(&mut v_id, segment_id);
    let mut v_ibc: Vec<u8> = Vec::new();
    put_u64_le(&mut v_ibc, 1);
    let mut v_items: Vec<u8> = Vec::new();
    put_u64_le(&mut v_items, item_count);
    let mut v_smax: Vec<u8> = Vec::new();
    put_u64_le(&mut v_smax, seqno_max);
    let mut v_smin: Vec<u8> = Vec::new();
    put_u64_le(&mut v_smin, seqno_min);
    let mut v_size: Vec<u8> = Vec::new();
    put_u64_le(&mut v_size, file_len);
    proof {
        assert(v_comp@ =~= compression.spec_encoded());
        assert(v_created@ =~= spec_le128(created_at));
        assert(v_dbc@ =~= spec_le64(data_block_count));
        assert(v_id@ =~= spec_le64(segment_id));
        assert(v_ibc@ =~= spec_le64(1));
        assert(v_items@ =~= spec_le64(item_count));
        assert(v_smax@ =~= spec_le64(seqno_max));
        assert(v_smin@ =~= spec_le64(seqno_min));
        assert(v_size@ =~= spec_le64(file_len));
    }
    let kmax_c = copy_range(kmax.as_slice(), 0, kmax.len());
    let kmin_c = copy_range(kmin.as_slice(), 0, kmin.len());
    proof {
        assert(kmax_c@ =~= kmax@);
        assert(kmin_c@ =~= kmin@);
    }
    let meta_items = build_meta_items(
        v_comp,
        v_created,
        v_dbc,
        v_id,
        v_ibc,
        v_items,
        kmax_c,
        kmin_c,
        v_smax,
        v_smin,
        v_size,
    );
    let ghost mviews = views_of_entries(meta_items@);
    proof {
        assert(mviews =~= spec_list);
        assert forall|k: int| 0 <= k < mviews.len() implies spec_entry_wf(
            #[trigger] mviews[k],
        ) by {
            assert(spec_list.len() == 13);
        }
    }
    let mut si: usize = 1;
    while si < meta_items.len()
        invariant
            1 <= si <= meta_items@.len(),
            meta_items@.len() == 13,
            mviews == views_of_entries(meta_items@),
            mviews == spec_list,
            spec_list == spec_meta_entry_list(
                *compression,
                created_at,
                data_block_count,
                segment_id,
                item_count,
                kmax@,
                kmin@,
                seqno_max,
                seqno_min,
                file_len,
            ),
            forall|x: int|
                0 <= x < si - 1 ==> spec_entry_lt(#[trigger] mviews[x], mviews[x + 1]),
        decreases meta_items@.len() - si,
    {
        proof {
            assert(mviews[si - 1] == meta_items@[si - 1]@);
            assert(mviews[si as int] == meta_items@[si as int]@);
        }
        if !crate::value::entry_lt(&meta_items[si - 1], &meta_items[si]) {
            proof {
                assert(!spec_entry_lt(spec_list[si - 1], spec_list[si as int]));
                assert(!spec_entries_sorted(spec_list));
                assert(!spec_meta_fits(spec_list));
            }
            return Err(LsmError::Corrupt);
        }
        si = si + 1;
    }
    proof {
        assert(spec_entries_sorted(spec_list));
    }
    let payload = match crate::data_block::encode_items(&meta_items, 16) {
        Ok(p) => p,
        Err(_) => {
            proof {
                assert(spec_entries_wf_from(spec_list, 0));
                assert(!spec_meta_fits(spec_list));
            }
            return Err(LsmError::Corrupt);
        },
    };
    proof {
        crate::data_block::lemma_db_round_trip(mviews, 16);
        assert(mviews[1].value == compression.spec_encoded()) by {
            assert(v_comp_view =~= compression.spec_encoded());
        }
    }
    Ok((payload, Ghost(mviews)))
}

/// Builds the filter block body from the collected key hashes.  Succeeds
/// exactly when the key count stays inside the builder's sizing bound, and
/// the body is then one probe-count byte plus the rounded-up bit array.
fn build_filter_bytes(hashes: &Vec<CompositeHash>, bpk: u8) -> (r: Result<Vec<u8>, LsmError>)
    requires
        bpk >= 1,
        hashes@.len() >= 1,
    ensures
        match r {
            Ok(b) => {
                &&& hashes@.len() <= (usize::MAX - 7) / 255
                &&& b@.len() == spec_filter_section_len(hashes@.len() as int, bpk)
            },
            Err(e) => {
                &&& e == LsmError::Corrupt
                &&& hashes@.len() > (usize::MAX - 7) / 255
            },
        },
{
    if hashes.len() > (usize::MAX - 7) / 255 {
        return Err(LsmError::Corrupt);
    }
    proof {
        assert(hashes@.len() * bpk + 7 <= usize::MAX) by (nonlinear_arith)
            requires
                hashes@.len() <= (usize::MAX - 7) / 255,
                1 <= bpk <= 255,
                ((usize::MAX - 7) / 255) * 255 <= usize::MAX - 7,
        ;
        vstd::arithmetic::div_mod::lemma_fundamental_div_mod(usize::MAX - 7, 255);
        vstd::arithmetic::div_mod::lemma_mod_bound(usize::MAX - 7, 255);
    }
    let mut b = Builder::with_bpk(hashes.len(), bpk);
    let mut hi: usize = 0;
    while hi < hashes.len()
        invariant
            b.wf(),
            b.spec_m() == ((hashes@.len() * bpk + 7) / 8) * 8,
            b.bits().len() * 8 == b.spec_m(),
        decreases hashes@.len() - hi,
    {
        b.set_with_hash(hashes[hi]);
        hi = hi + 1;
    }
    let f = b.build();
    let out = f.encode();
    proof {
        assert(out@.len() == 1 + f.bits().len());
        assert(f.bits().len() * 8 == ((hashes@.len() * bpk + 7) / 8) * 8);
        assert(f.bits().len() == (hashes@.len() * bpk + 7) / 8);
    }
    Ok(out)
}

/// Builds the thirteen reserved metadata entries, in their sorted order.
#[verifier::rlimit(60)]
fn build_meta_items(
    v_comp: Vec<u8>,
    v_created: Vec<u8>,
    v_dbc: Vec<u8>,
    v_id: Vec<u8>,
    v_ibc: Vec<u8>,
    v_items: Vec<u8>,
    kmax: Vec<u8>,
    kmin: Vec<u8>,
    v_smax: Vec<u8>,
    v_smin: Vec<u8>,
    v_size: Vec<u8>,
) -> (r: Vec<InternalValue>)
    ensures
        views_of_entries(r@) == seq![
            spec_meta_entry(crate::meta::k_checksum_type(), crate::meta::xxh3_name()),
            spec_meta_entry(k_compression(), v_comp@),
            spec_meta_entry(crate::meta::k_created_at(), v_created@),
            spec_meta_entry(crate::meta::k_data_block_count(), v_dbc@),
            spec_meta_entry(crate::meta::k_hash_type(), crate::meta::xxh3_name()),
            spec_meta_entry(crate::meta::k_id(), v_id@),
            spec_meta_entry(crate::meta::k_index_block_count(), v_ibc@),
            spec_meta_entry(crate::meta::k_item_count(), v_items@),
            spec_meta_entry(crate::meta::k_key_max(), kmax@),
            spec_meta_entry(crate::meta::k_key_min(), kmin@),
            spec_meta_entry(crate::meta::k_seqno_max(), v_smax@),
            spec_meta_entry(crate::meta::k_seqno_min(), v_smin@),
            spec_meta_entry(crate::meta::k_size(), v_size@),
        ],
{
    let ghost g_comp = v_comp@;
    let ghost g_created = v_created@;
    let ghost g_dbc = v_dbc@;
    let ghost g_id = v_id@;
    let ghost g_ibc = v_ibc@;
    let ghost g_items = v_items@;
    let ghost g_kmax = kmax@;
    let ghost g_kmin = kmin@;
    let ghost g_smax = v_smax@;
    let ghost g_smin = v_smin@;
    let ghost g_size = v_size@;
    let mut meta_items: Vec<InternalValue> = Vec::new();
    meta_items.push(
        InternalValue::from_components(key_checksum_type(), name_xxh3(), 0, ValueType::Value),
    );
    meta_items.push(InternalValue::from_components(key_compression(), v_comp, 0, ValueType::Value));
    meta_items.push(InternalValue::from_components(key_created_at(), v_created, 0, ValueType::Value));
    meta_items.push(
        InternalValue::from_components(key_data_block_count(), v_dbc, 0, ValueType::Value),
    );
    meta_items.push(InternalValue::from_components(key_hash_type(), name_xxh3(), 0, ValueType::Value));
    meta_items.push(InternalValue::from_components(key_id(), v_id, 0, ValueType::Value));
    meta_items.push(
        InternalValue::from_components(key_index_block_count(), v_ibc, 0, ValueType::Value),
    );
    meta_items.push(InternalValue::from_components(key_item_count(), v_items, 0, ValueType::Value));
    meta_items.push(InternalValue::from_components(key_key_max(), kmax, 0, ValueType::Value));
    meta_items.push(InternalValue::from_components(key_key_min(), kmin, 0, ValueType::Value));
    meta_items.push(InternalValue::from_components(key_seqno_max(), v_smax, 0, ValueType::Value));
    meta_items.push(InternalValue::from_components(key_seqno_min(), v_smin, 0, ValueType::Value));
    meta_items.push(InternalValue::from_components(key_size(), v_size, 0, ValueType::Value));
    proof {
        assert(views_of_entries(meta_items@) =~= seq![
            spec_meta_entry(crate::meta::k_checksum_type(), crate::meta::xxh3_name()),
            spec_meta_entry(k_compression(), g_comp),
            spec_meta_entry(crate::meta::k_created_at(), g_created),
            spec_meta_entry(crate::meta::k_data_block_count(), g_dbc),
            spec_meta_entry(crate::meta::k_hash_type(), crate::meta::xxh3_name()),
            spec_meta_entry(crate::meta::k_id(), g_id),
            spec_meta_entry(crate::meta::k_index_block_count(), g_ibc),
            spec_meta_entry(crate::meta::k_item_count(), g_items),
            spec_meta_entry(crate::meta::k_key_max(), g_kmax),
            spec_meta_entry(crate::meta::k_key_min(), g_kmin),
            spec_meta_entry(crate::meta::k_seqno_max(), g_smax),
            spec_meta_entry(crate::meta::k_seqno_min(), g_smin),
            spec_meta_entry(crate::meta::k_size(), g_size),
        ]);
    }
    meta_items
}

/// Flushes one ordered run of entries (a write-buffer snapshot handed over
/// as plain values) into a complete segment image.  Succeeds exactly when
/// the writer accepts every entry in turn and can close the segment; the
/// image then reads back as exactly the flushed run.
pub fn flush_to_segment(opts: WriterOptions, entries: Vec<InternalValue>) -> (r: Result<
    Vec<u8>,
    LsmError,
>)
    requires
        opts.compression.wf(),
    ensures
        match r {
            Ok(bytes) => {
                &&& spec_segment_entries(bytes@) == Some(views_of_entries(entries@))
                &&& spec_entries_sorted(views_of_entries(entries@))
            },
            Err(e) => e == LsmError::Corrupt,
        },
{
    let mut writer = Writer::new(opts);
    let mut i: usize = 0;
    proof {
        assert(writer.spec_written() =~= views_of_entries(entries@).take(0));
    }
    while i < entries.len()
        invariant
            0 <= i <= entries@.len(),
            writer.wf(),
            writer.spec_compression().wf(),
            writer.spec_written() == views_of_entries(entries@).take(i as int),
        decreases entries@.len() - i,
    {
        let e = entries[i].duplicate();
        proof {
            assert(e@ == views_of_entries(entries@)[i as int]);
        }
        match writer.write(e) {
            Ok(_) => {},
            Err(err) => {
                return Err(err);
            },
        }
        proof {
            assert(writer.spec_written() =~= views_of_entries(entries@).take(i + 1));
        }
        i = i + 1;
    }
    proof {
        assert(views_of_entries(entries@).take(entries@.len() as int) =~= views_of_entries(
            entries@,
        ));
    }
    writer.finish()
}

/// Round trip: a segment image reads back as one well-defined run.  The
/// writer's `finish` promises `spec_segment_entries(image) == Some(written)`
/// and the reader's `recover` promises `spec_segment_entries(image) ==
/// Some(entries of the segment)`, so recovering a finished image yields
/// exactly the entries that were written, in their order.
pub proof fn lemma_segment_round_trip(
    bytes: Seq<u8>,
    written: Seq<EntrySpec>,
    read: Seq<EntrySpec>,
)
    requires
        spec_segment_entries(bytes) == Some(written),
        spec_segment_entries(bytes) == Some(read),
    ensures
        written == read,
{
}


/// Whether one data block holding `es` can be written: the entry count,
/// the encoded entries, the whole payload and its compressed form all fit
/// their 32-bit size fields.
pub open spec fn spec_block_fits(es: Seq<EntrySpec>, c: CompressionType) -> bool {
    &&& es.len() <= u32::MAX
    &&& crate::data_block::spec_enc_entries(es, 0, 16, Seq::empty()).len() <= u32::MAX
    &&& spec_db_encode(es, 16).len() <= u32::MAX - 24
    &&& spec_compress(spec_db_encode(es, 16), c).len() <= u32::MAX - 24
}

/// Whether a top-level index over `hs` can be written.
pub open spec fn spec_tli_fits(hs: Seq<KeyedBlockHandleSpec>, c: CompressionType) -> bool {
    &&& hs.len() <= u32::MAX
    &&& crate::index_block::spec_enc_handles(hs, 0).len() <= u32::MAX
    &&& crate::index_block::spec_ib_encode(hs).len() <= u32::MAX - 24
    &&& spec_compress(crate::index_block::spec_ib_encode(hs), c).len() <= u32::MAX - 24
}

/// Byte length of an encoded filter block body for `nk` hashed keys at
/// `bpk` bits per key.
pub open spec fn spec_filter_section_len(nk: int, bpk: u8) -> int {
    1 + (nk * bpk + 7) / 8
}

/// Whether the filter block for `nk` keys at `bpk` bits per key can be
/// built and written.
pub open spec fn spec_filter_fits(nk: int, bpk: u8) -> bool {
    bpk >= 1 && nk >= 1 ==> {
        &&& nk <= (usize::MAX - 7) / 255
        &&& spec_filter_section_len(nk, bpk) <= u32::MAX - 24
    }
}

/// One reserved metadata entry.
pub open spec fn spec_meta_entry(key: Seq<u8>, value: Seq<u8>) -> EntrySpec {
    EntrySpec { key, seqno: 0, value_type: ValueType::Value, value }
}

/// The thirteen reserved metadata entries of a segment, in their sorted
/// key order.
pub open spec fn spec_meta_entry_list(
    comp: CompressionType,
    created_at: u128,
    data_block_count: u64,
    segment_id: u64,
    item_count: u64,
    key_max: Seq<u8>,
    key_min: Seq<u8>,
    seqno_max: u64,
    seqno_min: u64,
    file_size: u64,
) -> Seq<EntrySpec> {
    seq![
        spec_meta_entry(crate::meta::k_checksum_type(), crate::meta::xxh3_name()),
        spec_meta_entry(k_compression(), comp.spec_encoded()),
        spec_meta_entry(crate::meta::k_created_at(), spec_le128(created_at)),
        spec_meta_entry(crate::meta::k_data_block_count(), spec_le64(data_block_count)),
        spec_meta_entry(crate::meta::k_hash_type(), crate::meta::xxh3_name()),
        spec_meta_entry(crate::meta::k_id(), spec_le64(segment_id)),
        spec_meta_entry(crate::meta::k_index_block_count(), spec_le64(1)),
        spec_meta_entry(crate::meta::k_item_count(), spec_le64(item_count)),
        spec_meta_entry(crate::meta::k_key_max(), key_max),
        spec_meta_entry(crate::meta::k_key_min(), key_min),
        spec_meta_entry(crate::meta::k_seqno_max(), spec_le64(seqno_max)),
        spec_meta_entry(crate::meta::k_seqno_min(), spec_le64(seqno_min)),
        spec_meta_entry(crate::meta::k_size(), spec_le64(file_size)),
    ]
}

/// Whether a metadata block over these entries can be written, taking
/// `NoCompression` as metadata blocks always do.
pub open spec fn spec_meta_fits(meta: Seq<EntrySpec>) -> bool {
    &&& crate::data_block::spec_enc_entries(meta, 0, 16, Seq::empty()).len() <= u32::MAX
    &&& spec_db_encode(meta, 16).len() <= u32::MAX - 24
    &&& spec_entries_sorted(meta)
}


/// Commits one flushed block to the spec-level reading: the prior blocks
/// still read the same after the append, and the appended block reads as
/// the buffered entries.
proof fn lemma_flush_commit(
    file_before: Seq<u8>,
    file_after: Seq<u8>,
    old_handles: Seq<KeyedBlockHandleSpec>,
    h: KeyedBlockHandleSpec,
    buf_views: Seq<EntrySpec>,
    flushed: Seq<EntrySpec>,
    payload: Seq<u8>,
    comp: CompressionType,
)
    requires
        comp.wf(),
        file_after.len() >= file_before.len(),
        file_after.subrange(0, file_before.len() as int) == file_before,
        spec_blocks_entries(file_before, old_handles, 0, comp) == Some(flushed),
        forall|j: int|
            0 <= j < old_handles.len() ==> (#[trigger] old_handles[j].offset) + old_handles[j].size
                <= file_before.len(),
        buf_views.len() >= 1,
        spec_entries_wf_from(buf_views, 0),
        buf_views.len() <= u32::MAX,
        crate::data_block::spec_enc_entries(buf_views, 0, 16, Seq::empty()).len() <= u32::MAX,
        payload == spec_db_encode(buf_views, 16),
        h.offset == file_before.len(),
        h.size == 24 + spec_compress(payload, comp).len(),
        spec_block_at(file_after, h.offset as int, h.size as int, comp) == Some(payload),
    ensures
        spec_blocks_entries(file_after, old_handles.push(h), 0, comp) == Some(
            flushed + buf_views,
        ),
{
    lemma_blocks_entries_stable(file_before, file_after, old_handles, 0, comp);
    crate::data_block::lemma_db_round_trip(buf_views, 16);
    lemma_blocks_entries_snoc(file_after, old_handles, h, 0, comp);
}

/// Options for writing one segment.
#[derive(Clone, Debug)]
pub struct WriterOptions {
    /// Unique id the segment will carry.
    pub segment_id: u64,
    /// Flush a data block once its payload reaches this many bytes.
    pub data_block_size: u32,
    /// How data blocks (and the top-level index) are compressed.
    pub compression: CompressionType,
    /// Creation timestamp recorded in the metadata, in microseconds since
    /// the epoch.
    pub created_at_micros: u128,
    /// Bits per key for the Bloom filter block; zero writes no filter.
    pub bloom_bits_per_key: u8,
}

/// Streams a strictly ordered run of entries into a segment byte image.
pub struct Writer {
    segment_id: u64,
    data_block_size: u32,
    compression: CompressionType,
    created_at: u128,
    bloom_bpk: u8,
    file: Vec<u8>,
    buf: Vec<InternalValue>,
    buf_size: u64,
    handles: Vec<KeyedBlockHandle>,
    hashes: Vec<CompositeHash>,
    item_count: u64,
    tombstone_count: u64,
    first_key: Vec<u8>,
    last_key: Vec<u8>,
    last_seqno: u64,
    has_any: bool,
    seqno_min: u64,
    seqno_max: u64,
    flushed: Ghost<Seq<EntrySpec>>,
}

impl Writer {
    /// Every entry accepted so far, in order.
    pub closed spec fn spec_written(&self) -> Seq<EntrySpec> {
        self.flushed@ + views_of_entries(self.buf@)
    }

    /// The compression the writer was opened with.
    pub closed spec fn spec_compression(&self) -> CompressionType {
        self.compression
    }

    /// The file image built so far.
    pub closed spec fn spec_file(&self) -> Seq<u8> {
        self.file@
    }

    /// The entries buffered for the next data block.
    pub closed spec fn spec_pending(&self) -> Seq<EntrySpec> {
        views_of_entries(self.buf@)
    }

    /// The bookkeeping size of the pending block.
    pub closed spec fn spec_pending_size(&self) -> u64 {
        self.buf_size
    }

    /// The data block size the writer was opened with.
    pub closed spec fn spec_data_block_size(&self) -> u32 {
        self.data_block_size
    }

    /// The data block handles recorded so far.
    pub closed spec fn spec_handles(&self) -> Seq<KeyedBlockHandleSpec> {
        views_of_handles(self.handles@)
    }

    /// Number of distinct keys hashed for the filter so far.
    pub closed spec fn spec_hash_count(&self) -> int {
        self.hashes@.len() as int
    }

    /// The filter sizing the writer was opened with; zero writes no filter.
    pub closed spec fn spec_bloom_bpk(&self) -> u8 {
        self.bloom_bpk
    }

    /// The handle list after the pending block, if any, is flushed.
    #[verifier::opaque]
    pub open spec fn spec_finish_handles(&self) -> Seq<KeyedBlockHandleSpec> {
        if self.spec_pending().len() == 0 {
            self.spec_handles()
        } else {
            self.spec_handles().push(
                KeyedBlockHandleSpec {
                    end_key: self.spec_pending().last().key,
                    offset: self.spec_file().len() as u64,
                    size: (24 + spec_compress(
                        spec_db_encode(self.spec_pending(), 16),
                        self.spec_compression(),
                    ).len()) as u32,
                },
            )
        }
    }

    /// The file length once the pending block, the top-level index and the
    /// filter block are written: the value the metadata records as the
    /// segment's size.
    #[verifier::opaque]
    pub open spec fn spec_file_len_before_meta(&self) -> int {
        self.spec_file().len() + (if self.spec_pending().len() == 0 {
            0int
        } else {
            24 + spec_compress(
                spec_db_encode(self.spec_pending(), 16),
                self.spec_compression(),
            ).len() as int
        }) + 24 + spec_compress(
            crate::index_block::spec_ib_encode(self.spec_finish_handles()),
            self.spec_compression(),
        ).len() as int + (if self.spec_bloom_bpk() >= 1 && self.spec_hash_count() >= 1 {
            24 + spec_filter_section_len(self.spec_hash_count(), self.spec_bloom_bpk())
        } else {
            0int
        })
    }

    /// The metadata entries `finish` will write.
    #[verifier::opaque]
    pub open spec fn spec_finish_meta(&self) -> Seq<EntrySpec> {
        spec_meta_entry_list(
            self.spec_compression(),
            self.spec_created_at(),
            self.spec_finish_handles().len() as u64,
            self.spec_segment_id(),
            self.spec_item_count(),
            self.spec_last_key(),
            self.spec_first_key(),
            self.spec_seqno_max(),
            self.spec_seqno_min(),
            self.spec_file_len_before_meta() as u64,
        )
    }

    /// The segment id the writer was opened with.
    pub closed spec fn spec_segment_id(&self) -> u64 {
        self.segment_id
    }

    /// The creation timestamp the writer was opened with.
    pub closed spec fn spec_created_at(&self) -> u128 {
        self.created_at
    }

    /// The entry count recorded so far.
    pub closed spec fn spec_item_count(&self) -> u64 {
        self.item_count
    }

    /// Key of the first accepted entry; empty before any write.
    pub closed spec fn spec_first_key(&self) -> Seq<u8> {
        self.first_key@
    }

    /// Key of the last accepted entry; empty before any write.
    pub closed spec fn spec_last_key(&self) -> Seq<u8> {
        self.last_key@
    }

    /// Smallest sequence number seen so far.
    pub closed spec fn spec_seqno_min(&self) -> u64 {
        self.seqno_min
    }

    /// Largest sequence number seen so far.
    pub closed spec fn spec_seqno_max(&self) -> u64 {
        self.seqno_max
    }

    /// Whether `finish` can close this writer: something was written, the
    /// pending block and every tail section fit their 32-bit size fields,
    /// and the metadata entries stand in their sorted key order.
    #[verifier::opaque]
    pub open spec fn spec_finish_ok(&self) -> bool {
        &&& self.spec_written().len() > 0
        &&& (self.spec_pending().len() > 0 ==> spec_block_fits(
            self.spec_pending(),
            self.spec_compression(),
        ))
        &&& spec_tli_fits(self.spec_finish_handles(), self.spec_compression())
        &&& spec_filter_fits(self.spec_hash_count(), self.spec_bloom_bpk())
        &&& spec_meta_fits(self.spec_finish_meta())
    }

    /// Internal consistency: the flushed blocks read back as the flushed
    /// entries, the accepted run is sorted and well formed, and the
    /// last-key bookkeeping matches.
    pub closed spec fn wf(&self) -> bool {
        &&& self.compression.wf()
        &&& spec_blocks_entries(
            self.file@,
            views_of_handles(self.handles@),
            0,
            self.compression,
        ) == Some(self.flushed@)
        &&& forall|j: int|
            0 <= j < self.handles@.len() ==> (#[trigger] self.handles@[j]@.offset)
                + self.handles@[j]@.size <= self.file@.len()
        &&& forall|j: int| 0 <= j < self.handles@.len() ==> (#[trigger] self.handles@[j]@.size) >= 24
        &&& forall|j: int|
            0 <= j < self.handles@.len() ==> crate::index_block::spec_handle_wf(
                #[trigger] self.handles@[j]@,
            )
        &&& spec_entries_sorted(self.spec_written())
        &&& forall|j: int|
            0 <= j < self.spec_written().len() ==> spec_entry_wf(#[trigger] self.spec_written()[j])
        &&& (self.has_any ==> self.spec_written().len() > 0 && self.spec_written().last().key
            == self.last_key@ && self.spec_written().last().seqno == self.last_seqno
            && self.first_key@ == self.spec_written()[0].key)
        &&& (!self.has_any ==> self.spec_written().len() == 0)
        &&& self.handles@.len() <= self.flushed@.len()
        &&& self.hashes@.len() <= self.flushed@.len() + self.buf@.len()
        &&& (self.flushed@.len() + self.buf@.len() > 0 ==> self.hashes@.len() >= 1)
    }

    /// Opens a writer.
    pub fn new(opts: WriterOptions) -> (r: Writer)
        requires
            opts.compression.wf(),
        ensures
            r.wf(),
            r.spec_written() == Seq::<EntrySpec>::empty(),
            r.spec_compression() == opts.compression,
    {
        let r = Writer {
            segment_id: opts.segment_id,
            data_block_size: opts.data_block_size,
            compression: opts.compression,
            created_at: opts.created_at_micros,
            bloom_bpk: opts.bloom_bits_per_key,
            file: Vec::new(),
            buf: Vec::new(),
            buf_size: 0,
            handles: Vec::new(),
            hashes: Vec::new(),
            item_count: 0,
            tombstone_count: 0,
            first_key: Vec::new(),
            last_key: Vec::new(),
            last_seqno: 0,
            has_any: false,
            seqno_min: u64::MAX,
            seqno_max: 0,
            flushed: Ghost(Seq::empty()),
        };
        proof {
            assert(r.spec_written() =~= Seq::<EntrySpec>::empty());
            assert(views_of_handles(r.handles@) =~= Seq::<KeyedBlockHandleSpec>::empty());
            assert(spec_blocks_entries(r.file@, views_of_handles(r.handles@), 0, r.compression)
                == Some(r.flushed@));
        }
        r
    }

    /// Flushes the buffered entries as one data block.
    #[verifier::rlimit(100)]
    #[verifier::spinoff_prover]
    fn flush_block(&mut self) -> (r: Result<(), LsmError>)
        requires
            old(self).wf(),
            old(self).buf@.len() > 0,
        ensures
            final(self).wf(),
            final(self).spec_written() == old(self).spec_written(),
            final(self).spec_compression() == old(self).spec_compression(),
            final(self).spec_data_block_size() == old(self).spec_data_block_size(),
            final(self).spec_bloom_bpk() == old(self).spec_bloom_bpk(),
            final(self).spec_hash_count() == old(self).spec_hash_count(),
            final(self).spec_segment_id() == old(self).spec_segment_id(),
            final(self).spec_created_at() == old(self).spec_created_at(),
            final(self).spec_item_count() == old(self).spec_item_count(),
            final(self).spec_seqno_min() == old(self).spec_seqno_min(),
            final(self).spec_seqno_max() == old(self).spec_seqno_max(),
            final(self).spec_first_key() == old(self).spec_first_key(),
            final(self).spec_last_key() == old(self).spec_last_key(),
            match r {
                Ok(_) => {
                    &&& final(self).buf_empty()
                    &&& final(self).spec_pending().len() == 0
                    &&& spec_block_fits(old(self).spec_pending(), old(self).spec_compression())
                    &&& final(self).spec_handles() == old(self).spec_finish_handles()
                    &&& final(self).spec_file().len() == old(self).spec_file().len() + 24
                        + spec_compress(
                        spec_db_encode(old(self).spec_pending(), 16),
                        old(self).spec_compression(),
                    ).len()
                },
                Err(e) => {
                    &&& e == LsmError::Corrupt
                    &&& !spec_block_fits(old(self).spec_pending(), old(self).spec_compression())
                    &&& final(self).spec_pending() == old(self).spec_pending()
                    &&& final(self).spec_handles() == old(self).spec_handles()
                },
            },
    {
        proof {
            reveal(Writer::spec_finish_handles);
            assert forall|k: int|
                0 <= k < views_of_entries(self.buf@).len() implies spec_entry_wf(
                #[trigger] views_of_entries(self.buf@)[k],
            ) by {
                assert(self.spec_written()[self.flushed@.len() + k] == views_of_entries(
                    self.buf@,
                )[k]);
            }
        }
        let payload = match crate::data_block::encode_items(&self.buf, 16) {
            Ok(p) => p,
            Err(e) => {
                return Err(e);
            },
        };
        let end_key = {
            let lastref = &self.buf[self.buf.len() - 1];
            copy_range(lastref.user_key.as_slice(), 0, lastref.user_key.len())
        };
        if payload.len() > ((u32::MAX - 24) as usize) {
            return Err(LsmError::Corrupt);
        }
        let off: usize = self.file.len();
        let ghost file_before = self.file@;
        let header = match Block::write_into(&mut self.file, payload.as_slice(), &self.compression) {
            Ok(h) => h,
            Err(e) => {
                proof {
                    assert(self.file@.subrange(0, file_before.len() as int) =~= file_before);
                    lemma_blocks_entries_stable(
                        file_before,
                        self.file@,
                        views_of_handles(self.handles@),
                        0,
                        self.compression,
                    );
                }
                return Err(e);
            },
        };
        if header.data_length > u32::MAX - 24 {
            proof {
                assert(self.file@.subrange(0, file_before.len() as int) =~= file_before);
                lemma_blocks_entries_stable(
                    file_before,
                    self.file@,
                    views_of_handles(self.handles@),
                    0,
                    self.compression,
                );
            }
            return Err(LsmError::Corrupt);
        }
        let size: u32 = 24 + header.data_length;
        let h = KeyedBlockHandle::new(end_key, off as u64, size);
        let ghost old_handles = views_of_handles(self.handles@);
        let ghost buf_views = views_of_entries(self.buf@);
        proof {
            assert(self.file@.subrange(0, file_before.len() as int) =~= file_before);
            assert(spec_block_at(self.file@, off as int, size as int, self.compression) == Some(
                payload@,
            ));
            assert(h@ =~= KeyedBlockHandleSpec {
                end_key: buf_views[buf_views.len() - 1].key,
                offset: off as u64,
                size,
            }) by {
                assert(buf_views[buf_views.len() - 1] == self.buf@[self.buf@.len() - 1]@);
            }
            lemma_flush_commit(
                file_before,
                self.file@,
                old_handles,
                h@,
                buf_views,
                self.flushed@,
                payload@,
                self.compression,
            );
            assert(spec_entry_wf(self.spec_written()[self.flushed@.len() + self.buf@.len() - 1]));
            assert(self.spec_written()[self.flushed@.len() + self.buf@.len() - 1] == buf_views[
                buf_views.len() - 1]);
        }
        self.handles.push(h);
        proof {
            assert(views_of_handles(self.handles@) =~= old_handles.push(h@));
        }
        let ghost new_flushed = self.flushed@ + buf_views;
        self.flushed = Ghost(new_flushed);
        self.buf.clear();
        self.buf_size = 0;
        proof {
            assert(self.spec_written() =~= old(self).spec_written()) by {
                assert(views_of_entries(self.buf@) =~= Seq::<EntrySpec>::empty());
                assert(old(self).spec_written() =~= self.flushed@);
            }
            assert(spec_blocks_entries(
                self.file@,
                views_of_handles(self.handles@),
                0,
                self.compression,
            ) == Some(self.flushed@));
        }
        Ok(())
    }

    /// Whether the buffer holds no entries.
    pub closed spec fn buf_empty(&self) -> bool {
        self.buf@.len() == 0
    }

    /// Accepts the next entry of the ordered run.  Succeeds exactly when
    /// the entry is well formed (key of 1 to 65535 bytes, value of at most
    /// `u32::MAX`) and sorts strictly after everything accepted before;
    /// flushing a full data block may also fail when a block would
    /// overflow its 32-bit sizes.
    #[verifier::rlimit(100)]
    #[verifier::spinoff_prover]
    pub fn write(&mut self, item: InternalValue) -> (r: Result<(), LsmError>)
        requires
            old(self).wf(),
        ensures
            final(self).wf(),
            final(self).spec_compression() == old(self).spec_compression(),
            match r {
                Ok(_) => {
                    &&& spec_entry_wf(item@)
                    &&& old(self).spec_written().len() == 0 || spec_entry_lt(
                        old(self).spec_written().last(),
                        item@,
                    )
                    &&& final(self).spec_written() == old(self).spec_written().push(item@)
                    &&& (final(self).spec_pending() == old(self).spec_pending().push(item@)
                        || final(self).spec_pending() == seq![item@])
                },
                Err(e) => {
                    &&& e == LsmError::Corrupt
                    &&& final(self).spec_written() == old(self).spec_written()
                    &&& final(self).spec_pending() == old(self).spec_pending()
                    &&& {
                        ||| !spec_entry_wf(item@)
                        ||| !(old(self).spec_written().len() == 0 || spec_entry_lt(
                            old(self).spec_written().last(),
                            item@,
                        ))
                        ||| (old(self).spec_pending_size() > old(self).spec_data_block_size()
                            && old(self).spec_pending().len() > 0 && !spec_block_fits(
                            old(self).spec_pending(),
                            old(self).spec_compression(),
                        ))
                    }
                },
            },
    {
        if item.user_key.len() < 1 || item.user_key.len() > 65535 {
            return Err(LsmError::Corrupt);
        }
        if item.value.len() > (u32::MAX as usize) {
            return Err(LsmError::Corrupt);
        }
        if self.has_any {
            let ord = bytes_lt(self.last_key.as_slice(), item.user_key.as_slice());
            let eq = crate::bytes_util::bytes_eq(self.last_key.as_slice(), item.user_key.as_slice());
            if !(ord || (eq && self.last_seqno > item.seqno)) {
                return Err(LsmError::Corrupt);
            }
        }
        if self.buf_size > (self.data_block_size as u64) && self.buf.len() > 0 {
            match self.flush_block() {
                Ok(_) => {},
                Err(e) => {
                    return Err(e);
                },
            }
        }
        let is_new_key = !self.has_any || !crate::bytes_util::bytes_eq(
            self.last_key.as_slice(),
            item.user_key.as_slice(),
        );
        if is_new_key {
            let h = composite_hash(item.user_key.as_slice());
            self.hashes.push(h);
        }
        if !self.has_any {
            self.first_key = copy_range(item.user_key.as_slice(), 0, item.user_key.len());
        }
        self.last_key = copy_range(item.user_key.as_slice(), 0, item.user_key.len());
        self.last_seqno = item.seqno;
        self.has_any = true;
        if self.item_count < u64::MAX {
            self.item_count = self.item_count + 1;
        }
        if matches!(item.value_type, ValueType::Tombstone) {
            if self.tombstone_count < u64::MAX {
                self.tombstone_count = self.tombstone_count + 1;
            }
        }
        if item.seqno < self.seqno_min {
            self.seqno_min = item.seqno;
        }
        if item.seqno > self.seqno_max {
            self.seqno_max = item.seqno;
        }
        let added: u64 = (item.user_key.len() as u64) + (if item.value.len()
            > (u32::MAX as usize) {
            u32::MAX as u64
        } else {
            item.value.len() as u64
        }) + 16;
        if self.buf_size <= u64::MAX - added {
            self.buf_size = self.buf_size + added;
        }
        let ghost pre_written = self.spec_written();
        let ghost itemv = item@;
        self.buf.push(item);
        proof {
            assert(views_of_entries(self.buf@) =~= views_of_entries(self.buf@.drop_last()).push(
                itemv,
            ));
            assert(self.spec_written().last() == itemv);
            assert(self.last_key@ =~= itemv.key);
            assert(self.spec_written() =~= pre_written.push(itemv));
            assert(old(self).spec_written().len() == 0 || pre_written
                == old(self).spec_written());
            assert forall|j: int|
                0 <= j < self.spec_written().len() - 1 implies spec_entry_lt(
                #[trigger] self.spec_written()[j],
                self.spec_written()[j + 1],
            ) by {
                if j < pre_written.len() - 1 {
                    assert(pre_written[j] == self.spec_written()[j]);
                    assert(pre_written[j + 1] == self.spec_written()[j + 1]);
                } else {
                    assert(self.spec_written()[j] == pre_written.last());
                    assert(self.spec_written()[j + 1] == itemv);
                }
            }
            assert forall|j: int|
                0 <= j < self.spec_written().len() implies spec_entry_wf(
                #[trigger] self.spec_written()[j],
            ) by {
                if j < pre_written.len() {
                    assert(pre_written[j] == self.spec_written()[j]);
                }
            }
        }
        Ok(())
    }

    /// Closes the segment: flushes any buffered entries, writes the
    /// top-level index, the optional filter block, the metadata block and
    /// the trailer, and returns the full byte image.  On success the image
    /// reads back as exactly the run of entries that was written, in its
    /// strictly sorted order.  It fails only on an empty run or when a
    /// single section outgrows its 32-bit size fields.
    #[verifier::rlimit(100)]
    #[verifier::spinoff_prover]
    pub fn finish(self) -> (r: Result<Vec<u8>, LsmError>)
        requires
            self.wf(),
        ensures
            match r {
                Ok(bytes) => {
                    &&& spec_segment_entries(bytes@) == Some(self.spec_written())
                    &&& spec_entries_sorted(self.spec_written())
                },
                Err(e) => {
                    &&& e == LsmError::Corrupt
                    &&& !self.spec_finish_ok()
                },
            },
    {
        let ghost written0 = self.spec_written();
        let ghost ok0 = self.spec_finish_ok();
        let mut w = self;
        if w.buf.len() > 0 {
            match w.flush_block() {
                Ok(_) => {},
                Err(e) => {
                    proof {
                        reveal(Writer::spec_finish_ok);
                    }
                    return Err(e);
                },
            }
        }
        proof {
            reveal(Writer::spec_finish_ok);
            reveal(Writer::spec_finish_handles);
            reveal(Writer::spec_finish_meta);
            reveal(Writer::spec_file_len_before_meta);
            assert(views_of_handles(w.handles@) == self.spec_finish_handles());
            assert(w.spec_file().len() + 24 + spec_compress(
                crate::index_block::spec_ib_encode(w.spec_handles()),
                w.spec_compression(),
            ).len() as int + (if w.spec_bloom_bpk() >= 1 && w.spec_hash_count() >= 1 {
                24 + spec_filter_section_len(w.spec_hash_count(), w.spec_bloom_bpk())
            } else {
                0int
            }) == self.spec_file_len_before_meta());
            assert(ok0 ==> spec_meta_fits(
                spec_meta_entry_list(
                    w.spec_compression(),
                    w.spec_created_at(),
                    w.spec_handles().len() as u64,
                    w.spec_segment_id(),
                    w.spec_item_count(),
                    w.spec_last_key(),
                    w.spec_first_key(),
                    w.spec_seqno_max(),
                    w.spec_seqno_min(),
                    (w.spec_file().len() + 24 + spec_compress(
                        crate::index_block::spec_ib_encode(w.spec_handles()),
                        w.spec_compression(),
                    ).len() as int + (if w.spec_bloom_bpk() >= 1 && w.spec_hash_count() >= 1 {
                        24 + spec_filter_section_len(w.spec_hash_count(), w.spec_bloom_bpk())
                    } else {
                        0int
                    })) as u64,
                ),
            )) by {
                if ok0 {
                    assert(self.spec_finish_meta() =~= spec_meta_entry_list(
                        w.spec_compression(),
                        w.spec_created_at(),
                        w.spec_handles().len() as u64,
                        w.spec_segment_id(),
                        w.spec_item_count(),
                        w.spec_last_key(),
                        w.spec_first_key(),
                        w.spec_seqno_max(),
                        w.spec_seqno_min(),
                        self.spec_file_len_before_meta() as u64,
                    ));
                }
            }
        }
        Writer::finish_core(w, Ghost(written0), Ghost(ok0))
    }

    /// Writes the top-level index and hands over to the tail sections.
    #[verifier::rlimit(100)]
    #[verifier::spinoff_prover]
    fn finish_core(writer: Writer, Ghost(written0): Ghost<Seq<EntrySpec>>, Ghost(ok0): Ghost<
        bool,
    >) -> (r: Result<Vec<u8>, LsmError>)
        requires
            writer.wf(),
            writer.spec_pending().len() == 0,
            written0 == writer.spec_written(),
            ok0 ==> written0.len() > 0,
            ok0 ==> spec_tli_fits(writer.spec_handles(), writer.spec_compression()),
            ok0 ==> spec_filter_fits(writer.spec_hash_count(), writer.spec_bloom_bpk()),
            ok0 ==> spec_meta_fits(
                spec_meta_entry_list(
                    writer.spec_compression(),
                    writer.spec_created_at(),
                    writer.spec_handles().len() as u64,
                    writer.spec_segment_id(),
                    writer.spec_item_count(),
                    writer.spec_last_key(),
                    writer.spec_first_key(),
                    writer.spec_seqno_max(),
                    writer.spec_seqno_min(),
                    (writer.spec_file().len() + 24 + spec_compress(
                        crate::index_block::spec_ib_encode(writer.spec_handles()),
                        writer.spec_compression(),
                    ).len() as int + (if writer.spec_bloom_bpk() >= 1 && writer.spec_hash_count()
                        >= 1 {
                        24 + spec_filter_section_len(
                            writer.spec_hash_count(),
                            writer.spec_bloom_bpk(),
                        )
                    } else {
                        0int
                    })) as u64,
                ),
            ),
        ensures
            match r {
                Ok(bytes) => spec_segment_entries(bytes@) == Some(written0),
                Err(e) => e == LsmError::Corrupt && !ok0,
            },
    {
        let mut w = writer;
        if w.handles.len() == 0 {
            proof {
                assert(spec_blocks_entries(
                    w.spec_file(),
                    views_of_handles(w.handles@),
                    0,
                    w.spec_compression(),
                ) == Some(w.flushed@));
                assert(views_of_handles(w.handles@).len() == 0);
                assert(w.flushed@ =~= Seq::<EntrySpec>::empty());
                assert(written0 =~= Seq::<EntrySpec>::empty());
            }
            return Err(LsmError::Corrupt);
        }
        let ghost hviews = views_of_handles(w.handles@);
        let ghost comp = w.compression;
        proof {
            assert forall|j: int|
                0 <= j < hviews.len() implies crate::index_block::spec_handle_wf(
                #[trigger] hviews[j],
            ) by {
                assert(hviews[j] == w.handles@[j]@);
            }
        }
        let tli_payload = match crate::index_block::encode_items(&w.handles) {
            Ok(p) => p,
            Err(e) => {
                return Err(e);
            },
        };
        if tli_payload.len() > ((u32::MAX - 24) as usize) {
            return Err(LsmError::Corrupt);
        }
        let tli_off: usize = w.file.len();
        let ghost file0 = w.file@;
        proof {
            assert forall|j: int|
                0 <= j < hviews.len() implies (#[trigger] hviews[j].offset) + hviews[j].size
                <= file0.len() && hviews[j].size >= 24 by {
                assert(hviews[j] == w.handles@[j]@);
            }
            assert(spec_blocks_entries(file0, hviews, 0, comp) == Some(w.flushed@));
            assert(w.spec_written() =~= w.flushed@);
            assert(written0 == w.flushed@);
            assert(comp.wf());
        }
        let th = match Block::write_into(&mut w.file, tli_payload.as_slice(), &w.compression) {
            Ok(h) => h,
            Err(_) => {
                return Err(LsmError::Corrupt);
            },
        };
        if th.data_length > u32::MAX - 24 {
            return Err(LsmError::Corrupt);
        }
        let tli_handle = BlockHandle::new(tli_off as u64, 24 + th.data_length);
        let ghost file1 = w.file@;
        proof {
            assert(tli_off >= 24) by {
                assert(hviews[0].offset + hviews[0].size <= file0.len());
                assert(hviews[0].size >= 24);
            }
            crate::index_block::lemma_ib_round_trip(hviews);
            assert(spec_block_at(file1, tli_off as int, tli_handle.size as int, comp) == Some(
                tli_payload@,
            ));
            assert(file1.subrange(0, file0.len() as int) =~= file0);
            assert(1 <= w.spec_last_key().len() <= 65535 && 1 <= w.spec_first_key().len()
                <= 65535) by {
                assert(w.flushed@.len() >= 1);
                assert(w.spec_written().len() >= 1);
                assert(spec_entry_wf(w.spec_written()[0]));
                assert(spec_entry_wf(w.spec_written().last()));
            }
        }
        Writer::finish_tail(
            w,
            tli_handle,
            Ghost(file0),
            Ghost(file1),
            Ghost(hviews),
            Ghost(written0),
            Ghost(tli_payload@),
            Ghost(ok0),
        )
    }

    /// Writes the filter, metadata and trailer sections and returns the
    /// finished image.
    #[verifier::rlimit(100)]
    #[verifier::spinoff_prover]
    fn finish_tail(
        writer: Writer,
        tli_handle: BlockHandle,
        Ghost(file0): Ghost<Seq<u8>>,
        Ghost(file1): Ghost<Seq<u8>>,
        Ghost(hviews): Ghost<Seq<KeyedBlockHandleSpec>>,
        Ghost(written0): Ghost<Seq<EntrySpec>>,
        Ghost(tli_payload): Ghost<Seq<u8>>,
        Ghost(ok0): Ghost<bool>,
    ) -> (r: Result<Vec<u8>, LsmError>)
        requires
            writer.spec_compression().wf(),
            file1 == writer.spec_file(),
            file0.len() <= file1.len(),
            file1.subrange(0, file0.len() as int) == file0,
            spec_blocks_entries(file0, hviews, 0, writer.spec_compression()) == Some(written0),
            forall|j: int|
                0 <= j < hviews.len() ==> (#[trigger] hviews[j].offset) + hviews[j].size
                    <= file0.len(),
            spec_block_at(
                file1,
                tli_handle.offset as int,
                tli_handle.size as int,
                writer.spec_compression(),
            ) == Some(tli_payload),
            tli_handle.offset + tli_handle.size <= file1.len(),
            tli_handle.offset >= 24,
            crate::index_block::spec_ib_parse(tli_payload) == Some(hviews),
            writer.spec_handles() == hviews,
            1 <= writer.spec_last_key().len() <= 65535,
            1 <= writer.spec_first_key().len() <= 65535,
            ok0 ==> spec_filter_fits(writer.spec_hash_count(), writer.spec_bloom_bpk()),
            ok0 ==> spec_meta_fits(
                spec_meta_entry_list(
                    writer.spec_compression(),
                    writer.spec_created_at(),
                    hviews.len() as u64,
                    writer.spec_segment_id(),
                    writer.spec_item_count(),
                    writer.spec_last_key(),
                    writer.spec_first_key(),
                    writer.spec_seqno_max(),
                    writer.spec_seqno_min(),
                    (writer.spec_file().len() + (
                    if writer.spec_bloom_bpk() >= 1 && writer.spec_hash_count() >= 1 {
                        24 + spec_filter_section_len(
                            writer.spec_hash_count(),
                            writer.spec_bloom_bpk(),
                        )
                    } else {
                        0int
                    })) as u64,
                ),
            ),
        ensures
            match r {
                Ok(bytes) => spec_segment_entries(bytes@) == Some(written0),
                Err(e) => e == LsmError::Corrupt && !ok0,
            },
    {
        let mut w = writer;
        let ghost comp = w.compression;
        // --- optional filter block ---
        let mut filter_handle: Option<BlockHandle> = None;
        if w.bloom_bpk >= 1 && w.hashes.len() >= 1 {
            let fbytes = match build_filter_bytes(&w.hashes, w.bloom_bpk) {
                Ok(b) => b,
                Err(e) => {
                    return Err(e);
                },
            };
            if fbytes.len() > (u32::MAX as usize) {
                return Err(LsmError::Corrupt);
            }
            let foff: usize = w.file.len();
            let fh = match Block::write_into(
                &mut w.file,
                fbytes.as_slice(),
                &CompressionType::NoCompression,
            ) {
                Ok(h) => h,
                Err(_) => {
                    return Err(LsmError::Corrupt);
                },
            };
            if fh.data_length > u32::MAX - 24 {
                return Err(LsmError::Corrupt);
            }
            filter_handle = Some(BlockHandle::new(foff as u64, 24 + fh.data_length));
        }
        let ghost file2 = w.file@;
        proof {
            assert(file2.subrange(0, file0.len() as int) =~= file0);
            assert(file2.subrange(0, file1.len() as int) =~= file1);
        }
        Writer::finish_meta(
            w,
            tli_handle,
            filter_handle,
            Ghost(file0),
            Ghost(file1),
            Ghost(hviews),
            Ghost(written0),
            Ghost(tli_payload),
            Ghost(ok0),
        )
    }


    /// Writes the metadata block and the trailer and returns the finished
    /// image.
    #[verifier::rlimit(100)]
    #[verifier::spinoff_prover]
    fn finish_meta(
        writer: Writer,
        tli_handle: BlockHandle,
        filter_handle: Option<BlockHandle>,
        Ghost(file0): Ghost<Seq<u8>>,
        Ghost(file1): Ghost<Seq<u8>>,
        Ghost(hviews): Ghost<Seq<KeyedBlockHandleSpec>>,
        Ghost(written0): Ghost<Seq<EntrySpec>>,
        Ghost(tli_payload): Ghost<Seq<u8>>,
        Ghost(ok0): Ghost<bool>,
    ) -> (r: Result<Vec<u8>, LsmError>)
        requires
            writer.spec_compression().wf(),
            file0.len() <= file1.len() <= writer.spec_file().len(),
            writer.spec_file().subrange(0, file0.len() as int) == file0,
            writer.spec_file().subrange(0, file1.len() as int) == file1,
            file1.subrange(0, file0.len() as int) == file0,
            spec_blocks_entries(file0, hviews, 0, writer.spec_compression()) == Some(written0),
            forall|j: int|
                0 <= j < hviews.len() ==> (#[trigger] hviews[j].offset) + hviews[j].size
                    <= file0.len(),
            spec_block_at(
                file1,
                tli_handle.offset as int,
                tli_handle.size as int,
                writer.spec_compression(),
            ) == Some(tli_payload),
            tli_handle.offset + tli_handle.size <= file1.len(),
            tli_handle.offset >= 24,
            crate::index_block::spec_ib_parse(tli_payload) == Some(hviews),
            filter_handle is Some ==> filter_handle.unwrap().offset != 0,
            writer.spec_handles() == hviews,
            1 <= writer.spec_last_key().len() <= 65535,
            1 <= writer.spec_first_key().len() <= 65535,
            ok0 ==> spec_meta_fits(
                spec_meta_entry_list(
                    writer.spec_compression(),
                    writer.spec_created_at(),
                    hviews.len() as u64,
                    writer.spec_segment_id(),
                    writer.spec_item_count(),
                    writer.spec_last_key(),
                    writer.spec_first_key(),
                    writer.spec_seqno_max(),
                    writer.spec_seqno_min(),
                    writer.spec_file().len() as u64,
                ),
            ),
        ensures
            match r {
                Ok(bytes) => spec_segment_entries(bytes@) == Some(written0),
                Err(e) => e == LsmError::Corrupt && !ok0,
            },
    {
        let mut w = writer;
        let ghost comp = w.compression;
        let ghost file2 = w.file@;
        let kmax = copy_range(w.last_key.as_slice(), 0, w.last_key.len());
        let kmin = copy_range(w.first_key.as_slice(), 0, w.first_key.len());
        let ghost req_list = spec_meta_entry_list(
            writer.spec_compression(),
            writer.spec_created_at(),
            hviews.len() as u64,
            writer.spec_segment_id(),
            writer.spec_item_count(),
            writer.spec_last_key(),
            writer.spec_first_key(),
            writer.spec_seqno_max(),
            writer.spec_seqno_min(),
            writer.spec_file().len() as u64,
        );
        proof {
            assert(kmax@ =~= writer.spec_last_key());
            assert(kmin@ =~= writer.spec_first_key());
            assert(w.handles@.len() == hviews.len());
        }
        let (meta_payload, mviews_g) = match build_meta_payload(
            &w.compression,
            w.created_at,
            w.handles.len() as u64,
            w.segment_id,
            w.item_count,
            w.seqno_min,
            w.seqno_max,
            w.file.len() as u64,
            &kmax,
            &kmin,
        ) {
            Ok(x) => x,
            Err(e) => {
                proof {
                    assert(spec_meta_entry_list(
                        w.spec_compression(),
                        w.spec_created_at(),
                        w.handles@.len() as u64,
                        w.spec_segment_id(),
                        w.spec_item_count(),
                        kmax@,
                        kmin@,
                        w.spec_seqno_max(),
                        w.spec_seqno_min(),
                        w.spec_file().len() as u64,
                    ) =~= req_list);
                }
                return Err(e);
            },
        };
        let ghost mviews = mviews_g@;
        proof {
            assert(mviews =~= req_list);
        }
        if meta_payload.len() > ((u32::MAX - 24) as usize) {
            proof {
                assert(meta_payload@ == spec_db_encode(req_list, 16));
                assert(!spec_meta_fits(req_list));
            }
            return Err(LsmError::Corrupt);
        }
        let moff: usize = w.file.len();
        let mh = match Block::write_into(
            &mut w.file,
            meta_payload.as_slice(),
            &CompressionType::NoCompression,
        ) {
            Ok(h) => h,
            Err(_) => {
                proof {
                    assert(spec_compress(meta_payload@, CompressionType::NoCompression)
                        == meta_payload@);
                }
                return Err(LsmError::Corrupt);
            },
        };
        if mh.data_length > u32::MAX - 24 {
            proof {
                assert(spec_compress(meta_payload@, CompressionType::NoCompression)
                    == meta_payload@);
            }
            return Err(LsmError::Corrupt);
        }
        let md_handle = BlockHandle::new(moff as u64, 24 + mh.data_length);
        proof {
            assert(md_handle.offset >= 24);
            assert(w.file@.subrange(0, file2.len() as int) =~= file2);
        }
        Writer::finish_trailer(
            w,
            tli_handle,
            filter_handle,
            md_handle,
            Ghost(file0),
            Ghost(file1),
            Ghost(file2),
            Ghost(hviews),
            Ghost(written0),
            Ghost(tli_payload),
            Ghost(meta_payload@),
            Ghost(mviews),
        )
    }


    /// Appends the trailer and returns the finished image.
    #[verifier::rlimit(100)]
    #[verifier::spinoff_prover]
    fn finish_trailer(
        writer: Writer,
        tli_handle: BlockHandle,
        filter_handle: Option<BlockHandle>,
        md_handle: BlockHandle,
        Ghost(file0): Ghost<Seq<u8>>,
        Ghost(file1): Ghost<Seq<u8>>,
        Ghost(file2): Ghost<Seq<u8>>,
        Ghost(hviews): Ghost<Seq<KeyedBlockHandleSpec>>,
        Ghost(written0): Ghost<Seq<EntrySpec>>,
        Ghost(tli_payload): Ghost<Seq<u8>>,
        Ghost(meta_payload): Ghost<Seq<u8>>,
        Ghost(mviews): Ghost<Seq<EntrySpec>>,
    ) -> (r: Result<Vec<u8>, LsmError>)
        requires
            writer.spec_compression().wf(),
            file0.len() <= file1.len() <= file2.len() <= writer.spec_file().len(),
            file1.subrange(0, file0.len() as int) == file0,
            file2.subrange(0, file1.len() as int) == file1,
            writer.spec_file().subrange(0, file2.len() as int) == file2,
            spec_blocks_entries(file0, hviews, 0, writer.spec_compression()) == Some(written0),
            forall|j: int|
                0 <= j < hviews.len() ==> (#[trigger] hviews[j].offset) + hviews[j].size
                    <= file0.len(),
            spec_block_at(
                file1,
                tli_handle.offset as int,
                tli_handle.size as int,
                writer.spec_compression(),
            ) == Some(tli_payload),
            tli_handle.offset + tli_handle.size <= file1.len(),
            tli_handle.offset >= 24,
            crate::index_block::spec_ib_parse(tli_payload) == Some(hviews),
            filter_handle is Some ==> filter_handle.unwrap().offset != 0,
            spec_block_at(
                writer.spec_file(),
                md_handle.offset as int,
                md_handle.size as int,
                CompressionType::NoCompression,
            ) == Some(meta_payload),
            md_handle.offset + md_handle.size <= writer.spec_file().len(),
            md_handle.offset >= 24,
            spec_db_parse(meta_payload) == Some(mviews),
            mviews.len() >= 2,
            mviews[0].key == crate::meta::k_checksum_type(),
            mviews[1].key == k_compression(),
            mviews[1].value == writer.spec_compression().spec_encoded(),
        ensures
            match r {
                Ok(bytes) => spec_segment_entries(bytes@) == Some(written0),
                Err(e) => false,
            },
    {
        let mut w = writer;
        let ghost comp = w.compression;
        let ghost file3 = w.file@;
        let tr = SegmentTrailer {
            tli: tli_handle,
            index_blocks: None,
            filter: filter_handle,
            metadata: md_handle,
        };
        tr.encode_into(&mut w.file);
        let ghost out = w.file@;
        proof {
            lemma_finish_final(
                out,
                file0,
                file1,
                file2,
                file3,
                hviews,
                written0,
                comp,
                tr,
                tli_payload,
                meta_payload,
                mviews,
            );
        }
        Ok(w.file)
    }

}

/// If every entry's sequence number is at least the segment's floor, and
/// the snapshot is at or below that floor, no entry is visible.
proof fn lemma_seqno_gate(views: Seq<EntrySpec>, key: Seq<u8>, s: u64, m: u64, i: int)
    requires
        forall|j: int| 0 <= j < views.len() ==> (#[trigger] views[j].seqno) >= m,
        m >= s,
        0 <= i,
    ensures
        spec_point_read_from(views, key, Some(s), i) is None,
    decreases views.len() - i,
{
    if i < views.len() {
        lemma_seqno_gate(views, key, s, m, i + 1);
    }
}

/// If the filter holds every entry's key hash but not the needle's, no
/// entry has the needle's key.
proof fn lemma_filter_gate(
    views: Seq<EntrySpec>,
    key: Seq<u8>,
    seqno: Option<u64>,
    bits: Seq<u8>,
    k: int,
    m: u64,
    i: int,
)
    requires
        forall|j: int|
            0 <= j < views.len() ==> spec_std_contains(
                bits,
                spec_hash_h1(#[trigger] views[j].key),
                spec_hash_h2(views[j].key),
                k,
                m,
            ),
        !spec_std_contains(bits, spec_hash_h1(key), spec_hash_h2(key), k, m),
        0 <= i,
    ensures
        spec_point_read_from(views, key, seqno, i) is None,
    decreases views.len() - i,
{
    if i < views.len() {
        if views[i].key == key {
            assert(spec_std_contains(bits, spec_hash_h1(key), spec_hash_h2(key), k, m));
        }
        lemma_filter_gate(views, key, seqno, bits, k, m, i + 1);
    }
}

/// The entries of `views` with keys in `[lo, hi]`, from `i` on, in order.
pub open spec fn spec_range_from(views: Seq<EntrySpec>, lo: Seq<u8>, hi: Seq<u8>, i: int) -> Seq<
    EntrySpec,
>
    decreases views.len() - i,
{
    if i < 0 || i >= views.len() {
        Seq::empty()
    } else if lex_le(lo, views[i].key) && lex_le(views[i].key, hi) {
        seq![views[i]] + spec_range_from(views, lo, hi, i + 1)
    } else {
        spec_range_from(views, lo, hi, i + 1)
    }
}

/// Number of tombstones among the entries from `i` on.
pub open spec fn spec_tombstone_count_from(views: Seq<EntrySpec>, i: int) -> int
    decreases views.len() - i,
{
    if i < 0 || i >= views.len() {
        0
    } else {
        (if views[i].value_type is Tombstone {
            1int
        } else {
            0int
        }) + spec_tombstone_count_from(views, i + 1)
    }
}

/// A disk segment recovered into memory: an immutable sorted run of
/// entries with its metadata, top-level index and pinned filter.
/// The decoded metadata entries of a segment image: the trailer is parsed,
/// the metadata block is read where its handle points, and the block's
/// payload is decoded as a data block.
pub open spec fn spec_segment_meta_views(bytes: Seq<u8>) -> Option<Seq<EntrySpec>> {
    match spec_trailer_parse(bytes) {
        Some(t) => match spec_block_at(
            bytes,
            t.metadata.offset as int,
            t.metadata.size as int,
            CompressionType::NoCompression,
        ) {
            Some(mp) => spec_db_parse(mp),
            None => None,
        },
        None => None,
    }
}

/// The parse chain `recover` follows, pinned to its intermediate values:
/// the trailer, the metadata block payload and entries, the compression,
/// the top-level index payload and its handles.
spec fn spec_recover_chain(
    bytes: Seq<u8>,
    tr: SegmentTrailer,
    mp: Seq<u8>,
    mv: Seq<EntrySpec>,
    comp: CompressionType,
    tp: Seq<u8>,
    hs: Seq<KeyedBlockHandleSpec>,
) -> bool {
    &&& spec_trailer_parse(bytes) == Some(tr)
    &&& spec_block_at(
        bytes,
        tr.metadata.offset as int,
        tr.metadata.size as int,
        CompressionType::NoCompression,
    ) == Some(mp)
    &&& spec_db_parse(mp) == Some(mv)
    &&& spec_meta_compression(mv) == Some(comp)
    &&& spec_block_at(bytes, tr.tli.offset as int, tr.tli.size as int, comp) == Some(tp)
    &&& crate::index_block::spec_ib_parse(tp) == Some(hs)
}

/// What holds of the run and descriptor of a recoverable image: a
/// non-empty, strictly sorted run whose descriptor records the exact item
/// count, a single index block, the data block count, the first and last
/// key and the sequence-number extrema, with a present filter block
/// decoding to a filter that holds every key of the run.
pub open spec fn spec_recover_run_ok(
    bytes: Seq<u8>,
    tr: SegmentTrailer,
    mv: Seq<EntrySpec>,
    hs: Seq<KeyedBlockHandleSpec>,
    es: Seq<EntrySpec>,
) -> bool {
    &&& es.len() >= 1
    &&& spec_entries_sorted(es)
    &&& spec_meta_field(mv, k_item_count()) == Some(spec_le64(es.len() as u64))
    &&& spec_meta_field(mv, k_index_block_count()) == Some(spec_le64(1u64))
    &&& spec_meta_field(mv, k_data_block_count()) == Some(spec_le64(hs.len() as u64))
    &&& spec_meta_field(mv, k_key_min()) == Some(es[0].key)
    &&& spec_meta_field(mv, k_key_max()) == Some(es.last().key)
    &&& spec_meta_field(mv, k_seqno_min()) == Some(spec_le64(spec_min_seqno(es)))
    &&& spec_meta_field(mv, k_seqno_max()) == Some(spec_le64(spec_max_seqno(es)))
    &&& match tr.filter {
        Some(fh) => match spec_block_at(
            bytes,
            fh.offset as int,
            fh.size as int,
            CompressionType::NoCompression,
        ) {
            None => false,
            Some(fp) => exists|f: StandardBloomFilter|
                {
                    &&& f.wf()
                    &&& (#[trigger] f.spec_encoded()) == fp
                    &&& forall|j: int|
                        0 <= j < es.len() ==> spec_std_contains(
                            f.bits(),
                            spec_hash_h1((#[trigger] es[j]).key),
                            spec_hash_h2(es[j].key),
                            f.spec_k(),
                            f.spec_m() as u64,
                        )
                },
        },
        None => true,
    }
}

/// The data-block half of a recoverable image: the top-level index block
/// decodes to sorted handles, every handle's block decodes to a non-empty
/// sorted run, and the concatenated run satisfies the descriptor.
pub open spec fn spec_recover_blocks_ok(
    bytes: Seq<u8>,
    tr: SegmentTrailer,
    mv: Seq<EntrySpec>,
    comp: CompressionType,
) -> bool {
    match spec_block_at(bytes, tr.tli.offset as int, tr.tli.size as int, comp) {
        None => false,
        Some(tp) => match crate::index_block::spec_ib_parse(tp) {
            None => false,
            Some(hs) => {
                &&& crate::index_block::spec_handles_sorted(hs)
                &&& forall|j: int|
                    0 <= j < hs.len() ==> match spec_block_at(
                        bytes,
                        (#[trigger] hs[j]).offset as int,
                        hs[j].size as int,
                        comp,
                    ) {
                        None => false,
                        Some(p) => match spec_db_parse(p) {
                            None => false,
                            Some(bes) => bes.len() >= 1 && spec_entries_sorted(bes),
                        },
                    }
                &&& match spec_blocks_entries(bytes, hs, 0, comp) {
                    None => false,
                    Some(es) => spec_recover_run_ok(bytes, tr, mv, hs, es),
                }
            },
        },
    }
}

/// A segment image recovers: the trailer parses with no partitioned-index
/// handle, the metadata block decodes to a sorted well-formed descriptor,
/// and the data-block half holds.
pub open spec fn spec_recover_ok(bytes: Seq<u8>) -> bool {
    match spec_trailer_parse(bytes) {
        None => false,
        Some(tr) => {
            &&& tr.index_blocks is None
            &&& match spec_block_at(
                bytes,
                tr.metadata.offset as int,
                tr.metadata.size as int,
                CompressionType::NoCompression,
            ) {
                None => false,
                Some(mp) => match spec_db_parse(mp) {
                    None => false,
                    Some(mv) => {
                        &&& spec_entries_sorted(mv)
                        &&& spec_meta_wf(mv)
                        &&& match spec_meta_compression(mv) {
                            None => false,
                            Some(comp) => spec_recover_blocks_ok(bytes, tr, mv, comp),
                        }
                    },
                },
            }
        },
    }
}

/// The smallest sequence number among `views`; `u64::MAX` for an empty run.
pub open spec fn spec_min_seqno(views: Seq<EntrySpec>) -> u64
    decreases views.len(),
{
    if views.len() == 0 {
        u64::MAX
    } else {
        let rest = spec_min_seqno(views.drop_last());
        if views.last().seqno < rest {
            views.last().seqno
        } else {
            rest
        }
    }
}

/// The largest sequence number among `views`; `0` for an empty run.
pub open spec fn spec_max_seqno(views: Seq<EntrySpec>) -> u64
    decreases views.len(),
{
    if views.len() == 0 {
        0
    } else {
        let rest = spec_max_seqno(views.drop_last());
        if views.last().seqno > rest {
            views.last().seqno
        } else {
            rest
        }
    }
}

/// The minimum is a lower bound for every sequence number in the run.
proof fn lemma_min_seqno_le(views: Seq<EntrySpec>, j: int)
    requires
        0 <= j < views.len(),
    ensures
        spec_min_seqno(views) <= views[j].seqno,
    decreases views.len(),
{
    if j < views.len() - 1 {
        lemma_min_seqno_le(views.drop_last(), j);
        assert(views.drop_last()[j] == views[j]);
    }
}

/// The maximum is an upper bound for every sequence number in the run.
proof fn lemma_max_seqno_ge(views: Seq<EntrySpec>, j: int)
    requires
        0 <= j < views.len(),
    ensures
        spec_max_seqno(views) >= views[j].seqno,
    decreases views.len(),
{
    if j < views.len() - 1 {
        lemma_max_seqno_ge(views.drop_last(), j);
        assert(views.drop_last()[j] == views[j]);
    }
}

/// Distinct values have distinct little-endian encodings.
proof fn lemma_le64_distinct(a: u64, b: u64)
    requires
        a != b,
    ensures
        spec_le64(a) != spec_le64(b),
{
    crate::coding::lemma_le64_round_trip(a);
    crate::coding::lemma_le64_round_trip(b);
}

pub struct Segment {
    tree_id: u64,
    /// The parsed reserved metadata fields.
    pub metadata: ParsedMeta,
    /// The trailer the segment was recovered through.
    pub trailer: SegmentTrailer,
    tli: IndexBlock,
    entries: Vec<InternalValue>,
    pinned_filter: Option<StandardBloomFilter>,
    is_deleted: bool,
}

impl Segment {
    /// The entries of the segment, in their total order.
    pub closed spec fn spec_entries(&self) -> Seq<EntrySpec> {
        views_of_entries(self.entries@)
    }

    /// The trailer the segment was recovered through.
    pub closed spec fn spec_trailer(&self) -> SegmentTrailer {
        self.trailer
    }

    /// The id of the tree the segment belongs to.
    pub closed spec fn spec_tree_id(&self) -> u64 {
        self.tree_id
    }

    /// The parsed metadata of the segment.
    pub closed spec fn spec_metadata(&self) -> ParsedMeta {
        self.metadata
    }

    /// A recovered segment is internally consistent: entries strictly
    /// sorted, all sequence numbers at or above the metadata floor, and
    /// the pinned filter, when present, holding every key.
    pub closed spec fn inv(&self) -> bool {
        &&& spec_entries_sorted(self.spec_entries())
        &&& forall|j: int|
            0 <= j < self.spec_entries().len() ==> (#[trigger] self.spec_entries()[j].seqno)
                >= self.metadata.seqno_min
        &&& match self.pinned_filter {
            Some(f) => f.wf() && forall|j: int|
                0 <= j < self.spec_entries().len() ==> spec_std_contains(
                    f.bits(),
                    spec_hash_h1(#[trigger] self.spec_entries()[j].key),
                    spec_hash_h2(self.spec_entries()[j].key),
                    f.spec_k(),
                    f.spec_m() as u64,
                ),
            None => true,
        }
    }

    /// Recovers a segment from its byte image: parses trailer, metadata,
    /// top-level index and filter, decodes and validates every data block,
    /// and pins everything in memory.
    #[verifier::rlimit(100)]
    #[verifier::spinoff_prover]
    pub fn recover(bytes: &[u8], tree_id: u64) -> (r: Result<Segment, LsmError>)
        ensures
            match r {
                Ok(s) => {
                    &&& spec_segment_entries(bytes@) == Some(s.spec_entries())
                    &&& s.inv()
                    &&& s.spec_tree_id() == tree_id
                    &&& spec_entries_sorted(s.spec_entries())
                    &&& spec_trailer_parse(bytes@) == Some(s.spec_trailer())
                    &&& s.spec_trailer().wf()
                    &&& s.spec_trailer().index_blocks is None
                    &&& s.spec_entries().len() >= 1
                    &&& s.spec_metadata().item_count as int == s.spec_entries().len() as int
                    &&& s.spec_metadata().index_block_count == 1
                    &&& 1 <= s.spec_metadata().data_block_count as int <= s.spec_entries().len()
                        as int
                    &&& s.spec_metadata().key_range.min@ == s.spec_entries()[0].key
                    &&& s.spec_metadata().key_range.max@ == s.spec_entries().last().key
                    &&& s.spec_metadata().seqno_min == spec_min_seqno(s.spec_entries())
                    &&& s.spec_metadata().seqno_max == spec_max_seqno(s.spec_entries())
                    &&& {
                        let mv = spec_segment_meta_views(bytes@);
                        &&& mv is Some
                        &&& spec_meta_wf(mv.unwrap())
                        &&& spec_meta_field(mv.unwrap(), k_id()) == Some(spec_le64(s.spec_metadata().id))
                        &&& spec_meta_field(mv.unwrap(), k_created_at()) == Some(
                            spec_le128(s.spec_metadata().created_at.0),
                        )
                        &&& spec_meta_field(mv.unwrap(), k_item_count()) == Some(
                            spec_le64(s.spec_metadata().item_count),
                        )
                        &&& spec_meta_field(mv.unwrap(), k_data_block_count()) == Some(
                            spec_le64(s.spec_metadata().data_block_count),
                        )
                        &&& spec_meta_field(mv.unwrap(), k_index_block_count()) == Some(
                            spec_le64(s.spec_metadata().index_block_count),
                        )
                        &&& spec_meta_field(mv.unwrap(), k_key_min()) == Some(
                            s.spec_metadata().key_range.min@,
                        )
                        &&& spec_meta_field(mv.unwrap(), k_key_max()) == Some(
                            s.spec_metadata().key_range.max@,
                        )
                        &&& spec_meta_field(mv.unwrap(), k_seqno_min()) == Some(
                            spec_le64(s.spec_metadata().seqno_min),
                        )
                        &&& spec_meta_field(mv.unwrap(), k_seqno_max()) == Some(
                            spec_le64(s.spec_metadata().seqno_max),
                        )
                    }
                },
                Err(_) => !spec_recover_ok(bytes@),
            },
    {
        let _n: usize = bytes.len();
        let trailer = match SegmentTrailer::parse(bytes) {
            Ok(t) => t,
            Err(e) => {
                proof {
                    assert(!spec_recover_ok(bytes@));
                }
                return Err(e);
            },
        };
        if trailer.index_blocks.is_some() {
            proof {
                assert(!spec_recover_ok(bytes@));
            }
            return Err(LsmError::Corrupt);
        }
        // metadata block
        if trailer.metadata.offset > (bytes.len() as u64) {
            proof {
                crate::block::lemma_block_at_oob(
                    bytes@,
                    trailer.metadata.offset as int,
                    trailer.metadata.size as int,
                    CompressionType::NoCompression,
                );
                assert(!spec_recover_ok(bytes@));
            }
            return Err(LsmError::Corrupt);
        }
        let meta_block = match Block::from_slice(
            bytes,
            trailer.metadata.offset as usize,
            trailer.metadata.size as usize,
            &CompressionType::NoCompression,
        ) {
            Ok(b) => b,
            Err(e) => {
                proof {
                    assert(!spec_recover_ok(bytes@));
                }
                return Err(e);
            },
        };
        let meta_db = match DataBlock::new(&meta_block) {
            Ok(db) => db,
            Err(e) => {
                proof {
                    assert(!spec_recover_ok(bytes@));
                }
                return Err(e);
            },
        };
        let metadata = match ParsedMeta::from_block(&meta_db) {
            Ok(m) => m,
            Err(e) => {
                proof {
                    assert(!spec_recover_ok(bytes@));
                }
                return Err(e);
            },
        };
        let ghost g_mp = meta_block.data@;
        let ghost g_mv = meta_db.views();
        Segment::recover_tli(bytes, tree_id, trailer, metadata, Ghost(g_mp), Ghost(g_mv))
    }

    /// Reads the top-level index and filter blocks of the image and hands
    /// on to the data-block stage.
    #[verifier::rlimit(100)]
    #[verifier::spinoff_prover]
    fn recover_tli(
        bytes: &[u8],
        tree_id: u64,
        trailer: SegmentTrailer,
        metadata: ParsedMeta,
        Ghost(g_mp): Ghost<Seq<u8>>,
        Ghost(g_mv): Ghost<Seq<EntrySpec>>,
    ) -> (r: Result<Segment, LsmError>)
        requires
            spec_trailer_parse(bytes@) == Some(trailer),
            spec_block_at(
                bytes@,
                trailer.metadata.offset as int,
                trailer.metadata.size as int,
                CompressionType::NoCompression,
            ) == Some(g_mp),
            spec_db_parse(g_mp) == Some(g_mv),
            spec_meta_wf(g_mv),
            spec_meta_field(g_mv, k_id()) == Some(spec_le64(metadata.id)),
            spec_meta_field(g_mv, k_created_at()) == Some(spec_le128(metadata.created_at.0)),
            spec_meta_field(g_mv, k_item_count()) == Some(spec_le64(metadata.item_count)),
            spec_meta_field(g_mv, k_data_block_count()) == Some(
                spec_le64(metadata.data_block_count),
            ),
            spec_meta_field(g_mv, k_index_block_count()) == Some(
                spec_le64(metadata.index_block_count),
            ),
            spec_meta_field(g_mv, k_key_min()) == Some(metadata.key_range.min@),
            spec_meta_field(g_mv, k_key_max()) == Some(metadata.key_range.max@),
            spec_meta_field(g_mv, k_seqno_min()) == Some(spec_le64(metadata.seqno_min)),
            spec_meta_field(g_mv, k_seqno_max()) == Some(spec_le64(metadata.seqno_max)),
            spec_meta_compression(g_mv) == Some(metadata.data_block_compression),
            metadata.data_block_compression.wf(),
            trailer.wf(),
            trailer.index_blocks is None,
        ensures
            match r {
                Ok(s) => {
                    &&& spec_segment_entries(bytes@) == Some(s.spec_entries())
                    &&& s.inv()
                    &&& s.spec_tree_id() == tree_id
                    &&& spec_entries_sorted(s.spec_entries())
                    &&& spec_trailer_parse(bytes@) == Some(s.spec_trailer())
                    &&& s.spec_trailer().wf()
                    &&& s.spec_trailer().index_blocks is None
                    &&& s.spec_entries().len() >= 1
                    &&& s.spec_metadata().item_count as int == s.spec_entries().len() as int
                    &&& s.spec_metadata().index_block_count == 1
                    &&& 1 <= s.spec_metadata().data_block_count as int <= s.spec_entries().len()
                        as int
                    &&& s.spec_metadata().key_range.min@ == s.spec_entries()[0].key
                    &&& s.spec_metadata().key_range.max@ == s.spec_entries().last().key
                    &&& s.spec_metadata().seqno_min == spec_min_seqno(s.spec_entries())
                    &&& s.spec_metadata().seqno_max == spec_max_seqno(s.spec_entries())
                    &&& {
                        let mv = spec_segment_meta_views(bytes@);
                        &&& mv is Some
                        &&& spec_meta_wf(mv.unwrap())
                        &&& spec_meta_field(mv.unwrap(), k_id()) == Some(spec_le64(s.spec_metadata().id))
                        &&& spec_meta_field(mv.unwrap(), k_created_at()) == Some(
                            spec_le128(s.spec_metadata().created_at.0),
                        )
                        &&& spec_meta_field(mv.unwrap(), k_item_count()) == Some(
                            spec_le64(s.spec_metadata().item_count),
                        )
                        &&& spec_meta_field(mv.unwrap(), k_data_block_count()) == Some(
                            spec_le64(s.spec_metadata().data_block_count),
                        )
                        &&& spec_meta_field(mv.unwrap(), k_index_block_count()) == Some(
                            spec_le64(s.spec_metadata().index_block_count),
                        )
                        &&& spec_meta_field(mv.unwrap(), k_key_min()) == Some(
                            s.spec_metadata().key_range.min@,
                        )
                        &&& spec_meta_field(mv.unwrap(), k_key_max()) == Some(
                            s.spec_metadata().key_range.max@,
                        )
                        &&& spec_meta_field(mv.unwrap(), k_seqno_min()) == Some(
                            spec_le64(s.spec_metadata().seqno_min),
                        )
                        &&& spec_meta_field(mv.unwrap(), k_seqno_max()) == Some(
                            spec_le64(s.spec_metadata().seqno_max),
                        )
                    }
                },
                Err(_) => !spec_recover_ok(bytes@),
            },
    {
        let comp = metadata.data_block_compression;
        // top-level index block
        if trailer.tli.offset > (bytes.len() as u64) {
            proof {
                crate::block::lemma_block_at_oob(
                    bytes@,
                    trailer.tli.offset as int,
                    trailer.tli.size as int,
                    comp,
                );
                assert(!spec_recover_ok(bytes@));
            }
            return Err(LsmError::Corrupt);
        }
        let tli_block = match Block::from_slice(
            bytes,
            trailer.tli.offset as usize,
            trailer.tli.size as usize,
            &comp,
        ) {
            Ok(b) => b,
            Err(e) => {
                proof {
                    assert(!spec_recover_ok(bytes@));
                }
                return Err(e);
            },
        };
        let ghost g_tp = tli_block.data@;
        let tli = match IndexBlock::new(tli_block) {
            Ok(ib) => ib,
            Err(e) => {
                proof {
                    assert(!spec_recover_ok(bytes@));
                }
                return Err(e);
            },
        };
        // filter block
        let pinned_filter = match &trailer.filter {
            Some(fh) => {
                if fh.offset > (bytes.len() as u64) {
                    proof {
                        crate::block::lemma_block_at_oob(
                            bytes@,
                            fh.offset as int,
                            fh.size as int,
                            CompressionType::NoCompression,
                        );
                        assert(!spec_recover_ok(bytes@));
                    }
                    return Err(LsmError::Corrupt);
                }
                let fb = match Block::from_slice(
                    bytes,
                    fh.offset as usize,
                    fh.size as usize,
                    &CompressionType::NoCompression,
                ) {
                    Ok(b) => b,
                    Err(e) => {
                        proof {
                            assert(!spec_recover_ok(bytes@));
                        }
                        return Err(e);
                    },
                };
                match StandardBloomFilter::decode(fb.data.as_slice()) {
                    Ok(f) => Some(f),
                    Err(e) => {
                        proof {
                            assert(!spec_recover_ok(bytes@)) by {
                                if spec_recover_ok(bytes@) {
                                    let f2 = choose|f2: StandardBloomFilter|
                                        f2.wf() && (#[trigger] f2.spec_encoded()) == fb.data@;
                                    assert(false);
                                }
                            }
                        }
                        return Err(e);
                    },
                }
            },
            None => None,
        };
        Segment::recover_blocks(
            bytes,
            tree_id,
            trailer,
            metadata,
            tli,
            pinned_filter,
            Ghost(g_mp),
            Ghost(g_mv),
        )
    }

    /// Decodes every data block of the image and hands the concatenated
    /// run on for validation.
    #[verifier::rlimit(100)]
    #[verifier::spinoff_prover]
    fn recover_blocks(
        bytes: &[u8],
        tree_id: u64,
        trailer: SegmentTrailer,
        metadata: ParsedMeta,
        tli: IndexBlock,
        pinned_filter: Option<StandardBloomFilter>,
        Ghost(mp): Ghost<Seq<u8>>,
        Ghost(mv): Ghost<Seq<EntrySpec>>,
    ) -> (r: Result<Segment, LsmError>)
        requires
            spec_recover_chain(
                bytes@,
                trailer,
                mp,
                mv,
                metadata.data_block_compression,
                tli.spec_inner_data(),
                tli.views(),
            ),
            spec_meta_wf(mv),
            spec_meta_field(mv, k_id()) == Some(spec_le64(metadata.id)),
            spec_meta_field(mv, k_created_at()) == Some(spec_le128(metadata.created_at.0)),
            spec_meta_field(mv, k_item_count()) == Some(spec_le64(metadata.item_count)),
            spec_meta_field(mv, k_data_block_count()) == Some(spec_le64(metadata.data_block_count)),
            spec_meta_field(mv, k_index_block_count()) == Some(
                spec_le64(metadata.index_block_count),
            ),
            spec_meta_field(mv, k_key_min()) == Some(metadata.key_range.min@),
            spec_meta_field(mv, k_key_max()) == Some(metadata.key_range.max@),
            spec_meta_field(mv, k_seqno_min()) == Some(spec_le64(metadata.seqno_min)),
            spec_meta_field(mv, k_seqno_max()) == Some(spec_le64(metadata.seqno_max)),
            spec_meta_compression(mv) == Some(metadata.data_block_compression),
            metadata.data_block_compression.wf(),
            trailer.wf(),
            trailer.index_blocks is None,
            pinned_filter is Some <==> trailer.filter is Some,
            pinned_filter matches Some(f) ==> f.wf() && spec_block_at(
                bytes@,
                trailer.filter.unwrap().offset as int,
                trailer.filter.unwrap().size as int,
                CompressionType::NoCompression,
            ) == Some(f.spec_encoded()),
            tli.wf(),
            tli.views().len() >= 1,
        ensures
            match r {
                Ok(s) => {
                    &&& spec_segment_entries(bytes@) == Some(s.spec_entries())
                    &&& s.inv()
                    &&& s.spec_tree_id() == tree_id
                    &&& spec_entries_sorted(s.spec_entries())
                    &&& spec_trailer_parse(bytes@) == Some(s.spec_trailer())
                    &&& s.spec_trailer().wf()
                    &&& s.spec_trailer().index_blocks is None
                    &&& s.spec_entries().len() >= 1
                    &&& s.spec_metadata().item_count as int == s.spec_entries().len() as int
                    &&& s.spec_metadata().index_block_count == 1
                    &&& 1 <= s.spec_metadata().data_block_count as int <= s.spec_entries().len()
                        as int
                    &&& s.spec_metadata().key_range.min@ == s.spec_entries()[0].key
                    &&& s.spec_metadata().key_range.max@ == s.spec_entries().last().key
                    &&& s.spec_metadata().seqno_min == spec_min_seqno(s.spec_entries())
                    &&& s.spec_metadata().seqno_max == spec_max_seqno(s.spec_entries())
                    &&& {
                        let mv = spec_segment_meta_views(bytes@);
                        &&& mv is Some
                        &&& spec_meta_wf(mv.unwrap())
                        &&& spec_meta_field(mv.unwrap(), k_id()) == Some(spec_le64(s.spec_metadata().id))
                        &&& spec_meta_field(mv.unwrap(), k_created_at()) == Some(
                            spec_le128(s.spec_metadata().created_at.0),
                        )
                        &&& spec_meta_field(mv.unwrap(), k_item_count()) == Some(
                            spec_le64(s.spec_metadata().item_count),
                        )
                        &&& spec_meta_field(mv.unwrap(), k_data_block_count()) == Some(
                            spec_le64(s.spec_metadata().data_block_count),
                        )
                        &&& spec_meta_field(mv.unwrap(), k_index_block_count()) == Some(
                            spec_le64(s.spec_metadata().index_block_count),
                        )
                        &&& spec_meta_field(mv.unwrap(), k_key_min()) == Some(
                            s.spec_metadata().key_range.min@,
                        )
                        &&& spec_meta_field(mv.unwrap(), k_key_max()) == Some(
                            s.spec_metadata().key_range.max@,
                        )
                        &&& spec_meta_field(mv.unwrap(), k_seqno_min()) == Some(
                            spec_le64(s.spec_metadata().seqno_min),
                        )
                        &&& spec_meta_field(mv.unwrap(), k_seqno_max()) == Some(
                            spec_le64(s.spec_metadata().seqno_max),
                        )
                    }
                },
                Err(_) => !spec_recover_ok(bytes@),
            },
    {
        let ghost comp_g = metadata.data_block_compression;
        let comp = metadata.data_block_compression;
        let handles = tli.handles();
        let ghost hviews = views_of_handles(handles@);
        proof {
            assert(hviews == tli.views());
        }
        let n = handles.len();
        let mut acc: Vec<InternalValue> = Vec::new();
        let mut i: usize = 0;
        while i < n
            invariant
                0 <= i <= n,
                n == hviews.len(),
                hviews == tli.views(),
                views_of_handles(handles@) == hviews,
                handles@.len() == n,
                acc@.len() >= i,
                comp == comp_g,
                comp_g == metadata.data_block_compression,
                spec_recover_chain(bytes@, trailer, mp, mv, comp, tli.spec_inner_data(), hviews),
                trailer.index_blocks is None,
                match spec_blocks_entries(bytes@, hviews, i as int, comp) {
                    Some(rest) => spec_blocks_entries(bytes@, hviews, 0, comp) == Some(
                        views_of_entries(acc@) + rest,
                    ),
                    None => spec_blocks_entries(bytes@, hviews, 0, comp) is None,
                },
            decreases n - i,
        {
            let h = &handles[i];
            proof {
                assert(hviews[i as int] == handles@[i as int]@);
            }
            if h.offset() > (bytes.len() as u64) {
                proof {
                    crate::block::lemma_block_at_oob(
                        bytes@,
                        hviews[i as int].offset as int,
                        hviews[i as int].size as int,
                        comp,
                    );
                    assert(!spec_recover_ok(bytes@));
                }
                return Err(LsmError::Corrupt);
            }
            let blk = match Block::from_slice(bytes, h.offset() as usize, h.size() as usize, &comp) {
                Ok(b) => b,
                Err(e) => {
                    proof {
                        assert(!spec_recover_ok(bytes@));
                    }
                    return Err(e);
                },
            };
            let db = match DataBlock::new(&blk) {
                Ok(db) => db,
                Err(_) => {
                    proof {
                        assert(!spec_recover_ok(bytes@));
                    }
                    return Err(LsmError::Corrupt);
                },
            };
            let ghost old_acc = acc@;
            let mut es = db.into_entries();
            if es.len() == 0 {
                proof {
                    assert(views_of_entries(es@).len() == 0);
                    assert(!spec_recover_ok(bytes@));
                }
                return Err(LsmError::Corrupt);
            }
            let ghost es_views = views_of_entries(es@);
            acc.append(&mut es);
            proof {
                assert(views_of_entries(acc@) =~= views_of_entries(old_acc) + es_views);
                match spec_blocks_entries(bytes@, hviews, i + 1, comp) {
                    Some(rest2) => {
                        assert((views_of_entries(old_acc) + es_views) + rest2
                            =~= views_of_entries(old_acc) + (es_views + rest2));
                    },
                    None => {},
                }
            }
            i = i + 1;
        }
        proof {
            assert(views_of_entries(acc@) + Seq::<EntrySpec>::empty() =~= views_of_entries(acc@));
        }
        Segment::recover_validate(
            bytes,
            tree_id,
            trailer,
            metadata,
            tli,
            pinned_filter,
            acc,
            Ghost(mp),
            Ghost(mv),
        )
    }

    /// Validates ordering, the sequence-number floor and extrema, filter
    /// completeness and the reserved metadata against the decoded run, and
    /// builds the segment.
    #[verifier::rlimit(100)]
    #[verifier::spinoff_prover]
    fn recover_validate(
        bytes: &[u8],
        tree_id: u64,
        trailer: SegmentTrailer,
        metadata: ParsedMeta,
        tli: IndexBlock,
        pinned_filter: Option<StandardBloomFilter>,
        acc: Vec<InternalValue>,
        Ghost(mp): Ghost<Seq<u8>>,
        Ghost(mv): Ghost<Seq<EntrySpec>>,
    ) -> (r: Result<Segment, LsmError>)
        requires
            spec_recover_chain(
                bytes@,
                trailer,
                mp,
                mv,
                metadata.data_block_compression,
                tli.spec_inner_data(),
                tli.views(),
            ),
            spec_meta_wf(mv),
            spec_meta_field(mv, k_id()) == Some(spec_le64(metadata.id)),
            spec_meta_field(mv, k_created_at()) == Some(spec_le128(metadata.created_at.0)),
            spec_meta_field(mv, k_item_count()) == Some(spec_le64(metadata.item_count)),
            spec_meta_field(mv, k_data_block_count()) == Some(spec_le64(metadata.data_block_count)),
            spec_meta_field(mv, k_index_block_count()) == Some(
                spec_le64(metadata.index_block_count),
            ),
            spec_meta_field(mv, k_key_min()) == Some(metadata.key_range.min@),
            spec_meta_field(mv, k_key_max()) == Some(metadata.key_range.max@),
            spec_meta_field(mv, k_seqno_min()) == Some(spec_le64(metadata.seqno_min)),
            spec_meta_field(mv, k_seqno_max()) == Some(spec_le64(metadata.seqno_max)),
            spec_meta_compression(mv) == Some(metadata.data_block_compression),
            metadata.data_block_compression.wf(),
            trailer.wf(),
            trailer.index_blocks is None,
            pinned_filter is Some <==> trailer.filter is Some,
            pinned_filter matches Some(f) ==> f.wf() && spec_block_at(
                bytes@,
                trailer.filter.unwrap().offset as int,
                trailer.filter.unwrap().size as int,
                CompressionType::NoCompression,
            ) == Some(f.spec_encoded()),
            tli.views().len() >= 1,
            tli.views().len() <= acc@.len(),
            spec_blocks_entries(bytes@, tli.views(), 0, metadata.data_block_compression) == Some(
                views_of_entries(acc@),
            ),
        ensures
            match r {
                Ok(s) => {
                    &&& spec_segment_entries(bytes@) == Some(s.spec_entries())
                    &&& s.inv()
                    &&& s.spec_tree_id() == tree_id
                    &&& spec_entries_sorted(s.spec_entries())
                    &&& spec_trailer_parse(bytes@) == Some(s.spec_trailer())
                    &&& s.spec_trailer().wf()
                    &&& s.spec_trailer().index_blocks is None
                    &&& s.spec_entries().len() >= 1
                    &&& s.spec_metadata().item_count as int == s.spec_entries().len() as int
                    &&& s.spec_metadata().index_block_count == 1
                    &&& 1 <= s.spec_metadata().data_block_count as int <= s.spec_entries().len()
                        as int
                    &&& s.spec_metadata().key_range.min@ == s.spec_entries()[0].key
                    &&& s.spec_metadata().key_range.max@ == s.spec_entries().last().key
                    &&& s.spec_metadata().seqno_min == spec_min_seqno(s.spec_entries())
                    &&& s.spec_metadata().seqno_max == spec_max_seqno(s.spec_entries())
                    &&& {
                        let mv = spec_segment_meta_views(bytes@);
                        &&& mv is Some
                        &&& spec_meta_wf(mv.unwrap())
                        &&& spec_meta_field(mv.unwrap(), k_id()) == Some(spec_le64(s.spec_metadata().id))
                        &&& spec_meta_field(mv.unwrap(), k_created_at()) == Some(
                            spec_le128(s.spec_metadata().created_at.0),
                        )
                        &&& spec_meta_field(mv.unwrap(), k_item_count()) == Some(
                            spec_le64(s.spec_metadata().item_count),
                        )
                        &&& spec_meta_field(mv.unwrap(), k_data_block_count()) == Some(
                            spec_le64(s.spec_metadata().data_block_count),
                        )
                        &&& spec_meta_field(mv.unwrap(), k_index_block_count()) == Some(
                            spec_le64(s.spec_metadata().index_block_count),
                        )
                        &&& spec_meta_field(mv.unwrap(), k_key_min()) == Some(
                            s.spec_metadata().key_range.min@,
                        )
                        &&& spec_meta_field(mv.unwrap(), k_key_max()) == Some(
                            s.spec_metadata().key_range.max@,
                        )
                        &&& spec_meta_field(mv.unwrap(), k_seqno_min()) == Some(
                            spec_le64(s.spec_metadata().seqno_min),
                        )
                        &&& spec_meta_field(mv.unwrap(), k_seqno_max()) == Some(
                            spec_le64(s.spec_metadata().seqno_max),
                        )
                    }
                },
                Err(_) => !spec_recover_ok(bytes@),
            },
    {
        let ghost comp = metadata.data_block_compression;
        let ghost hviews = tli.views();
        let ghost es_g = views_of_entries(acc@);
        // validate global ordering
        let mut si: usize = 1;
        while si < acc.len()
            invariant
                acc@.len() == 0 || 1 <= si,
                si <= acc@.len() + 1,
                es_g == views_of_entries(acc@),
                spec_recover_chain(bytes@, trailer, mp, mv, comp, tli.spec_inner_data(), hviews),
                trailer.index_blocks is None,
                hviews == tli.views(),
                comp == metadata.data_block_compression,
                spec_blocks_entries(bytes@, hviews, 0, comp) == Some(es_g),
                forall|x: int|
                    0 <= x < si - 1 && x < acc@.len() - 1 ==> spec_entry_lt(
                        #[trigger] views_of_entries(acc@)[x],
                        views_of_entries(acc@)[x + 1],
                    ),
            decreases acc@.len() - si,
        {
            if !crate::value::entry_lt(&acc[si - 1], &acc[si]) {
                proof {
                    assert(views_of_entries(acc@)[si - 1] == acc@[si - 1]@);
                    assert(views_of_entries(acc@)[si as int] == acc@[si as int]@);
                    assert(!spec_entries_sorted(es_g));
                    assert(!spec_recover_ok(bytes@));
                }
                return Err(LsmError::Corrupt);
            }
            proof {
                assert(views_of_entries(acc@)[si - 1] == acc@[si - 1]@);
                assert(views_of_entries(acc@)[si as int] == acc@[si as int]@);
            }
            si = si + 1;
        }
        // validate the sequence-number extrema
        let mut lo: u64 = u64::MAX;
        let mut hi: u64 = 0;
        let mut mi: usize = 0;
        while mi < acc.len()
            invariant
                0 <= mi <= acc@.len(),
                lo == spec_min_seqno(views_of_entries(acc@).take(mi as int)),
                hi == spec_max_seqno(views_of_entries(acc@).take(mi as int)),
            decreases acc@.len() - mi,
        {
            proof {
                assert(views_of_entries(acc@).take(mi + 1).drop_last() =~= views_of_entries(
                    acc@,
                ).take(mi as int));
                assert(views_of_entries(acc@).take(mi + 1).last() == acc@[mi as int]@);
            }
            if acc[mi].seqno < lo {
                lo = acc[mi].seqno;
            }
            if acc[mi].seqno > hi {
                hi = acc[mi].seqno;
            }
            mi = mi + 1;
        }
        proof {
            assert(views_of_entries(acc@).take(acc@.len() as int) =~= views_of_entries(acc@));
        }
        if metadata.seqno_min != lo {
            proof {
                lemma_le64_distinct(metadata.seqno_min, lo);
                assert(!spec_recover_ok(bytes@));
            }
            return Err(LsmError::Corrupt);
        }
        if metadata.seqno_max != hi {
            proof {
                lemma_le64_distinct(metadata.seqno_max, hi);
                assert(!spec_recover_ok(bytes@));
            }
            return Err(LsmError::Corrupt);
        }
        // validate filter completeness
        if let Some(f) = &pinned_filter {
            let mut fi: usize = 0;
            while fi < acc.len()
                invariant
                    0 <= fi <= acc@.len(),
                    f.wf(),
                    es_g == views_of_entries(acc@),
                    spec_recover_chain(
                        bytes@,
                        trailer,
                        mp,
                        mv,
                        comp,
                        tli.spec_inner_data(),
                        hviews,
                    ),
                    trailer.index_blocks is None,
                    hviews == tli.views(),
                    comp == metadata.data_block_compression,
                    spec_blocks_entries(bytes@, hviews, 0, comp) == Some(es_g),
                    trailer.filter is Some,
                    spec_block_at(
                        bytes@,
                        trailer.filter.unwrap().offset as int,
                        trailer.filter.unwrap().size as int,
                        CompressionType::NoCompression,
                    ) == Some(f.spec_encoded()),
                    forall|x: int|
                        0 <= x < fi ==> spec_std_contains(
                            f.bits(),
                            spec_hash_h1(#[trigger] views_of_entries(acc@)[x].key),
                            spec_hash_h2(views_of_entries(acc@)[x].key),
                            f.spec_k(),
                            f.spec_m() as u64,
                        ),
                decreases acc@.len() - fi,
            {
                let h = composite_hash(acc[fi].user_key.as_slice());
                if !f.contains_hash(h) {
                    proof {
                        assert(views_of_entries(acc@)[fi as int] == acc@[fi as int]@);
                        assert(!spec_recover_ok(bytes@)) by {
                            if spec_recover_ok(bytes@) {
                                let f2 = choose|f2: StandardBloomFilter|
                                    {
                                        &&& f2.wf()
                                        &&& (#[trigger] f2.spec_encoded()) == f.spec_encoded()
                                        &&& forall|j: int|
                                            0 <= j < es_g.len() ==> spec_std_contains(
                                                f2.bits(),
                                                spec_hash_h1((#[trigger] es_g[j]).key),
                                                spec_hash_h2(es_g[j].key),
                                                f2.spec_k(),
                                                f2.spec_m() as u64,
                                            )
                                    };
                                crate::standard_bloom::lemma_encoded_pins(f2, *f);
                                assert(spec_std_contains(
                                    f.bits(),
                                    spec_hash_h1(es_g[fi as int].key),
                                    spec_hash_h2(es_g[fi as int].key),
                                    f.spec_k(),
                                    f.spec_m() as u64,
                                ));
                                assert(false);
                            }
                        }
                    }
                    return Err(LsmError::Corrupt);
                }
                proof {
                    assert(views_of_entries(acc@)[fi as int] == acc@[fi as int]@);
                }
                fi = fi + 1;
            }
        }
        // validate the reserved metadata against the decoded entries
        if acc.len() == 0 {
            proof {
                assert(!spec_recover_ok(bytes@));
            }
            return Err(LsmError::Corrupt);
        }
        if metadata.item_count != acc.len() as u64 {
            proof {
                lemma_le64_distinct(metadata.item_count, acc.len() as u64);
                assert(!spec_recover_ok(bytes@));
            }
            return Err(LsmError::Corrupt);
        }
        if metadata.index_block_count != 1 {
            proof {
                lemma_le64_distinct(metadata.index_block_count, 1u64);
                assert(!spec_recover_ok(bytes@));
            }
            return Err(LsmError::Corrupt);
        }
        let th = tli.handles();
        let n = th.len();
        proof {
            assert(views_of_handles(th@) == tli.views());
        }
        if metadata.data_block_count != n as u64 {
            proof {
                lemma_le64_distinct(metadata.data_block_count, n as u64);
                assert(!spec_recover_ok(bytes@));
            }
            return Err(LsmError::Corrupt);
        }
        proof {
            assert(views_of_entries(acc@)[0].key == acc@[0]@.key);
            assert(views_of_entries(acc@).last() == acc@[acc@.len() - 1]@);
        }
        if !crate::bytes_util::bytes_eq(
            metadata.key_range.min.as_slice(),
            acc[0].user_key.as_slice(),
        ) {
            proof {
                assert(!spec_recover_ok(bytes@));
            }
            return Err(LsmError::Corrupt);
        }
        if !crate::bytes_util::bytes_eq(
            metadata.key_range.max.as_slice(),
            acc[acc.len() - 1].user_key.as_slice(),
        ) {
            proof {
                assert(!spec_recover_ok(bytes@));
            }
            return Err(LsmError::Corrupt);
        }
        proof {
            reveal(spec_segment_entries);
            assert(spec_segment_meta_views(bytes@) == Some(mv));
            assert forall|j: int| 0 <= j < es_g.len() implies (#[trigger] es_g[j].seqno)
                >= metadata.seqno_min by {
                lemma_min_seqno_le(es_g, j);
            }
        }
        Ok(
            Segment {
                tree_id,
                metadata,
                trailer,
                tli,
                entries: acc,
                pinned_filter,
                is_deleted: false,
            },
        )
    }

    /// Gets the segment id, unique within its tree.
    pub fn id(&self) -> (r: u64)
        ensures
            r == self.spec_metadata().id,
    {
        self.metadata.id
    }

    /// Gets the global segment id: the tree id paired with the segment id.
    pub fn global_id(&self) -> (r: GlobalSegmentId)
        ensures
            r == (self.spec_tree_id(), self.spec_metadata().id),
    {
        (self.tree_id, self.metadata.id)
    }

    /// Size of the pinned filter block body in bytes; zero when the
    /// segment carries no filter.
    pub fn bloom_filter_size(&self) -> (r: usize)
        ensures
            match self.spec_filter() {
                Some(f) => r == f.bits().len(),
                None => r == 0,
            },
    {
        match &self.pinned_filter {
            Some(f) => f.len(),
            None => 0,
        }
    }

    /// The pinned filter, if the segment carries one.
    pub closed spec fn spec_filter(&self) -> Option<StandardBloomFilter> {
        self.pinned_filter
    }

    /// Point read inside the segment: the newest version of `key` visible
    /// below the snapshot, if any.
    pub fn point_read(&self, key: &[u8], seqno: Option<u64>) -> (r: Option<InternalValue>)
        ensures
            match r {
                Some(e) => spec_point_read_from(self.spec_entries(), key@, seqno, 0) == Some(e@),
                None => spec_point_read_from(self.spec_entries(), key@, seqno, 0) is None,
            },
    {
        let mut i: usize = 0;
        while i < self.entries.len()
            invariant
                0 <= i <= self.entries@.len(),
                spec_point_read_from(self.spec_entries(), key@, seqno, 0) == spec_point_read_from(
                    self.spec_entries(),
                    key@,
                    seqno,
                    i as int,
                ),
            decreases self.entries@.len() - i,
        {
            let e = &self.entries[i];
            proof {
                assert(self.spec_entries()[i as int] == e@);
            }
            if crate::bytes_util::bytes_eq(e.user_key.as_slice(), key) {
                let visible = match seqno {
                    Some(s) => e.seqno < s,
                    None => true,
                };
                if visible {
                    return Some(e.duplicate());
                }
            }
            i = i + 1;
        }
        None
    }

    /// Reads `key` as of the snapshot `seqno`, first consulting the
    /// sequence number gate and the pinned filter.  `key_hash` must be the
    /// composite hash of `key`.  Returns exactly the newest visible
    /// version of the key among the segment's entries, or nothing.
    pub fn get(&self, key: &[u8], seqno: Option<u64>, key_hash: CompositeHash) -> (r: Result<
        Option<InternalValue>,
        LsmError,
    >)
        requires
            self.inv(),
            key_hash.0 == spec_hash_h1(key@),
            key_hash.1 == spec_hash_h2(key@),
        ensures
            match r {
                Ok(o) => match o {
                    Some(e) => spec_point_read_from(self.spec_entries(), key@, seqno, 0) == Some(
                        e@,
                    ),
                    None => spec_point_read_from(self.spec_entries(), key@, seqno, 0) is None,
                },
                Err(_) => false,
            },
    {
        if let Some(s) = seqno {
            if self.metadata.seqno_min >= s {
                proof {
                    lemma_seqno_gate(self.spec_entries(), key@, s, self.metadata.seqno_min, 0);
                }
                return Ok(None);
            }
        }
        if let Some(f) = &self.pinned_filter {
            if !f.contains_hash(key_hash) {
                proof {
                    lemma_filter_gate(
                        self.spec_entries(),
                        key@,
                        seqno,
                        f.bits(),
                        f.spec_k(),
                        f.spec_m() as u64,
                        0,
                    );
                }
                return Ok(None);
            }
        }
        Ok(self.point_read(key, seqno))
    }

    /// Scans the whole segment, yielding a copy of every entry in order.
    pub fn scan(&self) -> (r: Result<Vec<InternalValue>, LsmError>)
        ensures
            match r {
                Ok(es) => views_of_entries(es@) == self.spec_entries(),
                Err(_) => false,
            },
    {
        let mut out: Vec<InternalValue> = Vec::new();
        let mut i: usize = 0;
        while i < self.entries.len()
            invariant
                0 <= i <= self.entries@.len(),
                views_of_entries(out@) == self.spec_entries().take(i as int),
            decreases self.entries@.len() - i,
        {
            proof {
                assert(self.spec_entries()[i as int] == self.entries@[i as int]@);
            }
            let ghost old_out = out@;
            proof {
                assert(views_of_entries(old_out).len() == old_out.len());
                assert(old_out.len() == i);
            }
            let dup = self.entries[i].duplicate();
            proof {
                assert(dup@ == self.entries@[i as int]@);
            }
            out.push(dup);
            proof {
                assert(out@ == old_out.push(dup));
                assert(out@[i as int]@ == self.entries@[i as int]@);
                assert forall|j: int|
                    0 <= j < i + 1 implies #[trigger] views_of_entries(out@)[j]
                    == self.spec_entries().take(i + 1)[j] by {
                    if j < i {
                        assert(out@[j] == old_out[j]);
                        assert(views_of_entries(old_out)[j] == self.spec_entries().take(
                            i as int,
                        )[j]);
                    }
                }
                assert(views_of_entries(out@) =~= self.spec_entries().take(i + 1));
            }
            i = i + 1;
        }
        proof {
            assert(self.spec_entries().take(self.entries@.len() as int) =~= self.spec_entries());
        }
        Ok(out)
    }

    /// The entries of the segment, in order, borrowed.
    pub fn iter(&self) -> (r: &Vec<InternalValue>)
        ensures
            views_of_entries(r@) == self.spec_entries(),
    {
        &self.entries
    }

    /// The entries with keys between `lo` and `hi`, inclusive, in order.
    pub fn range(&self, lo: &[u8], hi: &[u8]) -> (r: Vec<InternalValue>)
        ensures
            views_of_entries(r@) == spec_range_from(self.spec_entries(), lo@, hi@, 0),
    {
        let mut out: Vec<InternalValue> = Vec::new();
        let mut i: usize = 0;
        proof {
            assert(views_of_entries(out@) + spec_range_from(self.spec_entries(), lo@, hi@, 0)
                =~= spec_range_from(self.spec_entries(), lo@, hi@, 0));
        }
        while i < self.entries.len()
            invariant
                0 <= i <= self.entries@.len(),
                views_of_entries(out@) + spec_range_from(self.spec_entries(), lo@, hi@, i as int)
                    == spec_range_from(self.spec_entries(), lo@, hi@, 0),
            decreases self.entries@.len() - i,
        {
            let e = &self.entries[i];
            proof {
                assert(self.spec_entries()[i as int] == e@);
            }
            if bytes_le(lo, e.user_key.as_slice()) && bytes_le(e.user_key.as_slice(), hi) {
                out.push(e.duplicate());
                proof {
                    assert(views_of_entries(out@) =~= views_of_entries(out@.drop_last()).push(e@));
                }
            }
            proof {
                assert(views_of_entries(out@) + spec_range_from(
                    self.spec_entries(),
                    lo@,
                    hi@,
                    i + 1,
                ) =~= spec_range_from(self.spec_entries(), lo@, hi@, 0));
            }
            i = i + 1;
        }
        out
    }

    /// Whether `key` lies inside the segment's recorded key range.
    pub fn is_key_in_key_range(&self, key: &[u8]) -> (r: bool)
        ensures
            r == self.spec_metadata().key_range.spec_contains_key(key@),
    {
        self.metadata.key_range.contains_key(key)
    }

    /// Whether another key range overlaps this segment's.
    pub fn check_key_range_overlap(&self, other: &KeyRange) -> (r: bool)
        ensures
            r == self.spec_metadata().key_range.spec_overlaps(other),
    {
        self.metadata.key_range.overlaps_with(other)
    }

    /// The highest sequence number in the segment, from the metadata.
    pub fn get_highest_seqno(&self) -> (r: u64)
        ensures
            r == self.spec_metadata().seqno_max,
    {
        self.metadata.seqno_max
    }

    /// Counts the tombstone markers among the entries.
    pub fn tombstone_count(&self) -> (r: u64)
        ensures
            self.spec_entries().len() <= u64::MAX ==> r == spec_tombstone_count_from(
                self.spec_entries(),
                0,
            ),
    {
        let mut count: u64 = 0;
        let mut i: usize = 0;
        proof {
            lemma_tombstone_count_bounds(self.spec_entries(), 0);
        }
        while i < self.entries.len()
            invariant
                0 <= i <= self.entries@.len(),
                count == spec_tombstone_count_from(self.spec_entries(), 0)
                    - spec_tombstone_count_from(self.spec_entries(), i as int),
                0 <= count <= i,
            decreases self.entries@.len() - i,
        {
            proof {
                assert(self.spec_entries()[i as int] == self.entries@[i as int]@);
                lemma_tombstone_count_bounds(self.spec_entries(), i as int);
                lemma_tombstone_count_bounds(self.spec_entries(), i + 1);
            }
            if matches!(self.entries[i].value_type, ValueType::Tombstone) {
                if count < u64::MAX {
                    count = count + 1;
                }
            }
            i = i + 1;
        }
        count
    }

    /// Marks the segment as logically deleted: readers holding it continue
    /// to serve, and the backing file may be unlinked once they drop it.
    pub fn mark_as_deleted(&mut self)
        ensures
            final(self).spec_is_deleted(),
            final(self).spec_entries() == old(self).spec_entries(),
            final(self).spec_metadata() == old(self).spec_metadata(),
    {
        self.is_deleted = true;
    }

    /// Whether the segment was marked deleted.
    pub closed spec fn spec_is_deleted(&self) -> bool {
        self.is_deleted
    }

    /// Whether the segment was marked deleted.
    pub fn is_deleted(&self) -> (r: bool)
        ensures
            r == self.spec_is_deleted(),
    {
        self.is_deleted
    }
}

/// The tombstone count of a suffix is between zero and its length.
proof fn lemma_tombstone_count_bounds(views: Seq<EntrySpec>, i: int)
    requires
        0 <= i,
    ensures
        0 <= spec_tombstone_count_from(views, i) <= (if i <= views.len() {
            views.len() - i
        } else {
            0
        }),
    decreases views.len() - i,
{
    if i < views.len() {
        lemma_tombstone_count_bounds(views, i + 1);
    }
}

} // verus!
