use lsm_tree::blocked_bloom::BlockedBloomFilter;
use lsm_tree::compression::CompressionType;
use lsm_tree::key_range::KeyRange;
use lsm_tree::meta::{ParsedMeta, Timestamp};
use lsm_tree::level_manifest::{decode_manifest, encode_manifest, LevelManifest};
use lsm_tree::standard_bloom::{Builder, StandardBloomFilter};

#[test]
fn standard_bloom_basic() {
    let mut builder = Builder::with_bpk(10, 10);
    let keys: Vec<&[u8]> = vec![
        b"item0", b"item1", b"item2", b"item3", b"item4", b"item5", b"item6", b"item7", b"item8",
        b"item9",
    ];
    for key in &keys {
        builder.set_with_hash(Builder::get_hash(key));
    }
    let filter = builder.build();
    for key in &keys {
        assert!(filter.contains(key));
    }
    assert!(!filter.contains(b"asdasdasdasdasdasdasd"));
}

#[test]
fn standard_bloom_codec() {
    let mut builder = Builder::with_bpk(4, 12);
    builder.set_with_hash(Builder::get_hash(b"alpha"));
    builder.set_with_hash(Builder::get_hash(b"beta"));
    let filter = builder.build();
    let bytes = filter.encode();
    let back = StandardBloomFilter::decode(&bytes).unwrap();
    assert!(back.contains(b"alpha"));
    assert!(back.contains(b"beta"));
    assert_eq!(filter.hash_fn_count(), back.hash_fn_count());
    assert_eq!(filter.len(), back.len());
}

#[test]
fn blocked_bloom_basic_bpk() {
    let mut filter = BlockedBloomFilter::with_bpk(10, 10);
    let keys: Vec<&[u8]> = vec![
        b"item0", b"item1", b"item2", b"item3", b"item4", b"item5", b"item6", b"item7", b"item8",
        b"item9",
    ];
    for key in &keys {
        assert!(!filter.contains(key));
        filter.set_with_hash(BlockedBloomFilter::get_hash(key));
        assert!(filter.contains(key));
        assert!(!filter.contains(b"asdasdasdasdasdasdasd"));
    }
    assert!(filter.len() >= 64);
    assert!(filter.hash_fn_count() >= 1);
}

#[test]
fn manifest_codec_round_trip() {
    let lists: Vec<Vec<u64>> = vec![vec![4, 3, 2, 1], vec![], vec![10, 11]];
    let bytes = encode_manifest(&lists).unwrap();
    let back = decode_manifest(&bytes).unwrap();
    assert_eq!(lists, back);
}

#[test]
fn manifest_codec_rejects_torn_rewrite() {
    // the previously committed state
    let old_state: Vec<Vec<u64>> = vec![vec![1, 2], vec![3]];
    let old_bytes = encode_manifest(&old_state).unwrap();

    // a rewrite that crashed mid-way leaves a truncated image behind
    let new_state: Vec<Vec<u64>> = vec![vec![1, 2, 9], vec![3], vec![7]];
    let new_bytes = encode_manifest(&new_state).unwrap();
    let torn = &new_bytes[..new_bytes.len() - 5];
    assert!(decode_manifest(torn).is_err());

    // a corrupted image is rejected by its checksum
    let mut bad = new_bytes.clone();
    bad[6] ^= 1;
    assert!(decode_manifest(&bad).is_err());

    // the reader falls back to the old image, which still decodes
    assert_eq!(old_state, decode_manifest(&old_bytes).unwrap());
}

#[test]
fn manifest_hide_show_and_views() {
    let seg = |id: u64, lo: &[u8], hi: &[u8]| ParsedMeta {
        id,
        created_at: Timestamp(0),
        data_block_count: 0,
        index_block_count: 0,
        key_range: KeyRange::new(lo.to_vec(), hi.to_vec()),
        seqno_min: 0,
        seqno_max: id,
        file_size: 10,
        item_count: 0,
        data_block_compression: CompressionType::NoCompression,
    };

    let mut m = LevelManifest::new(3);
    m.add(seg(1, b"a", b"c"));
    m.add(seg(2, b"d", b"f"));
    // deeper levels keep newest first; give the later run the newer segment
    m.insert_into_level(1, seg(3, b"d", b"f"));
    m.insert_into_level(1, seg(4, b"a", b"c"));

    assert_eq!(40, m.size());
    assert_eq!(2, m.resolved_level(0).len());

    m.hide_segments(&vec![2]);
    assert!(m.is_hidden(2));
    assert!(m.is_busy(0));
    assert!(!m.is_busy(1));
    assert_eq!(1, m.resolved_level(0).len());

    m.show_segments(&vec![2]);
    assert!(!m.is_hidden(2));
    assert_eq!(2, m.resolved_level(0).len());

    // level 1 holds an ascending disjoint run; level 0 does not once ranges overlap
    assert!(m.resolved_level(1).is_disjoint());
    m.add(seg(5, b"a", b"z"));
    assert!(!m.resolved_level(0).is_disjoint());
}
