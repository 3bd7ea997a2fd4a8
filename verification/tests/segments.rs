use lsm_tree::block::Block;
use lsm_tree::compression::CompressionType;
use lsm_tree::error::LsmError;
use lsm_tree::segment::{Segment, Writer, WriterOptions};
use lsm_tree::value::{InternalValue, ValueType};

fn opts(segment_id: u64, block_size: u32, compression: CompressionType) -> WriterOptions {
    WriterOptions {
        segment_id,
        data_block_size: block_size,
        compression,
        created_at_micros: 0,
        bloom_bits_per_key: 10,
    }
}

fn entry(key: &[u8], value: &[u8], seqno: u64, vt: ValueType) -> InternalValue {
    InternalValue::from_components(key.to_vec(), value.to_vec(), seqno, vt)
}

#[test]
fn v3_segment_recover() {
    let mut writer = Writer::new(opts(5, 5, CompressionType::NoCompression));
    writer
        .write(entry(b"abc", b"asdasdasd", 3, ValueType::Value))
        .unwrap();
    let file = writer.finish().unwrap();

    let segment = Segment::recover(&file, 0).unwrap();

    assert_eq!(5, segment.id());
    assert_eq!(1, segment.metadata.item_count);
    assert_eq!(1, segment.metadata.data_block_count);
    assert_eq!(1, segment.metadata.index_block_count); // full index: only the TLI exists
    assert!(
        segment.trailer.index_blocks.is_none(),
        "should use full index, so only TLI exists",
    );

    assert_eq!(
        b"abc",
        &*segment.point_read(b"abc", None).unwrap().user_key,
    );
    assert_eq!(
        b"abc",
        &*segment.point_read(b"abc", None).unwrap().user_key,
    );
    assert_eq!(None, segment.point_read(b"def", None));

    assert_eq!(segment.metadata.key_range.min, b"abc".to_vec());
    assert_eq!(segment.metadata.key_range.max, b"abc".to_vec());
}

#[test]
fn v3_segment_scan() {
    let items = [
        entry(b"abc", b"asdasdasd", 3, ValueType::Value),
        entry(b"def", b"asdasdasd", 3, ValueType::Value),
        entry(b"xyz", b"asdasdasd", 3, ValueType::Value),
    ];

    let mut writer = Writer::new(opts(5, 5, CompressionType::NoCompression));
    for item in items.iter() {
        writer.write(item.clone()).unwrap();
    }
    let file = writer.finish().unwrap();

    let segment = Segment::recover(&file, 0).unwrap();

    assert_eq!(5, segment.id());
    assert_eq!(3, segment.metadata.item_count);
    assert_eq!(1, segment.metadata.index_block_count);
    assert!(
        segment.trailer.index_blocks.is_none(),
        "should use full index, so only TLI exists",
    );

    assert_eq!(b"abc", &*segment.point_read(b"abc", None).unwrap().user_key);
    assert_eq!(b"def", &*segment.point_read(b"def", None).unwrap().user_key);
    assert_eq!(b"xyz", &*segment.point_read(b"xyz", None).unwrap().user_key);
    assert_eq!(None, segment.point_read(b"____", None));

    assert_eq!(items.to_vec(), segment.scan().unwrap());

    assert_eq!(segment.metadata.key_range.min, b"abc".to_vec());
    assert_eq!(segment.metadata.key_range.max, b"xyz".to_vec());
}

#[test]
fn segment_round_trip_many_entries_lz4() {
    let mut writer = Writer::new(opts(7, 64, CompressionType::Lz4));
    let mut items = Vec::new();
    for i in 0..200u64 {
        let key = format!("key{i:05}");
        let value = format!("value-{i}-{}", "x".repeat((i % 13) as usize));
        let e = entry(key.as_bytes(), value.as_bytes(), 1000 - i, ValueType::Value);
        items.push(e.clone());
        writer.write(e).unwrap();
    }
    let file = writer.finish().unwrap();

    let segment = Segment::recover(&file, 3).unwrap();
    assert_eq!(200, segment.metadata.item_count);
    assert!(segment.metadata.data_block_count > 1);
    assert_eq!(items, segment.scan().unwrap());

    // the newest visible version below a snapshot
    let e = segment.point_read(b"key00010", Some(991)).unwrap();
    assert_eq!(990, e.seqno);
    // the snapshot gate: nothing below the floor
    assert_eq!(None, segment.point_read(b"key00010", Some(990)));
}

#[test]
fn segment_versions_and_tombstones() {
    let mut writer = Writer::new(opts(1, 4096, CompressionType::NoCompression));
    writer.write(entry(b"a", b"", 9, ValueType::Tombstone)).unwrap();
    writer.write(entry(b"a", b"old", 5, ValueType::Value)).unwrap();
    writer.write(entry(b"b", b"keep", 7, ValueType::Value)).unwrap();
    let file = writer.finish().unwrap();

    let segment = Segment::recover(&file, 0).unwrap();
    assert_eq!(1, segment.tombstone_count());
    // the newest version of "a" is the tombstone
    let newest = segment.point_read(b"a", None).unwrap();
    assert_eq!(ValueType::Tombstone, newest.value_type);
    // below the tombstone's seqno, the old value shows
    let old = segment.point_read(b"a", Some(9)).unwrap();
    assert_eq!(b"old".to_vec(), old.value);
    assert_eq!(9, segment.get_highest_seqno());
    assert!(segment.is_key_in_key_range(b"a"));
    assert!(!segment.is_key_in_key_range(b"zzz"));

    // range scan
    let r = segment.range(b"a", b"a");
    assert_eq!(2, r.len());
}

#[test]
fn segment_get_uses_filter_and_gate() {
    let mut writer = Writer::new(opts(1, 4096, CompressionType::NoCompression));
    writer.write(entry(b"abc", b"v", 3, ValueType::Value)).unwrap();
    let file = writer.finish().unwrap();
    let segment = Segment::recover(&file, 0).unwrap();

    assert!(segment.bloom_filter_size() > 0);

    let h = lsm_tree::hashes::composite_hash(b"abc");
    let got = segment.get(b"abc", None, h).unwrap().unwrap();
    assert_eq!(b"v".to_vec(), got.value);

    let h2 = lsm_tree::hashes::composite_hash(b"missing");
    assert!(segment.get(b"missing", None, h2).unwrap().is_none());

    // seqno gate: segment's lowest seqno is 3, so a snapshot at 3 sees nothing
    let got = segment.get(b"abc", Some(3), h).unwrap();
    assert!(got.is_none());
    let got = segment.get(b"abc", Some(4), h).unwrap();
    assert!(got.is_some());
}

#[test]
fn segment_rejects_unordered_writes() {
    let mut writer = Writer::new(opts(1, 4096, CompressionType::NoCompression));
    writer.write(entry(b"b", b"1", 3, ValueType::Value)).unwrap();
    assert!(writer.write(entry(b"a", b"2", 3, ValueType::Value)).is_err());
    // same key must have strictly decreasing seqnos
    assert!(writer.write(entry(b"b", b"2", 3, ValueType::Value)).is_err());
    assert!(writer.write(entry(b"b", b"2", 2, ValueType::Value)).is_ok());
}

#[test]
fn block_checksum_detects_corruption() {
    let mut out = Vec::new();
    let payload = b"hello block payload".to_vec();
    let header =
        Block::write_into(&mut out, &payload, &CompressionType::NoCompression).unwrap();
    let size = out.len();
    assert_eq!(header.uncompressed_length as usize, payload.len());

    let ok = Block::from_slice(&out, 0, size, &CompressionType::NoCompression).unwrap();
    assert_eq!(payload, ok.data);

    // flip one payload byte: the checksum must catch it
    let mut bad = out.clone();
    let last = bad.len() - 1;
    bad[last] ^= 0xff;
    let err = Block::from_slice(&bad, 0, size, &CompressionType::NoCompression);
    assert!(err.is_err());
}

#[test]
fn compression_tag_round_trip() {
    for c in [
        CompressionType::NoCompression,
        CompressionType::Lz4,
        CompressionType::Miniz(6),
    ] {
        let mut out = Vec::new();
        c.encode_into(&mut out);
        assert_eq!(2, out.len());
        assert_eq!(c, CompressionType::decode_from(&out, 0).unwrap());
    }

    // unknown tag byte
    assert_eq!(
        Err(LsmError::InvalidTag(9)),
        CompressionType::decode_from(&[9, 0], 0)
    );
    // over-range miniz level
    assert_eq!(
        Err(LsmError::Corrupt),
        CompressionType::decode_from(&[2, 11], 0)
    );
}

#[test]
fn flush_to_segment_round_trip() {
    let items = vec![
        entry(b"k1", b"v1", 30, ValueType::Value),
        entry(b"k2", b"v2", 20, ValueType::Value),
        entry(b"k3", b"", 10, ValueType::Tombstone),
    ];
    let image =
        lsm_tree::segment::flush_to_segment(opts(9, 4096, CompressionType::Miniz(6)), items.clone())
            .unwrap();
    let segment = Segment::recover(&image, 1).unwrap();
    assert_eq!(9, segment.id());
    assert_eq!(items, segment.scan().unwrap());
    assert_eq!((1, 9), segment.global_id());
}
