use lsm_tree::compaction::{Choice, CompactionInput, LevelledStrategy};
use lsm_tree::compression::CompressionType;
use lsm_tree::config::Config;
use lsm_tree::key_range::KeyRange;
use lsm_tree::level_manifest::LevelManifest;
use lsm_tree::meta::{ParsedMeta, Timestamp};

fn string_key_range(a: &str, b: &str) -> KeyRange {
    KeyRange::new(a.as_bytes().to_vec(), b.as_bytes().to_vec())
}

fn fixture_segment(id: u64, key_range: KeyRange, size: u64) -> ParsedMeta {
    ParsedMeta {
        id,
        created_at: Timestamp(id as u128),
        data_block_count: 0,
        index_block_count: 0,
        key_range,
        seqno_min: 0,
        seqno_max: 0,
        file_size: size,
        item_count: 0,
        data_block_compression: CompressionType::NoCompression,
    }
}

const MIB: u64 = 1024 * 1024;

fn compactor() -> LevelledStrategy {
    LevelledStrategy {
        l0_threshold: 4,
        target_size: 128 * 1024 * 1024,
    }
}

#[test]
fn levelled_empty_levels() {
    let levels = LevelManifest::new(4);
    assert_eq!(
        compactor().decide(&levels, &Config::default()),
        Choice::DoNothing
    );
}

#[test]
fn levelled_default_l0() {
    let mut levels = LevelManifest::new(4);

    levels.add(fixture_segment(1, string_key_range("a", "z"), 128 * MIB));
    assert_eq!(
        compactor().decide(&levels, &Config::default()),
        Choice::DoNothing
    );

    levels.add(fixture_segment(2, string_key_range("a", "z"), 128 * MIB));
    assert_eq!(
        compactor().decide(&levels, &Config::default()),
        Choice::DoNothing
    );

    levels.add(fixture_segment(3, string_key_range("a", "z"), 128 * MIB));
    assert_eq!(
        compactor().decide(&levels, &Config::default()),
        Choice::DoNothing
    );

    levels.add(fixture_segment(4, string_key_range("a", "z"), 128 * MIB));
    assert_eq!(
        compactor().decide(&levels, &Config::default()),
        Choice::Merge(CompactionInput {
            dest_level: 1,
            segment_ids: vec![1, 2, 3, 4],
            target_size: 128 * MIB,
        })
    );

    levels.hide_segments(&vec![4]);
    assert_eq!(
        compactor().decide(&levels, &Config::default()),
        Choice::DoNothing
    );
}

#[test]
fn levelled_more_than_min_no_overlap() {
    let mut levels = LevelManifest::new(4);
    levels.add(fixture_segment(1, string_key_range("h", "t"), 128 * MIB));
    levels.add(fixture_segment(2, string_key_range("h", "t"), 128 * MIB));
    levels.add(fixture_segment(3, string_key_range("h", "t"), 128 * MIB));
    levels.add(fixture_segment(4, string_key_range("h", "t"), 128 * MIB));

    levels.insert_into_level(1, fixture_segment(5, string_key_range("a", "g"), 128 * MIB));
    levels.insert_into_level(1, fixture_segment(6, string_key_range("a", "g"), 128 * MIB));
    levels.insert_into_level(1, fixture_segment(7, string_key_range("y", "z"), 128 * MIB));
    levels.insert_into_level(1, fixture_segment(8, string_key_range("y", "z"), 128 * MIB));

    assert_eq!(
        compactor().decide(&levels, &Config::default()),
        Choice::Merge(CompactionInput {
            dest_level: 1,
            segment_ids: vec![1, 2, 3, 4],
            target_size: 128 * MIB,
        })
    );
}

#[test]
fn levelled_more_than_min_with_overlap() {
    let mut levels = LevelManifest::new(4);
    levels.add(fixture_segment(1, string_key_range("a", "g"), 128 * MIB));
    levels.add(fixture_segment(2, string_key_range("h", "t"), 128 * MIB));
    levels.add(fixture_segment(3, string_key_range("i", "t"), 128 * MIB));
    levels.add(fixture_segment(4, string_key_range("j", "t"), 128 * MIB));

    levels.insert_into_level(1, fixture_segment(5, string_key_range("a", "g"), 128 * MIB));
    levels.insert_into_level(1, fixture_segment(6, string_key_range("a", "g"), 128 * MIB));
    levels.insert_into_level(1, fixture_segment(7, string_key_range("y", "z"), 128 * MIB));
    levels.insert_into_level(1, fixture_segment(8, string_key_range("y", "z"), 128 * MIB));

    assert_eq!(
        compactor().decide(&levels, &Config::default()),
        Choice::Merge(CompactionInput {
            dest_level: 1,
            segment_ids: vec![1, 2, 3, 4, 5, 6],
            target_size: 128 * MIB,
        })
    );

    levels.hide_segments(&vec![5]);
    assert_eq!(
        compactor().decide(&levels, &Config::default()),
        Choice::DoNothing
    );
}

#[test]
fn levelled_deeper_level_with_overlap() {
    let config = Config::default().level_ratio(2);
    let mut levels = LevelManifest::new(4);

    levels.insert_into_level(2, fixture_segment(4, string_key_range("f", "l"), 128 * MIB));
    assert_eq!(compactor().decide(&levels, &config), Choice::DoNothing);

    levels.insert_into_level(1, fixture_segment(1, string_key_range("a", "g"), 128 * MIB));
    assert_eq!(compactor().decide(&levels, &config), Choice::DoNothing);

    levels.insert_into_level(1, fixture_segment(2, string_key_range("h", "t"), 128 * MIB));
    levels.insert_into_level(1, fixture_segment(3, string_key_range("h", "t"), 128 * MIB));

    assert_eq!(
        compactor().decide(&levels, &config),
        Choice::Merge(CompactionInput {
            dest_level: 2,
            segment_ids: vec![1, 4],
            target_size: 128 * MIB,
        })
    );
}

#[test]
fn levelled_deeper_level_no_overlap() {
    let config = Config::default().level_ratio(2);
    let mut levels = LevelManifest::new(4);

    levels.insert_into_level(2, fixture_segment(4, string_key_range("k", "l"), 128 * MIB));
    assert_eq!(compactor().decide(&levels, &config), Choice::DoNothing);

    levels.insert_into_level(1, fixture_segment(1, string_key_range("a", "g"), 128 * MIB));
    assert_eq!(compactor().decide(&levels, &config), Choice::DoNothing);

    levels.insert_into_level(1, fixture_segment(2, string_key_range("h", "t"), 128 * MIB));
    levels.insert_into_level(1, fixture_segment(3, string_key_range("h", "t"), 128 * MIB));

    assert_eq!(
        compactor().decide(&levels, &config),
        Choice::Move(CompactionInput {
            dest_level: 2,
            segment_ids: vec![1],
            target_size: 128 * MIB,
        })
    );
}

#[test]
fn levelled_last_level_with_overlap() {
    let config = Config::default().level_ratio(2);
    let mut levels = LevelManifest::new(4);

    levels.insert_into_level(3, fixture_segment(5, string_key_range("f", "l"), 128 * MIB));
    assert_eq!(compactor().decide(&levels, &config), Choice::DoNothing);

    levels.insert_into_level(2, fixture_segment(1, string_key_range("a", "g"), 128 * MIB));
    assert_eq!(compactor().decide(&levels, &config), Choice::DoNothing);

    levels.insert_into_level(2, fixture_segment(2, string_key_range("a", "g"), 128 * MIB));
    assert_eq!(compactor().decide(&levels, &config), Choice::DoNothing);

    levels.insert_into_level(2, fixture_segment(3, string_key_range("a", "g"), 128 * MIB));
    assert_eq!(compactor().decide(&levels, &config), Choice::DoNothing);

    levels.insert_into_level(2, fixture_segment(4, string_key_range("a", "g"), 128 * MIB));
    levels.insert_into_level(2, fixture_segment(6, string_key_range("y", "z"), 128 * MIB));

    assert_eq!(
        compactor().decide(&levels, &config),
        Choice::Merge(CompactionInput {
            dest_level: 3,
            segment_ids: vec![1, 5],
            target_size: 128 * MIB,
        })
    );
}
