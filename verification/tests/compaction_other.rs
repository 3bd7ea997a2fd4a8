use lsm_tree::compaction::{Choice, CompactionInput, FifoStrategy, MaintenanceStrategy, TieredStrategy};
use lsm_tree::compression::CompressionType;
use lsm_tree::key_range::KeyRange;
use lsm_tree::level_manifest::LevelManifest;
use lsm_tree::meta::{ParsedMeta, Timestamp};

fn fixture_segment(id: u64, created_at: u128, seqno_max: u64, size: u64) -> ParsedMeta {
    ParsedMeta {
        id,
        created_at: Timestamp(created_at),
        data_block_count: 0,
        index_block_count: 0,
        key_range: KeyRange::new(Vec::new(), Vec::new()),
        seqno_min: 0,
        seqno_max,
        file_size: size,
        item_count: 0,
        data_block_compression: CompressionType::NoCompression,
    }
}

const MIB: u64 = 1024 * 1024;

#[test]
fn maintenance_empty_level() {
    let levels = LevelManifest::new(4);
    assert_eq!(MaintenanceStrategy.decide(&levels), Choice::DoNothing);
}

#[test]
fn maintenance_below_limit() {
    let mut levels = LevelManifest::new(4);
    for id in 0..5 {
        levels.add(fixture_segment(id, id as u128, 0, 1));
    }
    assert_eq!(MaintenanceStrategy.decide(&levels), Choice::DoNothing);
}

#[test]
fn maintenance_l0_too_large() {
    let mut levels = LevelManifest::new(4);
    for id in 0..22 {
        levels.add(fixture_segment(id, id as u128, 0, 1));
    }
    assert_eq!(
        MaintenanceStrategy.decide(&levels),
        Choice::Merge(CompactionInput {
            dest_level: 0,
            segment_ids: vec![0, 1, 2],
            target_size: u64::MAX,
        })
    );
}

#[test]
fn fifo_ttl() {
    // two segments: one a microsecond after the epoch, one "now";
    // a five-thousand-second TTL expires only the first
    let now: u128 = 10_000_000_000;
    let compactor = FifoStrategy::new(u64::MAX, Some(5_000));
    let mut levels = LevelManifest::new(4);

    levels.add(fixture_segment(1, 1, 1, 1));
    levels.add(fixture_segment(2, now, 2, 1));

    assert_eq!(compactor.decide(&levels, now), Choice::Drop(vec![1]));
}

#[test]
fn fifo_empty_levels() {
    let compactor = FifoStrategy::new(1, None);
    let levels = LevelManifest::new(4);
    assert_eq!(compactor.decide(&levels, 0), Choice::DoNothing);
}

#[test]
fn fifo_below_limit() {
    let compactor = FifoStrategy::new(4, None);
    let mut levels = LevelManifest::new(4);

    for id in 1..=4 {
        levels.add(fixture_segment(id, id as u128, id, 1));
        assert_eq!(compactor.decide(&levels, 0), Choice::DoNothing);
    }
}

#[test]
fn fifo_more_than_limit() {
    let compactor = FifoStrategy::new(2, None);
    let mut levels = LevelManifest::new(4);
    for id in 1..=4 {
        levels.add(fixture_segment(id, id as u128, id, 1));
    }
    assert_eq!(compactor.decide(&levels, 0), Choice::Drop(vec![1, 2]));
}

#[test]
fn tiered_l0_to_l1() {
    // four 8 MiB segments in level zero with a base size of 8 MiB and a
    // fanout of two: merge the two oldest into level one
    let compactor = TieredStrategy::new(8 * MIB as u32, 2);
    let mut levels = LevelManifest::new(4);

    levels.add(fixture_segment(1, 1, 5, 8 * MIB));
    assert_eq!(compactor.decide(&levels), Choice::DoNothing);
    levels.add(fixture_segment(2, 2, 6, 8 * MIB));
    levels.add(fixture_segment(3, 3, 7, 8 * MIB));
    levels.add(fixture_segment(4, 4, 8, 8 * MIB));

    assert_eq!(
        compactor.decide(&levels),
        Choice::Merge(CompactionInput {
            dest_level: 1,
            segment_ids: vec![1, 2],
            target_size: u64::MAX,
        })
    );
}

#[test]
fn tiered_deeper_level() {
    // two 16 MiB segments fill level one (desired 32 MiB): merge both into
    // level two
    let compactor = TieredStrategy::new(8 * MIB as u32, 2);
    let mut levels = LevelManifest::new(4);

    levels.insert_into_level(1, fixture_segment(2, 2, 6, 16 * MIB));
    levels.insert_into_level(1, fixture_segment(3, 3, 7, 16 * MIB));

    assert_eq!(
        compactor.decide(&levels),
        Choice::Merge(CompactionInput {
            dest_level: 2,
            segment_ids: vec![2, 3],
            target_size: u64::MAX,
        })
    );
}

#[test]
fn tiered_last_level_absorbed() {
    // when the destination is the last level, whatever already lives there
    // joins the input set
    let compactor = TieredStrategy::new(8 * MIB as u32, 2);
    let mut levels = LevelManifest::new(4);

    levels.insert_into_level(2, fixture_segment(2, 2, 6, 32 * MIB));
    levels.insert_into_level(2, fixture_segment(3, 3, 7, 32 * MIB));
    levels.insert_into_level(3, fixture_segment(9, 9, 1, 8 * MIB));

    assert_eq!(
        compactor.decide(&levels),
        Choice::Merge(CompactionInput {
            dest_level: 3,
            segment_ids: vec![2, 3, 9],
            target_size: u64::MAX,
        })
    );
}
