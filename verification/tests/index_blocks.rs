use lsm_tree::block::{Block, Header};
use lsm_tree::index_block::{encode_items, IndexBlock, KeyedBlockHandle};

fn block_of(bytes: Vec<u8>) -> Block {
    Block {
        header: Header {
            checksum: 0,
            data_length: 0,
            uncompressed_length: 0,
            previous_block_offset: 0,
        },
        data: bytes,
    }
}

#[test]
fn v3_index_block_simple() {
    let items = vec![
        KeyedBlockHandle::new(b"b".to_vec(), 0, 6_000),
        KeyedBlockHandle::new(b"bcdef".to_vec(), 6_000, 7_000),
        KeyedBlockHandle::new(b"def".to_vec(), 13_000, 5_000),
    ];

    let bytes = encode_items(&items).unwrap();
    let data_block = IndexBlock::new(block_of(bytes)).unwrap();

    assert_eq!(data_block.item_count(), items.len());

    assert_eq!(
        Some(items[0].clone()),
        data_block.get_lowest_possible_block(b"a")
    );
    assert_eq!(
        Some(items[0].clone()),
        data_block.get_lowest_possible_block(b"b")
    );
    assert_eq!(
        Some(items[1].clone()),
        data_block.get_lowest_possible_block(b"ba")
    );
    assert_eq!(
        Some(items[2].clone()),
        data_block.get_lowest_possible_block(b"d")
    );
}

#[test]
fn v3_index_block_span() {
    let items = vec![
        KeyedBlockHandle::new(b"a".to_vec(), 0, 6_000),
        KeyedBlockHandle::new(b"a".to_vec(), 6_000, 7_000),
        KeyedBlockHandle::new(b"b".to_vec(), 13_000, 5_000),
    ];

    let bytes = encode_items(&items).unwrap();
    let data_block = IndexBlock::new(block_of(bytes)).unwrap();

    assert_eq!(data_block.item_count(), items.len());

    assert_eq!(
        Some(items[0].clone()),
        data_block.get_lowest_possible_block(b"a")
    );
    assert_eq!(
        Some(items.last().unwrap().clone()),
        data_block.get_lowest_possible_block(b"abc")
    );
    assert_eq!(
        Some(items.last().unwrap().clone()),
        data_block.get_lowest_possible_block(b"b")
    );
}

#[test]
fn v3_index_block_span_highest() {
    let items = vec![
        KeyedBlockHandle::new(b"b".to_vec(), 0, 6_000),
        KeyedBlockHandle::new(b"c".to_vec(), 0, 6_000),
        KeyedBlockHandle::new(b"c".to_vec(), 6_000, 7_000),
        KeyedBlockHandle::new(b"d".to_vec(), 13_000, 5_000),
    ];

    let bytes = encode_items(&items).unwrap();
    let data_block = IndexBlock::new(block_of(bytes)).unwrap();

    assert_eq!(data_block.item_count(), items.len());

    // handles compare by position here: offset and size
    let pos = |h: Option<KeyedBlockHandle>| h.map(|h| (h.offset(), h.size()));

    assert_eq!(
        Some((0, 6_000)),
        pos(data_block.get_highest_possible_block(b"a"))
    );
    assert_eq!(
        Some((0, 6_000)),
        pos(data_block.get_highest_possible_block(b"abc"))
    );
    assert_eq!(
        Some((13_000, 5_000)),
        pos(data_block.get_highest_possible_block(b"c"))
    );
    assert_eq!(
        Some((13_000, 5_000)),
        pos(data_block.get_highest_possible_block(b"cef"))
    );
    assert_eq!(
        Some((13_000, 5_000)),
        pos(data_block.get_highest_possible_block(b"d"))
    );
    assert_eq!(None, data_block.get_highest_possible_block(b"zzz"));
}

#[test]
fn v3_index_block_one() {
    let item = KeyedBlockHandle::new(b"c".to_vec(), 0, 6_000);

    let bytes = encode_items(&vec![item.clone()]).unwrap();
    let data_block = IndexBlock::new(block_of(bytes)).unwrap();

    assert_eq!(data_block.item_count(), 1);

    assert_eq!(Some(item.clone()), data_block.get_lowest_possible_block(b"a"));
    assert_eq!(
        Some(item.clone()),
        data_block.get_lowest_possible_block(b"asdasd")
    );
    assert_eq!(Some(item.clone()), data_block.get_lowest_possible_block(b"b"));
    assert_eq!(Some(item.clone()), data_block.get_lowest_possible_block(b"c"));
    assert_eq!(None, data_block.get_lowest_possible_block(b"d"));
    assert_eq!(None, data_block.get_lowest_possible_block(b"z"));
}

#[test]
fn v3_index_block_one_highest() {
    let item = KeyedBlockHandle::new(b"c".to_vec(), 0, 6_000);

    let bytes = encode_items(&vec![item.clone()]).unwrap();
    let data_block = IndexBlock::new(block_of(bytes)).unwrap();

    assert_eq!(data_block.item_count(), 1);

    assert_eq!(Some(item.clone()), data_block.get_lowest_possible_block(b"a"));
    assert_eq!(
        Some(item.clone()),
        data_block.get_lowest_possible_block(b"asdasd")
    );
    assert_eq!(Some(item.clone()), data_block.get_lowest_possible_block(b"b"));
    assert_eq!(Some(item.clone()), data_block.get_lowest_possible_block(b"c"));
    assert_eq!(None, data_block.get_lowest_possible_block(b"d"));
    assert_eq!(None, data_block.get_lowest_possible_block(b"z"));
}
