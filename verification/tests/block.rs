use engine::block::{compress_block, compress_blocks, decompress_block, split_into_blocks};
use engine::format::crc32;
use engine::{CompressOptions, EngineError};

fn opts() -> CompressOptions {
    CompressOptions { parallel: false, block_size: 65536, max_depth: 32 }
}

#[test]
fn split_into_blocks_chunks() {
    let data: Vec<u8> = (0..10u8).collect();
    let blocks = split_into_blocks(&data, 4);
    assert_eq!(blocks, vec![&data[0..4], &data[4..8], &data[8..10]]);
    assert!(split_into_blocks(&[], 4).is_empty());
    assert_eq!(split_into_blocks(&data, 10), vec![&data[..]]);
}

#[test]
fn block_round_trip() {
    let block = b"to be or not to be, that is the question".to_vec();
    let c = compress_block(&block, &opts());
    assert_eq!(decompress_block(&c, block.len()).unwrap(), block);
}

#[test]
fn block_layout_starts_with_pivot_and_left_count() {
    let block: Vec<u8> = (0..=255u8).collect();
    let c = compress_block(&block, &opts());
    // No repeats: the pivot is the middle and each half is 128 literals.
    assert_eq!(&c[0..4], &128u32.to_le_bytes());
    assert_eq!(&c[4..8], &128u32.to_le_bytes());
}

#[test]
fn decompress_block_errors() {
    match decompress_block(&[0u8; 9], 0) {
        Err(EngineError::DecompressError(msg)) => assert_eq!(msg, "block too short"),
        other => panic!("unexpected {:?}", other),
    }
    let block = b"abcdefgh abcdefgh".to_vec();
    let mut c = compress_block(&block, &opts());
    // A left count past the decoded tokens.
    c[4..8].copy_from_slice(&1000u32.to_le_bytes());
    match decompress_block(&c, block.len()) {
        Err(EngineError::DecompressError(msg)) => assert!(msg.starts_with("left_count 1000 > total tokens ")),
        other => panic!("unexpected {:?}", other),
    }
    // A pivot past the end of the block.
    let mut c = compress_block(&block, &opts());
    c[0..4].copy_from_slice(&1000u32.to_le_bytes());
    match decompress_block(&c, block.len()) {
        Err(EngineError::DecompressError(msg)) => assert_eq!(msg, "pivot past end of block"),
        other => panic!("unexpected {:?}", other),
    }
}

#[test]
fn compress_blocks_entries_describe_the_blocks() {
    let data = b"block one block two block three".repeat(10);
    let blocks = split_into_blocks(&data, 100);
    for parallel in [false, true] {
        let o = CompressOptions { parallel, ..opts() };
        let (compressed, entries) = compress_blocks(&blocks, &o);
        assert_eq!(compressed.len(), blocks.len());
        for i in 0..blocks.len() {
            assert_eq!(compressed[i], compress_block(blocks[i], &o));
            assert_eq!(entries[i].compressed_len as usize, compressed[i].len());
            assert_eq!(entries[i].uncompressed_len as usize, blocks[i].len());
            assert_eq!(entries[i].crc32, crc32(blocks[i]));
        }
    }
}
