use std::collections::hash_map::DefaultHasher;
use std::hash::{Hash, Hasher};
use engine::middle_out::{decode_bidirectional, encode_bidirectional, find_pivot};
use engine::lz::Token;

#[test]
fn pivot_uniform_block() {
    let block = vec![0u8; 512];
    let p = find_pivot(&block);
    let center = block.len() / 2;
    let tolerance = block.len() / 4;
    assert!(
        p >= center.saturating_sub(tolerance) && p <= center + tolerance,
        "pivot={} out of range for uniform block",
        p
    );
}

#[test]
fn round_trip_small() {
    let block = b"hello world hello world!!".to_vec();
    let (pivot, left, right) = encode_bidirectional(&block, 32);
    let recovered = decode_bidirectional(pivot, &left, &right, block.len());
    assert_eq!(recovered, block);
}

#[test]
fn round_trip_large() {
    let text = b"The quick brown fox jumps over the lazy dog. ";
    let mut block = Vec::with_capacity(131072);
    while block.len() < 131072 {
        block.extend_from_slice(text);
    }
    block.truncate(131072);
    let (pivot, left, right) = encode_bidirectional(&block, 32);
    let recovered = decode_bidirectional(pivot, &left, &right, block.len());
    assert_eq!(recovered, block);
}

#[test]
fn round_trip_zeros() {
    let block = vec![0u8; 65536];
    let (pivot, left, right) = encode_bidirectional(&block, 32);
    let recovered = decode_bidirectional(pivot, &left, &right, block.len());
    assert_eq!(recovered, block);
}

#[test]
fn round_trip_random_like() {
    let mut block = Vec::with_capacity(4096);
    for i in 0u64..4096 {
        let mut h = DefaultHasher::new();
        i.hash(&mut h);
        block.push(h.finish() as u8);
    }
    let (pivot, left, right) = encode_bidirectional(&block, 32);
    let recovered = decode_bidirectional(pivot, &left, &right, block.len());
    assert_eq!(recovered, block);
}

// ── further cases ──

#[test]
fn pivot_of_small_blocks_is_the_middle() {
    assert_eq!(find_pivot(&[]), 0);
    assert_eq!(find_pivot(&[1, 2, 3, 4, 5, 6, 7, 8]), 4);
    assert_eq!(find_pivot(&[9; 3]), 1);
}

#[test]
fn pivot_of_uniform_block_is_the_widest_window() {
    // Every window is all zeros, so the score grows with the window; the
    // candidate at 256 is the first whose window covers the whole block.
    assert_eq!(find_pivot(&[0u8; 512]), 256);
}

#[test]
fn pivot_of_incompressible_block_is_the_middle() {
    let block: Vec<u8> = (0..=255u8).collect();
    assert_eq!(find_pivot(&block), 128);
}

#[test]
fn encode_bidirectional_splits_at_the_pivot() {
    let block: Vec<u8> = (0..=255u8).collect();
    let (pivot, left, right) = encode_bidirectional(&block, 32);
    assert_eq!(pivot, 128);
    assert_eq!(left.len(), 128);
    assert_eq!(right.len(), 128);
    assert_eq!(left[0], Token::Literal(0));
    assert_eq!(right[0], Token::Literal(128));
}
