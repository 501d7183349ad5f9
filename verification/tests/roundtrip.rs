use std::collections::hash_map::DefaultHasher;
use std::hash::{Hash, Hasher};
use engine::format::{read_header, write_header};
use engine::{compress, decompress, CompressOptions, EngineError};

fn round_trip(data: &[u8], parallel: bool) {
    let opts = CompressOptions {
        parallel,
        block_size: 65536,
        max_depth: 32,
    };
    let compressed = compress(data, &opts).expect("compress failed");
    let recovered = decompress(&compressed).expect("decompress failed");
    assert_eq!(
        recovered, data,
        "round-trip failed for {} bytes (parallel={})",
        data.len(), parallel
    );
}

#[test]
fn empty() {
    round_trip(b"", false);
    round_trip(b"", true);
}

#[test]
fn zeros() {
    round_trip(&vec![0u8; 100_000], false);
    round_trip(&vec![0u8; 100_000], true);
}

#[test]
fn random_data() {
    let mut data = Vec::with_capacity(50_000);
    for i in 0u64..50_000 {
        let mut h = DefaultHasher::new();
        i.hash(&mut h);
        data.push(h.finish() as u8);
    }
    round_trip(&data, false);
    round_trip(&data, true);
}

#[test]
fn text_data() {
    let text = b"The quick brown fox jumps over the lazy dog. \
                 OpenPresser compression is the best. \
                 Middle-out algorithm beats all others. "
        .repeat(1000);
    round_trip(&text, false);
    round_trip(&text, true);
}

#[test]
fn single_byte() {
    round_trip(b"X", false);
}

#[test]
fn parallel_equals_sequential() {
    let data: Vec<u8> = (0..200_000u64)
        .map(|i| (i.wrapping_mul(6364136223846793005) >> 56) as u8)
        .collect();

    let seq_opts = CompressOptions { parallel: false, block_size: 65536, max_depth: 32 };
    let par_opts = CompressOptions { parallel: true, block_size: 65536, max_depth: 32 };

    let seq_compressed = compress(&data, &seq_opts).unwrap();
    let par_compressed = compress(&data, &par_opts).unwrap();

    // Decompressed output must be identical even if compressed bytes differ
    let seq_out = decompress(&seq_compressed).unwrap();
    let par_out = decompress(&par_compressed).unwrap();
    assert_eq!(seq_out, par_out);
    assert_eq!(seq_out, data);
}

#[test]
fn multi_block() {
    let data = vec![0xABu8; 200_000];
    let opts = CompressOptions { parallel: false, block_size: 65536, max_depth: 32 };
    let compressed = compress(&data, &opts).unwrap();
    let recovered = decompress(&compressed).unwrap();
    assert_eq!(recovered, data);
}

// ── further cases ──

#[test]
fn default_options() {
    let o = CompressOptions::default();
    assert_eq!(o.block_size, 65536);
    assert_eq!(o.max_depth, 32);
    assert!(o.parallel);
}

#[test]
fn round_trip_small_blocks_and_shallow_search() {
    let data = b"abracadabra, abracadabra, abracadabra!".repeat(40);
    for block_size in [1usize, 7, 64, 1000] {
        for depth in [0usize, 1, 8] {
            let opts = CompressOptions { parallel: block_size % 2 == 0, block_size, max_depth: depth };
            let compressed = compress(&data, &opts).unwrap();
            assert_eq!(decompress(&compressed).unwrap(), data);
        }
    }
}

#[test]
fn parallel_and_sequential_archives_differ_only_in_the_flag() {
    let data = b"same bytes either way ".repeat(5000);
    let seq = compress(&data, &CompressOptions { parallel: false, block_size: 4096, max_depth: 16 }).unwrap();
    let par = compress(&data, &CompressOptions { parallel: true, block_size: 4096, max_depth: 16 }).unwrap();
    assert_eq!(seq.len(), par.len());
    assert_eq!(seq[5], 0);
    assert_eq!(par[5], 1);
    assert_eq!(seq[26..], par[26..]);
}

#[test]
fn empty_archive_is_a_bare_header() {
    let c = compress(b"", &CompressOptions::default()).unwrap();
    assert_eq!(c.len(), 26);
    assert_eq!(decompress(&c).unwrap(), Vec::<u8>::new());
}

#[test]
fn decompress_reports_a_checksum_mismatch() {
    let data = b"checksum me".repeat(100);
    let compressed = compress(&data, &CompressOptions::default()).unwrap();
    let (h, mut dir, off) = read_header(&compressed).unwrap();
    dir[0].crc32 ^= 1;
    let mut forged = write_header(&h, &dir);
    forged.extend_from_slice(&compressed[off..]);
    assert!(matches!(decompress(&forged), Err(EngineError::ChecksumMismatch)));
}

#[test]
fn decompress_reports_a_size_mismatch() {
    let data = vec![3u8; 500];
    let compressed = compress(&data, &CompressOptions::default()).unwrap();
    let (mut h, dir, off) = read_header(&compressed).unwrap();
    h.original_size = 501;
    let mut forged = write_header(&h, &dir);
    forged.extend_from_slice(&compressed[off..]);
    match decompress(&forged) {
        Err(EngineError::DecompressError(msg)) => assert_eq!(msg, "size mismatch: expected 501 bytes, got 500"),
        other => panic!("unexpected {:?}", other),
    }
}

#[test]
fn decompress_reports_truncated_block_data() {
    let data = vec![3u8; 500];
    let compressed = compress(&data, &CompressOptions::default()).unwrap();
    match decompress(&compressed[..compressed.len() - 1]) {
        Err(EngineError::DecompressError(msg)) => assert_eq!(msg, "truncated block data"),
        other => panic!("unexpected {:?}", other),
    }
}

#[test]
fn io_errors_travel_as_their_own_variant() {
    let e = EngineError::Io(std::io::Error::new(std::io::ErrorKind::NotFound, "missing archive"));
    match e {
        EngineError::Io(inner) => assert_eq!(inner.kind(), std::io::ErrorKind::NotFound),
        other => panic!("unexpected {:?}", other),
    }
}
