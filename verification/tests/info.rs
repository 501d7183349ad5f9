use engine::format::{read_header, write_header};
use engine::info::ArchiveInfo;
use engine::{compress, inspect, verify, CompressOptions, EngineError};

const PPMO_VERSION: u8 = engine::format::VERSION;

fn opts() -> CompressOptions {
    CompressOptions { parallel: false, block_size: 65536, max_depth: 32 }
}

/// Compression ratio and space saving of an archive, as the report shows them.
fn ratio_and_saving(meta: &ArchiveInfo) -> (f64, f64) {
    if meta.original_size == 0 || meta.compressed_size == 0 {
        (1.0, 0.0)
    } else {
        let ratio = meta.original_size as f64 / meta.compressed_size as f64;
        let saving = 1.0 - (meta.compressed_size as f64 / meta.original_size as f64);
        (ratio, saving)
    }
}

#[test]
fn inspect_reports_sizes() {
    let data = vec![0xABu8; 200_000];
    let compressed = compress(&data, &opts()).unwrap();
    let meta = inspect(&compressed).unwrap();
    let (ratio, space_saving) = ratio_and_saving(&meta);

    assert_eq!(meta.original_size, 200_000);
    assert_eq!(meta.compressed_size, compressed.len() as u64);
    assert_eq!(meta.block_size, 65536);
    assert_eq!(meta.block_count, 4); // 200_000 / 65_536 -> 4 blocks
    assert!(ratio > 1.0);
    assert!(space_saving > 0.0 && space_saving < 1.0);
    assert_eq!(meta.version, PPMO_VERSION);
}

#[test]
fn inspect_empty_archive() {
    let compressed = compress(b"", &opts()).unwrap();
    let meta = inspect(&compressed).unwrap();
    let (ratio, space_saving) = ratio_and_saving(&meta);
    assert_eq!(meta.original_size, 0);
    assert_eq!(meta.block_count, 0);
    assert_eq!(ratio, 1.0);
    assert_eq!(space_saving, 0.0);
}

#[test]
fn verify_accepts_valid_archive() {
    let data = b"OpenPresser integrity check works end to end.".repeat(500);
    let compressed = compress(&data, &opts()).unwrap();
    let meta = verify(&compressed).unwrap();
    assert_eq!(meta.original_size, data.len() as u64);
}

#[test]
fn verify_detects_corruption() {
    let data = b"corrupt me please".repeat(2000);
    let mut compressed = compress(&data, &opts()).unwrap();
    // Flip a byte deep inside the block payload, past the header/directory.
    let last = compressed.len() - 1;
    compressed[last] ^= 0xFF;
    // Either a CRC mismatch or a decode error is acceptable; it must not
    // silently succeed.
    assert!(verify(&compressed).is_err());
}

#[test]
fn verify_detects_truncation() {
    let data = vec![7u8; 100_000];
    let compressed = compress(&data, &opts()).unwrap();
    let truncated = &compressed[..compressed.len() - 5];
    assert!(verify(truncated).is_err());
}

// ── further cases ──

#[test]
fn inspect_reads_the_parallel_flag() {
    let par = CompressOptions { parallel: true, ..opts() };
    let meta = inspect(&compress(b"abc", &par).unwrap()).unwrap();
    assert!(meta.parallel);
    let meta = inspect(&compress(b"abc", &opts()).unwrap()).unwrap();
    assert!(!meta.parallel);
    assert_eq!(meta.block_count, 1);
}

#[test]
fn verify_reports_truncation_with_the_block_index() {
    let data = vec![7u8; 100_000];
    let compressed = compress(&data, &opts()).unwrap();
    match verify(&compressed[..compressed.len() - 5]) {
        Err(EngineError::DecompressError(msg)) => assert_eq!(msg, "block 1: truncated block data"),
        other => panic!("unexpected {:?}", other),
    }
}

#[test]
fn verify_reports_a_size_claim_that_does_not_add_up() {
    let data = vec![1u8; 1000];
    let compressed = compress(&data, &opts()).unwrap();
    let (mut h, dir, off) = read_header(&compressed).unwrap();
    h.original_size = 999;
    let mut forged = write_header(&h, &dir);
    forged.extend_from_slice(&compressed[off..]);
    match verify(&forged) {
        Err(EngineError::DecompressError(msg)) => {
            assert_eq!(msg, "size mismatch: header claims 999 bytes, blocks sum to 1000")
        }
        other => panic!("unexpected {:?}", other),
    }
}

#[test]
fn inspect_rejects_a_bad_header() {
    assert!(matches!(inspect(b"PPMO"), Err(EngineError::InvalidHeader(_))));
}
