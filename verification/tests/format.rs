use engine::format::{crc32, read_header, write_header, BlockEntry, PpmoHeader, FLAG_PARALLEL, HEADER_BASE_LEN};
use engine::EngineError;

#[test]
fn header_round_trip() {
    let hdr = PpmoHeader {
        flags: FLAG_PARALLEL,
        block_count: 3,
        original_size: 196_608,
        block_size: 65536,
    };
    let dir = vec![
        BlockEntry { compressed_len: 1234, uncompressed_len: 65536, crc32: 0xDEAD_BEEF },
        BlockEntry { compressed_len: 999, uncompressed_len: 65536, crc32: 0xCAFE_BABE },
        BlockEntry { compressed_len: 50, uncompressed_len: 1024, crc32: 0x1234_5678 },
    ];

    let bytes = write_header(&hdr, &dir);
    let (hdr2, dir2, offset) = read_header(&bytes).unwrap();

    assert_eq!(hdr2.flags, hdr.flags);
    assert_eq!(hdr2.block_count, hdr.block_count);
    assert_eq!(hdr2.original_size, hdr.original_size);
    assert_eq!(hdr2.block_size, hdr.block_size);
    assert_eq!(dir2.len(), dir.len());
    for (a, b) in dir.iter().zip(dir2.iter()) {
        assert_eq!(a.compressed_len, b.compressed_len);
        assert_eq!(a.uncompressed_len, b.uncompressed_len);
        assert_eq!(a.crc32, b.crc32);
    }
    assert_eq!(offset, HEADER_BASE_LEN + 3 * 12);
}

#[test]
fn crc32_known_vector() {
    // CRC32 of b"123456789" == 0xCBF43926
    assert_eq!(crc32(b"123456789"), 0xCBF43926);
}

#[test]
fn header_bad_magic() {
    let mut bytes = write_header(
        &PpmoHeader { flags: 0, block_count: 0, original_size: 0, block_size: 65536 },
        &[],
    );
    bytes[0] = b'X';
    assert!(matches!(read_header(&bytes), Err(EngineError::InvalidHeader(_))));
}

#[test]
fn header_bad_crc() {
    let mut bytes = write_header(
        &PpmoHeader { flags: 0, block_count: 0, original_size: 0, block_size: 65536 },
        &[],
    );
    bytes[22] ^= 0xFF; // corrupt CRC
    assert!(matches!(read_header(&bytes), Err(EngineError::ChecksumMismatch)));
}

// ── further cases ──

#[test]
fn crc32_of_empty_input_is_zero() {
    assert_eq!(crc32(b""), 0);
    assert_eq!(crc32(b"a"), 0xE8B7_BE43);
}

#[test]
fn header_layout_is_26_bytes_plus_directory() {
    let hdr = PpmoHeader { flags: 0, block_count: 1, original_size: 7, block_size: 65536 };
    let dir = [BlockEntry { compressed_len: 1, uncompressed_len: 2, crc32: 3 }];
    let bytes = write_header(&hdr, &dir);
    assert_eq!(bytes.len(), HEADER_BASE_LEN + 12);
    assert_eq!(&bytes[0..4], b"PPMO");
    assert_eq!(bytes[4], 1);
    assert_eq!(bytes[5], 0);
    assert_eq!(&bytes[6..10], &[1, 0, 0, 0]);
    assert_eq!(&bytes[10..18], &[7, 0, 0, 0, 0, 0, 0, 0]);
    assert_eq!(&bytes[22..26], &crc32(&bytes[0..22]).to_le_bytes());
    assert_eq!(&bytes[26..38], &[1, 0, 0, 0, 2, 0, 0, 0, 3, 0, 0, 0]);
}

#[test]
fn header_too_short_is_rejected() {
    match read_header(&[0u8; 10]) {
        Err(EngineError::InvalidHeader(msg)) => assert_eq!(msg, "file too short"),
        other => panic!("unexpected {:?}", other),
    }
}

#[test]
fn header_bad_magic_message() {
    let mut bytes = write_header(
        &PpmoHeader { flags: 0, block_count: 0, original_size: 0, block_size: 65536 },
        &[],
    );
    bytes[2] = 0;
    match read_header(&bytes) {
        Err(EngineError::InvalidHeader(msg)) => assert_eq!(msg, "bad magic"),
        other => panic!("unexpected {:?}", other),
    }
}

#[test]
fn header_unsupported_version_message() {
    let mut bytes = write_header(
        &PpmoHeader { flags: 0, block_count: 0, original_size: 0, block_size: 65536 },
        &[],
    );
    bytes[4] = 0x2A;
    match read_header(&bytes) {
        Err(EngineError::InvalidHeader(msg)) => assert_eq!(msg, "unsupported version 0x2A"),
        other => panic!("unexpected {:?}", other),
    }
}

#[test]
fn header_truncated_directory_is_rejected() {
    let hdr = PpmoHeader { flags: 0, block_count: 2, original_size: 0, block_size: 65536 };
    let dir = [
        BlockEntry { compressed_len: 1, uncompressed_len: 2, crc32: 3 },
        BlockEntry { compressed_len: 4, uncompressed_len: 5, crc32: 6 },
    ];
    let bytes = write_header(&hdr, &dir);
    match read_header(&bytes[..bytes.len() - 1]) {
        Err(EngineError::InvalidHeader(msg)) => assert_eq!(msg, "truncated block directory"),
        other => panic!("unexpected {:?}", other),
    }
}

#[test]
fn crc32_is_affine_over_xor() {
    let a = b"The quick brown fox".to_vec();
    let b = b"jumps over the lazy".to_vec();
    let c = b"dog, twice and more".to_vec();
    let x: Vec<u8> = (0..a.len()).map(|i| a[i] ^ b[i] ^ c[i]).collect();
    assert_eq!(crc32(&x), crc32(&a) ^ crc32(&b) ^ crc32(&c));
}

#[test]
fn crc32_catches_every_single_bit_flip() {
    let data = b"PPMO block payload".to_vec();
    let good = crc32(&data);
    for i in 0..data.len() {
        for j in 0..8 {
            let mut bad = data.clone();
            bad[i] ^= 1u8 << j;
            assert_ne!(crc32(&bad), good);
        }
    }
}
