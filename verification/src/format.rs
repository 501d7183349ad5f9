//! PPMO file format: constants, CRC32 and header I/O.
//!
//! Layout:
//!   0    4   Magic b"PPMO"
//!   4    1   Version 0x01
//!   5    1   Flags  (bit0 = parallel)
//!   6    4   u32 LE block count
//!  10    8   u64 LE original size
//!  18    4   u32 LE block size
//!  22    4   u32 LE CRC32 of header bytes 0..22
//!  26   N×12 Block directory: (compressed_len u32, uncompressed_len u32, crc32 u32)
//!   —    —   Block data (concatenated)
use vstd::prelude::*;
use vstd::bytes::*;
use vstd::slice::slice_subrange;
use crate::{EngineError, ErrorView};
use crate::text::{version_message, push_version_message};

verus! {

pub const MAGIC: [u8; 4] = [0x50, 0x50, 0x4D, 0x4F];

pub const VERSION: u8 = 0x01;

pub const FLAG_PARALLEL: u8 = 0x01;

/// Length of the fixed part of the header (bytes 0..26, before the block directory).
pub const HEADER_BASE_LEN: usize = 26;

// ───────────────────────────── CRC32 ─────────────────────────────

/// One step of the reflected CRC-32 shift register (polynomial 0xEDB88320).
pub open spec fn crc_step(c: u32) -> u32 {
    if c & 1u32 == 1u32 {
        0xEDB8_8320u32 ^ (c >> 1u32)
    } else {
        c >> 1u32
    }
}

/// `k` steps of the shift register.
pub open spec fn crc_steps(c: u32, k: nat) -> u32
    decreases k,
{
    if k == 0 {
        c
    } else {
        crc_steps(crc_step(c), (k - 1) as nat)
    }
}

/// The register after absorbing one byte.
pub open spec fn crc_update(c: u32, b: u8) -> u32 {
    crc_steps(c ^ (b as u32), 8)
}

/// The CRC-32 register after absorbing `data`, starting from all ones.
pub open spec fn crc_register(data: Seq<u8>) -> u32
    decreases data.len(),
{
    if data.len() == 0 {
        0xFFFF_FFFFu32
    } else {
        crc_update(crc_register(data.drop_last()), data.last())
    }
}

/// CRC-32 (ISO 3309 / IEEE 802.3) of `data`.
pub open spec fn spec_crc32(data: Seq<u8>) -> u32 {
    crc_register(data) ^ 0xFFFF_FFFFu32
}

spec fn step8(c: u32) -> u32 {
    crc_step(crc_step(crc_step(crc_step(crc_step(crc_step(crc_step(crc_step(c))))))))
}

proof fn lemma_steps8(c: u32)
    ensures
        crc_steps(c, 8) == step8(c),
{
    reveal_with_fuel(crc_steps, 9);
}

proof fn lemma_step8_split(x: u32)
    by (bit_vector)
    ensures
        step8(x) == step8(x & 0xFFu32) ^ (x >> 8u32),
{
}

/// The table-driven update agrees with eight shift-register steps.
proof fn lemma_table_update(crc: u32, b: u8)
    ensures
        crc_update(crc, b) == crc_steps((crc ^ (b as u32)) & 0xFFu32, 8) ^ (crc >> 8u32),
{
    let x = crc ^ (b as u32);
    lemma_steps8(x);
    lemma_steps8(x & 0xFFu32);
    lemma_step8_split(x);
    assert((crc ^ (b as u32)) >> 8u32 == crc >> 8u32) by (bit_vector)
        requires
            b < 256,
    ;
}

proof fn lemma_step_linear(x: u32, y: u32)
    by (bit_vector)
    ensures
        crc_step(x ^ y) == crc_step(x) ^ crc_step(y),
{
}

proof fn lemma_step_zero(x: u32)
    by (bit_vector)
    ensures
        crc_step(x) == 0u32 ==> x == 0u32,
{
}

proof fn lemma_steps_linear(x: u32, y: u32, k: nat)
    ensures
        crc_steps(x ^ y, k) == crc_steps(x, k) ^ crc_steps(y, k),
    decreases k,
{
    if k > 0 {
        lemma_step_linear(x, y);
        lemma_steps_linear(crc_step(x), crc_step(y), (k - 1) as nat);
    }
}

proof fn lemma_steps_nonzero(x: u32, k: nat)
    requires
        x != 0,
    ensures
        crc_steps(x, k) != 0,
    decreases k,
{
    if k > 0 {
        lemma_step_zero(x);
        lemma_steps_nonzero(crc_step(x), (k - 1) as nat);
    }
}

/// Absorbing a byte keeps two different registers different, and absorbing two
/// different bytes into one register gives different registers.
proof fn lemma_update_injective(r1: u32, r2: u32, b1: u8, b2: u8)
    requires
        r1 != r2 || b1 != b2,
        r1 == r2 || b1 == b2,
    ensures
        crc_update(r1, b1) != crc_update(r2, b2),
{
    let x = r1 ^ (b1 as u32);
    let y = r2 ^ (b2 as u32);
    assert(x ^ y != 0u32) by (bit_vector)
        requires
            x == r1 ^ (b1 as u32),
            y == r2 ^ (b2 as u32),
            r1 != r2 || b1 != b2,
            r1 == r2 || b1 == b2,
    ;
    lemma_steps_linear(x, y, 8);
    lemma_steps_nonzero(x ^ y, 8);
    let sx = crc_steps(x, 8);
    let sy = crc_steps(y, 8);
    assert(sx ^ sy != 0u32 ==> sx != sy) by (bit_vector);
}

proof fn lemma_register_differs(a: Seq<u8>, b: Seq<u8>, i: int, n: int)
    requires
        a.len() == b.len(),
        0 <= i < n <= a.len(),
        a[i] != b[i],
        forall|k: int| 0 <= k < a.len() && k != i ==> a[k] == b[k],
    ensures
        crc_register(a.take(n)) != crc_register(b.take(n)),
    decreases n,
{
    assert(a.take(n).drop_last() == a.take(n - 1));
    assert(b.take(n).drop_last() == b.take(n - 1));
    if n == i + 1 {
        assert(a.take(i) == b.take(i));
        lemma_update_injective(crc_register(a.take(i)), crc_register(b.take(i)), a[i], b[i]);
    } else {
        lemma_register_differs(a, b, i, n - 1);
        lemma_update_injective(
            crc_register(a.take(n - 1)),
            crc_register(b.take(n - 1)),
            a[n - 1],
            b[n - 1],
        );
    }
}

/// CRC-32 tells apart any two inputs of one length that differ in a single
/// byte, so it catches every error confined to one byte.
pub proof fn lemma_crc_detects_byte_error(a: Seq<u8>, b: Seq<u8>, i: int)
    requires
        a.len() == b.len(),
        0 <= i < a.len(),
        a[i] != b[i],
        forall|k: int| 0 <= k < a.len() && k != i ==> a[k] == b[k],
    ensures
        spec_crc32(a) != spec_crc32(b),
{
    lemma_register_differs(a, b, i, a.len() as int);
    assert(a.take(a.len() as int) == a);
    assert(b.take(b.len() as int) == b);
    let ra = crc_register(a);
    let rb = crc_register(b);
    assert(ra != rb ==> ra ^ 0xFFFF_FFFFu32 != rb ^ 0xFFFF_FFFFu32) by (bit_vector);
}

/// `data` with bit `j` of byte `i` flipped.
pub open spec fn flip_bit(data: Seq<u8>, i: int, j: u8) -> Seq<u8> {
    data.update(i, data[i] ^ (1u8 << j))
}

/// CRC-32 catches every single-bit error.
pub proof fn lemma_crc_detects_bit_flip(data: Seq<u8>, i: int, j: u8)
    requires
        0 <= i < data.len(),
        j < 8,
    ensures
        spec_crc32(flip_bit(data, i, j)) != spec_crc32(data),
{
    let x = data[i];
    assert(x ^ (1u8 << j) != x) by (bit_vector)
        requires
            j < 8,
    ;
    lemma_crc_detects_byte_error(flip_bit(data, i, j), data, i);
}

/// The bytewise exclusive or of two byte strings of one length.
pub open spec fn xor_bytes(a: Seq<u8>, b: Seq<u8>) -> Seq<u8> {
    Seq::new(a.len(), |i: int| a[i] ^ b[i])
}

proof fn lemma_register_affine(a: Seq<u8>, b: Seq<u8>, c: Seq<u8>)
    requires
        a.len() == b.len(),
        b.len() == c.len(),
    ensures
        crc_register(xor_bytes(xor_bytes(a, b), c)) == crc_register(a) ^ crc_register(b) ^ crc_register(c),
    decreases a.len(),
{
    let x = xor_bytes(xor_bytes(a, b), c);
    if a.len() == 0 {
        assert(0xFFFF_FFFFu32 ^ 0xFFFF_FFFFu32 ^ 0xFFFF_FFFFu32 == 0xFFFF_FFFFu32) by (bit_vector);
    } else {
        let (pa, pb, pc) = (a.drop_last(), b.drop_last(), c.drop_last());
        assert(x.drop_last() == xor_bytes(xor_bytes(pa, pb), pc));
        lemma_register_affine(pa, pb, pc);
        let (ra, rb, rc) = (crc_register(pa), crc_register(pb), crc_register(pc));
        let (la, lb, lc) = (a.last(), b.last(), c.last());
        assert(x.last() == la ^ lb ^ lc);
        let p = ra ^ (la as u32);
        let q = rb ^ (lb as u32);
        let r = rc ^ (lc as u32);
        assert((ra ^ rb ^ rc) ^ ((la ^ lb ^ lc) as u32) == p ^ q ^ r) by (bit_vector)
            requires
                p == ra ^ (la as u32),
                q == rb ^ (lb as u32),
                r == rc ^ (lc as u32),
        ;
        lemma_steps_linear(p ^ q, r, 8);
        lemma_steps_linear(p, q, 8);
    }
}

/// CRC-32 is affine over bytewise exclusive or: for three inputs of one length,
/// the CRC of their exclusive or is the exclusive or of their CRCs.
pub proof fn lemma_crc_affine(a: Seq<u8>, b: Seq<u8>, c: Seq<u8>)
    requires
        a.len() == b.len(),
        b.len() == c.len(),
    ensures
        spec_crc32(xor_bytes(xor_bytes(a, b), c)) == spec_crc32(a) ^ spec_crc32(b) ^ spec_crc32(c),
{
    lemma_register_affine(a, b, c);
    let (ra, rb, rc) = (crc_register(a), crc_register(b), crc_register(c));
    assert((ra ^ rb ^ rc) ^ 0xFFFF_FFFFu32 == (ra ^ 0xFFFF_FFFFu32) ^ (rb ^ 0xFFFF_FFFFu32) ^ (rc
        ^ 0xFFFF_FFFFu32)) by (bit_vector);
}

/// Builds the 256-entry lookup table of the byte-wise CRC-32 update.
fn make_crc_table() -> (table: Vec<u32>)
    ensures
        table@.len() == 256,
        forall|i: int| 0 <= i < 256 ==> #[trigger] table@[i] == crc_steps(i as u32, 8),
{
    let mut table: Vec<u32> = Vec::new();
    let mut i: u32 = 0;
    while i < 256
        invariant
            i <= 256,
            table@.len() == i,
            forall|j: int| 0 <= j < i ==> #[trigger] table@[j] == crc_steps(j as u32, 8),
        decreases 256 - i,
    {
        let mut c: u32 = i;
        let mut k: usize = 0;
        while k < 8
            invariant
                k <= 8,
                crc_steps(c, (8 - k) as nat) == crc_steps(i, 8),
            decreases 8 - k,
        {
            let ghost prev = c;
            assert((c & 1 != 0) == (c & 1u32 == 1u32)) by (bit_vector);
            if c & 1 != 0 {
                c = 0xEDB8_8320 ^ (c >> 1);
            } else {
                c = c >> 1;
            }
            assert(c == crc_step(prev));
            k += 1;
        }
        table.push(c);
        i += 1;
    }
    table
}

/// Compute CRC32 (ISO 3309 / IEEE 802.3) of `data`.
pub fn crc32(data: &[u8]) -> (crc: u32)
    ensures
        crc == spec_crc32(data@),
{
    let table = make_crc_table();
    let mut crc: u32 = 0xFFFF_FFFF;
    let mut i: usize = 0;
    while i < data.len()
        invariant
            table@.len() == 256,
            forall|j: int| 0 <= j < 256 ==> #[trigger] table@[j] == crc_steps(j as u32, 8),
            i <= data@.len(),
            crc == crc_register(data@.subrange(0, i as int)),
        decreases data@.len() - i,
    {
        let b = data[i];
        let idx = (crc ^ (b as u32)) & 0xFF;
        proof {
            lemma_table_update(crc, b);
            assert(data@.subrange(0, i + 1).drop_last() == data@.subrange(0, i as int));
            assert(idx < 256) by (bit_vector)
                requires
                    idx == (crc ^ (b as u32)) & 0xFF,
            ;
        }
        crc = table[idx as usize] ^ (crc >> 8);
        i += 1;
    }
    proof {
        assert(data@.subrange(0, data@.len() as int) == data@);
    }
    crc ^ 0xFFFF_FFFF
}

// ───────────────────────────── Header ─────────────────────────────

#[derive(Debug, Clone, Copy)]
pub struct PpmoHeader {
    pub flags: u8,
    pub block_count: u32,
    pub original_size: u64,
    pub block_size: u32,
}

#[derive(Debug, Clone, Copy)]
pub struct BlockEntry {
    pub compressed_len: u32,
    pub uncompressed_len: u32,
    pub crc32: u32,
}

pub open spec fn magic_bytes() -> Seq<u8> {
    seq![0x50u8, 0x50u8, 0x4Du8, 0x4Fu8]
}

/// Bytes 0..22 of the header: everything the header CRC covers.
pub open spec fn header_prefix(h: PpmoHeader) -> Seq<u8> {
    magic_bytes() + seq![VERSION, h.flags] + spec_u32_to_le_bytes(h.block_count)
        + spec_u64_to_le_bytes(h.original_size) + spec_u32_to_le_bytes(h.block_size)
}

/// The 12 bytes of one directory entry.
pub open spec fn entry_bytes(e: BlockEntry) -> Seq<u8> {
    spec_u32_to_le_bytes(e.compressed_len) + spec_u32_to_le_bytes(e.uncompressed_len)
        + spec_u32_to_le_bytes(e.crc32)
}

/// The block directory, entry after entry.
pub open spec fn directory_bytes(d: Seq<BlockEntry>) -> Seq<u8>
    decreases d.len(),
{
    if d.len() == 0 {
        Seq::empty()
    } else {
        directory_bytes(d.drop_last()) + entry_bytes(d.last())
    }
}

/// The full serialised header: prefix, its CRC32, then the directory.
pub open spec fn header_bytes(h: PpmoHeader, d: Seq<BlockEntry>) -> Seq<u8> {
    header_prefix(h) + spec_u32_to_le_bytes(spec_crc32(header_prefix(h))) + directory_bytes(d)
}

pub open spec fn le32_at(data: Seq<u8>, at: int) -> u32 {
    spec_u32_from_le_bytes(data.subrange(at, at + 4))
}

/// The directory entry stored at byte offset `at`.
pub open spec fn entry_at(data: Seq<u8>, at: int) -> BlockEntry {
    BlockEntry {
        compressed_len: le32_at(data, at),
        uncompressed_len: le32_at(data, at + 4),
        crc32: le32_at(data, at + 8),
    }
}

/// The header fields stored in bytes 0..22.
pub open spec fn header_at(data: Seq<u8>) -> PpmoHeader {
    PpmoHeader {
        flags: data[5],
        block_count: le32_at(data, 6),
        original_size: spec_u64_from_le_bytes(data.subrange(10, 18)),
        block_size: le32_at(data, 18),
    }
}

pub open spec fn has_magic(data: Seq<u8>) -> bool {
    &&& data[0] == 0x50u8
    &&& data[1] == 0x50u8
    &&& data[2] == 0x4Du8
    &&& data[3] == 0x4Fu8
}

/// End of the block directory announced by a header with `block_count` entries.
pub open spec fn directory_end(block_count: u32) -> int {
    HEADER_BASE_LEN + 12 * block_count
}

/// What reading a header from `data` yields: the header, its directory and the
/// offset of the first block payload, or the error.
pub open spec fn parse_header(data: Seq<u8>) -> Result<(PpmoHeader, Seq<BlockEntry>, int), ErrorView> {
    if data.len() < HEADER_BASE_LEN {
        Err(ErrorView::InvalidHeader("file too short"@))
    } else if !has_magic(data) {
        Err(ErrorView::InvalidHeader("bad magic"@))
    } else if data[4] != VERSION {
        Err(ErrorView::InvalidHeader(version_message(data[4])))
    } else if le32_at(data, 22) != spec_crc32(data.subrange(0, 22)) {
        Err(ErrorView::ChecksumMismatch)
    } else {
        let h = header_at(data);
        let end = directory_end(h.block_count);
        if data.len() < end {
            Err(ErrorView::InvalidHeader("truncated block directory"@))
        } else {
            Ok(
                (
                    h,
                    Seq::new(h.block_count as nat, |i: int| entry_at(data, HEADER_BASE_LEN + 12 * i)),
                    end,
                ),
            )
        }
    }
}

/// Appends `src` to `buf`.
pub fn append_bytes(buf: &mut Vec<u8>, src: &[u8])
    ensures
        final(buf)@ == old(buf)@ + src@,
{
    let mut i: usize = 0;
    while i < src.len()
        invariant
            i <= src@.len(),
            buf@ == old(buf)@ + src@.subrange(0, i as int),
        decreases src@.len() - i,
    {
        buf.push(src[i]);
        i += 1;
        proof {
            assert(buf@ == old(buf)@ + src@.subrange(0, i as int));
        }
    }
    proof {
        assert(src@.subrange(0, src@.len() as int) == src@);
    }
}

/// Serialize the full file header (base + block directory) to a `Vec<u8>`.
pub fn write_header(hdr: &PpmoHeader, directory: &[BlockEntry]) -> (buf: Vec<u8>)
    ensures
        buf@ == header_bytes(*hdr, directory@),
{
    proof {
        lemma_auto_spec_u32_to_from_le_bytes();
        lemma_auto_spec_u64_to_from_le_bytes();
    }
    let mut buf: Vec<u8> = Vec::new();
    buf.push(MAGIC[0]);
    buf.push(MAGIC[1]);
    buf.push(MAGIC[2]);
    buf.push(MAGIC[3]);
    buf.push(VERSION);
    buf.push(hdr.flags);
    let b = u32_to_le_bytes(hdr.block_count);
    append_bytes(&mut buf, b.as_slice());
    let b = u64_to_le_bytes(hdr.original_size);
    append_bytes(&mut buf, b.as_slice());
    let b = u32_to_le_bytes(hdr.block_size);
    append_bytes(&mut buf, b.as_slice());
    assert(buf@ == header_prefix(*hdr));

    let header_crc = crc32(slice_subrange(buf.as_slice(), 0, 22));
    assert(buf@.subrange(0, 22) == buf@);
    let b = u32_to_le_bytes(header_crc);
    append_bytes(&mut buf, b.as_slice());

    let mut i: usize = 0;
    while i < directory.len()
        invariant
            i <= directory@.len(),
            buf@ == header_prefix(*hdr) + spec_u32_to_le_bytes(spec_crc32(header_prefix(*hdr)))
                + directory_bytes(directory@.subrange(0, i as int)),
        decreases directory@.len() - i,
    {
        let entry = directory[i];
        let b = u32_to_le_bytes(entry.compressed_len);
        append_bytes(&mut buf, b.as_slice());
        let b = u32_to_le_bytes(entry.uncompressed_len);
        append_bytes(&mut buf, b.as_slice());
        let b = u32_to_le_bytes(entry.crc32);
        append_bytes(&mut buf, b.as_slice());
        proof {
            let d = directory@.subrange(0, i + 1);
            assert(d.drop_last() == directory@.subrange(0, i as int));
            assert(d.last() == entry);
        }
        i += 1;
    }
    proof {
        assert(directory@.subrange(0, directory@.len() as int) == directory@);
    }
    buf
}

fn read_u32_at(data: &[u8], at: usize) -> (x: u32)
    requires
        at + 4 <= data.len(),
    ensures
        x == le32_at(data@, at as int),
{
    u32_from_le_bytes(slice_subrange(data, at, at + 4))
}

/// Parse the file header from `data`, return `(PpmoHeader, Vec<BlockEntry>, data_offset)`.
pub fn read_header(data: &[u8]) -> (res: Result<(PpmoHeader, Vec<BlockEntry>, usize), EngineError>)
    ensures
        match parse_header(data@) {
            Ok((h, d, off)) => res matches Ok((h2, d2, off2)) && h2 == h && d2@ == d && off2 == off,
            Err(e) => res matches Err(e2) && e2@ == e,
        },
{
    if data.len() < HEADER_BASE_LEN {
        return Err(EngineError::InvalidHeader("file too short".to_owned()));
    }
    if data[0] != MAGIC[0] || data[1] != MAGIC[1] || data[2] != MAGIC[2] || data[3] != MAGIC[3] {
        return Err(EngineError::InvalidHeader("bad magic".to_owned()));
    }
    if data[4] != VERSION {
        let mut msg = String::new();
        push_version_message(&mut msg, data[4]);
        return Err(EngineError::InvalidHeader(msg));
    }
    let flags = data[5];
    let block_count = read_u32_at(data, 6);
    let original_size = u64_from_le_bytes(slice_subrange(data, 10, 18));
    let block_size = read_u32_at(data, 18);

    let stored_crc = read_u32_at(data, 22);
    let computed_crc = crc32(slice_subrange(data, 0, 22));
    if stored_crc != computed_crc {
        return Err(EngineError::ChecksumMismatch);
    }

    let dir_end_wide: u64 = 26 + (block_count as u64) * 12;
    if (data.len() as u64) < dir_end_wide {
        return Err(EngineError::InvalidHeader("truncated block directory".to_owned()));
    }
    let dir_end = dir_end_wide as usize;

    let mut directory: Vec<BlockEntry> = Vec::new();
    let mut i: usize = 0;
    let count = block_count as usize;
    while i < count
        invariant
            count == block_count,
            i <= count,
            dir_end == directory_end(block_count),
            dir_end <= data@.len(),
            directory@ == Seq::new(i as nat, |k: int| entry_at(data@, HEADER_BASE_LEN + 12 * k)),
        decreases count - i,
    {
        let base = HEADER_BASE_LEN + i * 12;
        let compressed_len = read_u32_at(data, base);
        let uncompressed_len = read_u32_at(data, base + 4);
        let block_crc = read_u32_at(data, base + 8);
        directory.push(BlockEntry { compressed_len, uncompressed_len, crc32: block_crc });
        i += 1;
        proof {
            assert(directory@ =~= Seq::new(i as nat, |k: int| entry_at(data@, HEADER_BASE_LEN + 12 * k)));
        }
    }
    Ok((PpmoHeader { flags, block_count, original_size, block_size }, directory, dir_end))
}

// ───────────────────────────── round trip ─────────────────────────────

pub(crate) proof fn lemma_directory_bytes(d: Seq<BlockEntry>)
    ensures
        directory_bytes(d).len() == 12 * d.len(),
        forall|k: int|
            0 <= k < d.len() ==> #[trigger] directory_bytes(d).subrange(12 * k, 12 * k + 12)
                == entry_bytes(d[k]),
    decreases d.len(),
{
    lemma_auto_spec_u32_to_from_le_bytes();
    if d.len() > 0 {
        let p = d.drop_last();
        lemma_directory_bytes(p);
        let all = directory_bytes(d);
        assert(all == directory_bytes(p) + entry_bytes(d.last()));
        assert forall|k: int| 0 <= k < d.len() implies #[trigger] all.subrange(12 * k, 12 * k + 12)
            == entry_bytes(d[k]) by {
            if k < d.len() - 1 {
                assert(all.subrange(12 * k, 12 * k + 12) == directory_bytes(p).subrange(
                    12 * k,
                    12 * k + 12,
                ));
                assert(p[k] == d[k]);
            } else {
                assert(all.subrange(12 * k, 12 * k + 12) == entry_bytes(d.last()));
            }
        }
    }
}

/// Reading back a written header gives the header, the directory and the offset
/// just past the directory, whenever the header counts the directory's entries,
/// whatever follows the header.
pub proof fn lemma_header_round_trip(h: PpmoHeader, d: Seq<BlockEntry>, rest: Seq<u8>)
    requires
        h.block_count == d.len(),
    ensures
        parse_header(header_bytes(h, d) + rest) == Ok::<_, ErrorView>(
            (h, d, HEADER_BASE_LEN + 12 * d.len()),
        ),
{
    lemma_auto_spec_u32_to_from_le_bytes();
    lemma_auto_spec_u64_to_from_le_bytes();
    lemma_directory_bytes(d);
    let p = header_prefix(h);
    let hb = header_bytes(h, d);
    let bytes = hb + rest;
    assert(hb.len() == HEADER_BASE_LEN + 12 * d.len());
    assert(bytes.subrange(0, hb.len() as int) == hb);
    assert(p.len() == 22);
    assert(bytes.subrange(0, 22) == p);
    assert(bytes.subrange(22, 26) == spec_u32_to_le_bytes(spec_crc32(p)));
    assert(bytes.subrange(6, 10) == spec_u32_to_le_bytes(h.block_count));
    assert(bytes.subrange(10, 18) == spec_u64_to_le_bytes(h.original_size));
    assert(bytes.subrange(18, 22) == spec_u32_to_le_bytes(h.block_size));
    assert(header_at(bytes) == h);
    let parsed = Seq::new(h.block_count as nat, |i: int| entry_at(bytes, HEADER_BASE_LEN + 12 * i));
    assert forall|i: int| 0 <= i < d.len() implies #[trigger] parsed[i] == d[i] by {
        let e = d[i];
        let at = HEADER_BASE_LEN + 12 * i;
        assert(bytes.subrange(at, at + 12) == hb.subrange(at, at + 12));
        assert(hb.subrange(at, at + 12) == directory_bytes(d).subrange(12 * i, 12 * i + 12));
        let eb = entry_bytes(e);
        let chunk = bytes.subrange(at, at + 12);
        assert(chunk == eb);
        assert(eb.subrange(0, 4) == spec_u32_to_le_bytes(e.compressed_len));
        assert(eb.subrange(4, 8) == spec_u32_to_le_bytes(e.uncompressed_len));
        assert(eb.subrange(8, 12) == spec_u32_to_le_bytes(e.crc32));
        assert(bytes.subrange(at, at + 4) == chunk.subrange(0, 4));
        assert(bytes.subrange(at + 4, at + 8) == chunk.subrange(4, 8));
        assert(bytes.subrange(at + 8, at + 12) == chunk.subrange(8, 12));
        assert(bytes.subrange(at, at + 4) == spec_u32_to_le_bytes(e.compressed_len));
        assert(bytes.subrange(at + 4, at + 8) == spec_u32_to_le_bytes(e.uncompressed_len));
        assert(bytes.subrange(at + 8, at + 12) == spec_u32_to_le_bytes(e.crc32));
    }
    assert(parsed == d);
}

} // verus!
