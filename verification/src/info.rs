//! Inspection and integrity verification for PPMO archives.
//!
//! `inspect` reads an archive's metadata from its header and block directory
//! alone; `verify` decompresses every block, checks its CRC32, and checks that
//! the blocks add up to the header's original size, keeping one block at a time.
use vstd::prelude::*;
use vstd::slice::slice_subrange;
use crate::block::{spec_decompress_block, decompress_block, chunks, concat, entry_of_block};
use crate::compress::{
    CompressOptions, spec_compress, header_of, block_encodings, directory_of, within_format_limits,
};
use crate::decompress::{
    lemma_archive_layout, blocks_from, spec_decompress, block_start, blocks_checked, lemma_block_start_shift,
};
use crate::format::{
    crc32, spec_crc32, parse_header, read_header, header_bytes, BlockEntry, VERSION, FLAG_PARALLEL,
};
use crate::text::{decimal, push_decimal};
use crate::{EngineError, ErrorView};

verus! {

/// Metadata describing a PPMO archive, derived purely from its header and
/// block directory (no block payloads are decoded).
#[derive(Debug, Clone, Copy)]
pub struct ArchiveInfo {
    /// PPMO format version byte.
    pub version: u8,
    /// `true` if the archive was produced with parallel block compression.
    pub parallel: bool,
    /// Number of blocks in the archive.
    pub block_count: u32,
    /// Original (uncompressed) size in bytes.
    pub original_size: u64,
    /// Configured block size in bytes.
    pub block_size: u32,
    /// Total compressed size of the archive in bytes (header + payload).
    pub compressed_size: u64,
}

/// What inspecting `input` yields: the metadata of its header, or the error.
pub open spec fn spec_inspect(input: Seq<u8>) -> Result<ArchiveInfo, ErrorView> {
    match parse_header(input) {
        Err(x) => Err(x),
        Ok((h, dir, off)) => Ok(
            ArchiveInfo {
                version: VERSION,
                parallel: h.flags & FLAG_PARALLEL != 0,
                block_count: h.block_count,
                original_size: h.original_size,
                block_size: h.block_size,
                compressed_size: input.len() as u64,
            },
        ),
    }
}

/// Message for block `i` running past the end of the archive.
pub open spec fn truncated_message(i: nat) -> Seq<char> {
    "block "@ + decimal(i) + ": truncated block data"@
}

/// Message for blocks that do not add up to the header's size.
pub open spec fn claim_message(claimed: nat, total: nat) -> Seq<char> {
    "size mismatch: header claims "@ + decimal(claimed) + " bytes, blocks sum to "@ + decimal(total)
}

/// The total size of the blocks described by `dir` (the first of them block
/// `i`), stored from offset `off` of `input` on, once each is decompressed and
/// checked; or the first error.
pub open spec fn checked_total(input: Seq<u8>, dir: Seq<BlockEntry>, off: int, i: nat) -> Result<nat, ErrorView>
    decreases dir.len(),
{
    if dir.len() == 0 {
        Ok(0)
    } else {
        let e = dir[0];
        let end = off + e.compressed_len;
        if end > input.len() {
            Err(ErrorView::DecompressError(truncated_message(i)))
        } else {
            match spec_decompress_block(input.subrange(off, end), e.uncompressed_len as nat) {
                Err(x) => Err(x),
                Ok(raw) => if spec_crc32(raw) != e.crc32 {
                    Err(ErrorView::ChecksumMismatch)
                } else {
                    match checked_total(input, dir.drop_first(), end, i + 1) {
                        Ok(t) => Ok(raw.len() + t),
                        Err(x) => Err(x),
                    }
                },
            }
        }
    }
}

/// What verifying `input` yields: its metadata when every block decompresses,
/// matches its CRC32 and the blocks add up to the header's size; or the first error.
pub open spec fn spec_verify(input: Seq<u8>) -> Result<ArchiveInfo, ErrorView> {
    match parse_header(input) {
        Err(x) => Err(x),
        Ok((h, dir, off)) => match checked_total(input, dir, off, 0) {
            Err(x) => Err(x),
            Ok(total) => if total != h.original_size {
                Err(ErrorView::DecompressError(claim_message(h.original_size as nat, total)))
            } else {
                spec_inspect(input)
            },
        },
    }
}

/// Read an archive's metadata without decompressing any block payloads.
///
/// This only parses and CRC-checks the header/block directory, so it is cheap
/// even for very large archives. Use [`verify`] for a full integrity check.
pub fn inspect(input: &[u8]) -> (r: Result<ArchiveInfo, EngineError>)
    ensures
        match spec_inspect(input@) {
            Ok(info) => r == Ok::<ArchiveInfo, EngineError>(info),
            Err(ev) => r matches Err(err) && err@ == ev,
        },
{
    let (header, _directory, _data_offset) = match read_header(input) {
        Ok(x) => x,
        Err(err) => {
            return Err(err);
        },
    };
    Ok(
        ArchiveInfo {
            version: VERSION,
            parallel: header.flags & FLAG_PARALLEL != 0,
            block_count: header.block_count,
            original_size: header.original_size,
            block_size: header.block_size,
            compressed_size: input.len() as u64,
        },
    )
}

/// Fully verify the integrity of a PPMO archive.
///
/// Every block is decompressed and its CRC32 is compared against the value
/// stored in the block directory, and the reconstructed total length is checked
/// against the header's `original_size`. The decompressed bytes are discarded
/// as the pass proceeds.
///
/// Returns the validated [`ArchiveInfo`] on success, or the first
/// [`EngineError`] encountered.
pub fn verify(input: &[u8]) -> (r: Result<ArchiveInfo, EngineError>)
    ensures
        match spec_verify(input@) {
            Ok(info) => r == Ok::<ArchiveInfo, EngineError>(info),
            Err(ev) => r matches Err(err) && err@ == ev,
        },
{
    let (header, directory, data_offset) = match read_header(input) {
        Ok(x) => x,
        Err(err) => {
            return Err(err);
        },
    };
    let ghost dir = directory@;
    let ghost off0 = data_offset as int;
    let mut data_offset = data_offset;
    let mut total: u128 = 0;
    let mut i: usize = 0;
    assert(dir.skip(0) == dir);
    while i < directory.len()
        invariant
            dir == directory@,
            parse_header(input@) == Ok::<_, ErrorView>((header, dir, off0)),
            i <= dir.len(),
            data_offset <= input@.len(),
            total <= 0xFFFF_FFFF_FFFF_FFFF * i,
            checked_total(input@, dir, off0, 0) == match checked_total(
                input@,
                dir.skip(i as int),
                data_offset as int,
                i as nat,
            ) {
                Ok(t) => Ok((total + t) as nat),
                Err(x) => Err::<nat, ErrorView>(x),
            },
        decreases dir.len() - i,
    {
        let entry = directory[i];
        let ghost suffix = dir.skip(i as int);
        assert(suffix[0] == entry);
        assert(suffix.drop_first() == dir.skip(i + 1));
        if entry.compressed_len as usize > input.len() - data_offset {
            let mut msg = String::new();
            msg.append("block ");
            push_decimal(&mut msg, i as u128);
            msg.append(": truncated block data");
            return Err(EngineError::DecompressError(msg));
        }
        let end = data_offset + entry.compressed_len as usize;
        let block_data = slice_subrange(input, data_offset, end);
        let raw = match decompress_block(block_data, entry.uncompressed_len as usize) {
            Ok(v) => v,
            Err(err) => {
                return Err(err);
            },
        };
        if crc32(raw.as_slice()) != entry.crc32 {
            return Err(EngineError::ChecksumMismatch);
        }
        assert(total + raw.len() <= 0xFFFF_FFFF_FFFF_FFFF * (i + 1)) by (nonlinear_arith)
            requires
                total <= 0xFFFF_FFFF_FFFF_FFFF * i,
                raw.len() <= 0xFFFF_FFFF_FFFF_FFFF,
        ;
        total = total + raw.len() as u128;
        data_offset = end;
        i += 1;
    }
    assert(dir.skip(i as int).len() == 0);
    if total != header.original_size as u128 {
        let mut msg = String::new();
        msg.append("size mismatch: header claims ");
        push_decimal(&mut msg, header.original_size as u128);
        msg.append(" bytes, blocks sum to ");
        push_decimal(&mut msg, total);
        return Err(EngineError::DecompressError(msg));
    }
    inspect(input)
}

// ───────────────────────────── laws ─────────────────────────────

/// The metadata of the archive of `input`.
pub open spec fn archive_info(input: Seq<u8>, opts: CompressOptions) -> ArchiveInfo {
    ArchiveInfo {
        version: VERSION,
        parallel: opts.parallel,
        block_count: chunks(input, opts.block_size as nat).len() as u32,
        original_size: input.len() as u64,
        block_size: opts.block_size as u32,
        compressed_size: spec_compress(input, opts).len() as u64,
    }
}

/// Inspecting an archive reports the options and sizes it was made with.
pub proof fn lemma_inspect_archive(input: Seq<u8>, opts: CompressOptions)
    requires
        within_format_limits(input, opts),
    ensures
        spec_inspect(spec_compress(input, opts)) == Ok::<ArchiveInfo, ErrorView>(archive_info(input, opts)),
{
    lemma_archive_layout(input, opts);
    assert(1u8 & 1u8 != 0u8) by (bit_vector);
    assert(0u8 & 1u8 == 0u8) by (bit_vector);
}

proof fn lemma_checked_total(
    prefix: Seq<u8>,
    encs: Seq<Seq<u8>>,
    bs: Seq<Seq<u8>>,
    dir: Seq<BlockEntry>,
    i: nat,
)
    requires
        encs.len() == bs.len(),
        dir.len() == bs.len(),
        forall|k: int| 0 <= k < bs.len() ==> (#[trigger] dir[k]) == entry_of_block(bs[k], encs[k]),
        forall|k: int| 0 <= k < bs.len() ==> (#[trigger] encs[k]).len() <= 0xFFFF_FFFF,
        forall|k: int| 0 <= k < bs.len() ==> (#[trigger] bs[k]).len() <= 0xFFFF_FFFF,
        forall|k: int|
            0 <= k < bs.len() ==> spec_decompress_block(#[trigger] encs[k], bs[k].len()) == Ok::<
                Seq<u8>,
                ErrorView,
            >(bs[k]),
    ensures
        checked_total(prefix + concat(encs), dir, prefix.len() as int, i) == Ok::<nat, ErrorView>(
            concat(bs).len(),
        ),
    decreases bs.len(),
{
    if bs.len() > 0 {
        let input = prefix + concat(encs);
        let e0 = encs[0];
        let b0 = bs[0];
        assert(dir[0] == entry_of_block(b0, e0));
        assert(spec_decompress_block(e0, b0.len()) == Ok::<Seq<u8>, ErrorView>(b0));
        let p2 = prefix + e0;
        assert(input == p2 + concat(encs.drop_first()));
        assert(input.subrange(prefix.len() as int, p2.len() as int) == e0);
        lemma_checked_total(p2, encs.drop_first(), bs.drop_first(), dir.drop_first(), i + 1);
    } else {
        assert(concat(encs) == Seq::<u8>::empty());
    }
}

/// Verifying an archive accepts it and reports its metadata.
pub proof fn lemma_verify_accepts(input: Seq<u8>, opts: CompressOptions)
    requires
        within_format_limits(input, opts),
    ensures
        spec_verify(spec_compress(input, opts)) == Ok::<ArchiveInfo, ErrorView>(archive_info(input, opts)),
{
    lemma_archive_layout(input, opts);
    lemma_inspect_archive(input, opts);
    let dir = directory_of(input, opts);
    let hb = header_bytes(header_of(input, opts), dir);
    lemma_checked_total(hb, block_encodings(input, opts), chunks(input, opts.block_size as nat), dir, 0);
}

proof fn lemma_checked_blocks(input: Seq<u8>, dir: Seq<BlockEntry>, off: int, i: nat)
    ensures
        (checked_total(input, dir, off, i) is Ok) == (blocks_from(input, dir, off) is Ok),
        checked_total(input, dir, off, i) is Ok ==> checked_total(input, dir, off, i)->Ok_0 == blocks_from(
            input,
            dir,
            off,
        )->Ok_0.len(),
    decreases dir.len(),
{
    if dir.len() > 0 {
        let end = off + dir[0].compressed_len;
        lemma_checked_blocks(input, dir.drop_first(), end, i + 1);
    }
}

/// The integrity check accepts exactly the archives that decompress, and then
/// reports what inspecting the archive reports, with the decompressed size as
/// the original size.
pub proof fn lemma_verify_agrees(input: Seq<u8>)
    ensures
        (spec_verify(input) is Ok) == (spec_decompress(input) is Ok),
        spec_verify(input) is Ok ==> spec_verify(input) == spec_inspect(input)
            && spec_verify(input)->Ok_0.original_size == spec_decompress(input)->Ok_0.len(),
{
    if let Ok((h, dir, off)) = parse_header(input) {
        lemma_checked_blocks(input, dir, off, 0);
    }
}

proof fn lemma_checked_total_checked(input: Seq<u8>, dir: Seq<BlockEntry>, off: int, k: nat)
    requires
        checked_total(input, dir, off, k) is Ok,
    ensures
        blocks_checked(input, dir, off),
    decreases dir.len(),
{
    if dir.len() > 0 {
        let end = off + dir[0].compressed_len;
        let rest = dir.drop_first();
        lemma_checked_total_checked(input, rest, end, k + 1);
        assert forall|i: int| 0 <= i < dir.len() implies {
            let s = #[trigger] block_start(dir, off, i);
            let e = s + dir[i].compressed_len;
            &&& off <= s
            &&& e <= input.len()
            &&& spec_decompress_block(input.subrange(s, e), dir[i].uncompressed_len as nat) matches Ok(raw)
                && spec_crc32(raw) == dir[i].crc32
        } by {
            if i > 0 {
                lemma_block_start_shift(dir, off, i);
                assert(rest[i - 1] == dir[i]);
                assert(block_start(rest, end, i - 1) == block_start(dir, off, i));
            }
        }
    }
}

/// The integrity pass checks every block: when it succeeds, each block named in
/// the directory lies inside the archive, decompresses, and matches the CRC-32
/// its directory entry records.
pub proof fn lemma_verify_checks_every_block(input: Seq<u8>)
    requires
        spec_verify(input) is Ok,
    ensures
        parse_header(input) matches Ok((h, dir, off)) && blocks_checked(input, dir, off),
{
    if let Ok((h, dir, off)) = parse_header(input) {
        lemma_checked_total_checked(input, dir, off, 0);
    }
}

} // verus!
