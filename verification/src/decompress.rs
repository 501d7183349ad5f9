//! Top-level decompress() entry point, and the round trip of the whole format.
use vstd::prelude::*;
use vstd::slice::slice_subrange;
use crate::block::{
    chunks, concat, block_encoding, entry_of_block, spec_decompress_block, decompress_block, lemma_chunks,
    lemma_block_round_trip,
};
use crate::compress::{
    CompressOptions, spec_compress, header_of, block_encodings, directory_of, within_format_limits,
};
use crate::format::{
    crc32, spec_crc32, parse_header, read_header, append_bytes, header_bytes, header_prefix, header_at,
    has_magic, directory_end, directory_bytes, entry_at, le32_at, BlockEntry, lemma_header_round_trip,
    HEADER_BASE_LEN, PpmoHeader,
};
use vstd::bytes::spec_u32_to_le_bytes;
use crate::text::{decimal, push_decimal};
use crate::{EngineError, ErrorView};

verus! {

/// What the blocks described by `dir`, stored from offset `off` of `input` on,
/// decompress to: the bytes of the blocks one after the other, or the first error.
pub open spec fn blocks_from(input: Seq<u8>, dir: Seq<BlockEntry>, off: int) -> Result<Seq<u8>, ErrorView>
    decreases dir.len(),
{
    if dir.len() == 0 {
        Ok(Seq::empty())
    } else {
        let e = dir[0];
        let end = off + e.compressed_len;
        if end > input.len() {
            Err(ErrorView::DecompressError("truncated block data"@))
        } else {
            match spec_decompress_block(input.subrange(off, end), e.uncompressed_len as nat) {
                Err(x) => Err(x),
                Ok(raw) => if spec_crc32(raw) != e.crc32 {
                    Err(ErrorView::ChecksumMismatch)
                } else {
                    match blocks_from(input, dir.drop_first(), end) {
                        Ok(rest) => Ok(raw + rest),
                        Err(x) => Err(x),
                    }
                },
            }
        }
    }
}

/// Message for decompressed bytes that do not add up to the header's size.
pub open spec fn size_message(expected: nat, got: nat) -> Seq<char> {
    "size mismatch: expected "@ + decimal(expected) + " bytes, got "@ + decimal(got)
}

/// What decompressing `input` yields: the original bytes, or the error.
pub open spec fn spec_decompress(input: Seq<u8>) -> Result<Seq<u8>, ErrorView> {
    match parse_header(input) {
        Err(x) => Err(x),
        Ok((h, dir, off)) => match blocks_from(input, dir, off) {
            Err(x) => Err(x),
            Ok(out) => if out.len() != h.original_size {
                Err(ErrorView::DecompressError(size_message(h.original_size as nat, out.len())))
            } else {
                Ok(out)
            },
        },
    }
}

/// Decompress a PPMO-compressed buffer and return the original bytes.
pub fn decompress(input: &[u8]) -> (r: Result<Vec<u8>, EngineError>)
    ensures
        match spec_decompress(input@) {
            Ok(bytes) => r matches Ok(v) && v@ == bytes,
            Err(ev) => r matches Err(err) && err@ == ev,
        },
{
    let (header, directory, data_offset) = match read_header(input) {
        Ok(x) => x,
        Err(err) => {
            return Err(err);
        },
    };
    let ghost dir = directory@;
    let ghost off0 = data_offset as int;
    let mut data_offset = data_offset;
    let mut out: Vec<u8> = Vec::new();
    let mut i: usize = 0;
    assert(dir.skip(0) == dir);
    assert(out@ + Seq::<u8>::empty() == out@);
    while i < directory.len()
        invariant
            dir == directory@,
            parse_header(input@) == Ok::<_, ErrorView>((header, dir, off0)),
            i <= dir.len(),
            data_offset <= input@.len(),
            blocks_from(input@, dir, off0) == match blocks_from(input@, dir.skip(i as int), data_offset as int) {
                Ok(rest) => Ok(out@ + rest),
                Err(x) => Err::<Seq<u8>, ErrorView>(x),
            },
        decreases dir.len() - i,
    {
        let entry = directory[i];
        let ghost suffix = dir.skip(i as int);
        assert(suffix[0] == entry);
        assert(suffix.drop_first() == dir.skip(i + 1));
        if entry.compressed_len as usize > input.len() - data_offset {
            return Err(EngineError::DecompressError("truncated block data".to_owned()));
        }
        let end = data_offset + entry.compressed_len as usize;
        let block_data = slice_subrange(input, data_offset, end);
        let raw = match decompress_block(block_data, entry.uncompressed_len as usize) {
            Ok(v) => v,
            Err(err) => {
                return Err(err);
            },
        };
        if crc32(raw.as_slice()) != entry.crc32 {
            return Err(EngineError::ChecksumMismatch);
        }
        let ghost before = out@;
        append_bytes(&mut out, raw.as_slice());
        proof {
            match blocks_from(input@, dir.skip(i + 1), end as int) {
                Ok(rest) => {
                    assert(out@ + rest == before + (raw@ + rest));
                },
                Err(x) => {},
            }
        }
        data_offset = end;
        i += 1;
    }
    assert(dir.skip(i as int).len() == 0);
    assert(out@ + Seq::<u8>::empty() == out@);
    if out.len() as u64 != header.original_size {
        let mut msg = String::new();
        msg.append("size mismatch: expected ");
        push_decimal(&mut msg, header.original_size as u128);
        msg.append(" bytes, got ");
        push_decimal(&mut msg, out.len() as u128);
        return Err(EngineError::DecompressError(msg));
    }
    Ok(out)
}

// ───────────────────────────── the round trip ─────────────────────────────

proof fn lemma_blocks_from(prefix: Seq<u8>, encs: Seq<Seq<u8>>, bs: Seq<Seq<u8>>, dir: Seq<BlockEntry>)
    requires
        encs.len() == bs.len(),
        dir.len() == bs.len(),
        forall|i: int| 0 <= i < bs.len() ==> (#[trigger] dir[i]) == entry_of_block(bs[i], encs[i]),
        forall|i: int| 0 <= i < bs.len() ==> (#[trigger] encs[i]).len() <= 0xFFFF_FFFF,
        forall|i: int| 0 <= i < bs.len() ==> (#[trigger] bs[i]).len() <= 0xFFFF_FFFF,
        forall|i: int|
            0 <= i < bs.len() ==> spec_decompress_block(#[trigger] encs[i], bs[i].len()) == Ok::<
                Seq<u8>,
                ErrorView,
            >(bs[i]),
    ensures
        blocks_from(prefix + concat(encs), dir, prefix.len() as int) == Ok::<Seq<u8>, ErrorView>(concat(bs)),
    decreases bs.len(),
{
    if bs.len() > 0 {
        let input = prefix + concat(encs);
        let e0 = encs[0];
        let b0 = bs[0];
        assert(dir[0] == entry_of_block(b0, e0));
        assert(spec_decompress_block(e0, b0.len()) == Ok::<Seq<u8>, ErrorView>(b0));
        let p2 = prefix + e0;
        assert(input == p2 + concat(encs.drop_first()));
        assert(input.subrange(prefix.len() as int, p2.len() as int) == e0);
        lemma_blocks_from(p2, encs.drop_first(), bs.drop_first(), dir.drop_first());
    } else {
        assert(concat(encs) == Seq::<u8>::empty());
    }
}

/// The layout of an archive within the format's limits: its header reads back,
/// and each block of the directory describes one compressed block that
/// decompresses to the corresponding piece of the input.
pub proof fn lemma_archive_layout(input: Seq<u8>, opts: CompressOptions)
    requires
        within_format_limits(input, opts),
    ensures
        ({
            let bs = chunks(input, opts.block_size as nat);
            let encs = block_encodings(input, opts);
            let dir = directory_of(input, opts);
            let hb = header_bytes(header_of(input, opts), dir);
            &&& spec_compress(input, opts) == hb + concat(encs)
            &&& parse_header(spec_compress(input, opts)) == Ok::<_, ErrorView>(
                (header_of(input, opts), dir, hb.len() as int),
            )
            &&& concat(bs) == input
            &&& encs.len() == bs.len()
            &&& dir.len() == bs.len()
            &&& forall|i: int| 0 <= i < bs.len() ==> (#[trigger] dir[i]) == entry_of_block(bs[i], encs[i])
            &&& forall|i: int| 0 <= i < bs.len() ==> (#[trigger] encs[i]).len() <= 0xFFFF_FFFF
            &&& forall|i: int| 0 <= i < bs.len() ==> (#[trigger] bs[i]).len() <= 0xFFFF_FFFF
            &&& forall|i: int|
                0 <= i < bs.len() ==> spec_decompress_block(#[trigger] encs[i], bs[i].len()) == Ok::<
                    Seq<u8>,
                    ErrorView,
                >(bs[i])
        }),
{
    let bs = chunks(input, opts.block_size as nat);
    let encs = block_encodings(input, opts);
    let dir = directory_of(input, opts);
    let h = header_of(input, opts);
    if opts.block_size > 0 {
        lemma_chunks(input, opts.block_size as nat);
    } else {
        assert(concat(bs) == input);
    }
    lemma_header_round_trip(h, dir, concat(encs));
    let hb = header_bytes(h, dir);
    lemma_header_len(h, dir);
    assert forall|i: int| 0 <= i < bs.len() implies spec_decompress_block(#[trigger] encs[i], bs[i].len())
        == Ok::<Seq<u8>, ErrorView>(bs[i]) by {
        lemma_block_round_trip(bs[i], opts.max_depth as nat);
    }
    assert forall|i: int| 0 <= i < bs.len() implies (#[trigger] encs[i]).len() <= 0xFFFF_FFFF by {
        assert(encs[i] == block_encoding(bs[i], opts.max_depth as nat));
    }
}

/// Decompressing a compressed buffer gives the original bytes back, whenever
/// the block count and every compressed block's length fit the 32-bit fields
/// of the directory.
pub proof fn lemma_compress_round_trip(input: Seq<u8>, opts: CompressOptions)
    requires
        within_format_limits(input, opts),
    ensures
        spec_decompress(spec_compress(input, opts)) == Ok::<Seq<u8>, ErrorView>(input),
{
    lemma_archive_layout(input, opts);
    let dir = directory_of(input, opts);
    let hb = header_bytes(header_of(input, opts), dir);
    lemma_blocks_from(hb, block_encodings(input, opts), chunks(input, opts.block_size as nat), dir);
}

proof fn lemma_blocks_from_suffix(a: Seq<u8>, b: Seq<u8>, dir: Seq<BlockEntry>, off: int, k: int)
    requires
        a.len() == b.len(),
        0 <= k <= off,
        a.skip(k) == b.skip(k),
    ensures
        blocks_from(a, dir, off) == blocks_from(b, dir, off),
    decreases dir.len(),
{
    if dir.len() > 0 {
        let end = off + dir[0].compressed_len;
        if end <= a.len() {
            assert(a.subrange(off, end) == a.skip(k).subrange(off - k, end - k));
            assert(b.subrange(off, end) == b.skip(k).subrange(off - k, end - k));
            lemma_blocks_from_suffix(a, b, dir.drop_first(), end, k);
        }
    }
}

/// Two archives that differ only in the flag byte and the header checksum,
/// each checksum matching its own header, decompress alike.
proof fn lemma_flag_only(a: Seq<u8>, b: Seq<u8>)
    requires
        a.len() == b.len(),
        a.len() >= 26,
        a.subrange(0, 5) == b.subrange(0, 5),
        a.subrange(6, 22) == b.subrange(6, 22),
        a.skip(26) == b.skip(26),
        le32_at(a, 22) == spec_crc32(a.subrange(0, 22)),
        le32_at(b, 22) == spec_crc32(b.subrange(0, 22)),
    ensures
        spec_decompress(a) == spec_decompress(b),
{
    assert(has_magic(a) == has_magic(b)) by {
        assert(a[0] == a.subrange(0, 5)[0] && b[0] == b.subrange(0, 5)[0]);
        assert(a[1] == a.subrange(0, 5)[1] && b[1] == b.subrange(0, 5)[1]);
        assert(a[2] == a.subrange(0, 5)[2] && b[2] == b.subrange(0, 5)[2]);
        assert(a[3] == a.subrange(0, 5)[3] && b[3] == b.subrange(0, 5)[3]);
    }
    assert(a[4] == b[4]) by {
        assert(a[4] == a.subrange(0, 5)[4] && b[4] == b.subrange(0, 5)[4]);
    }
    assert(a.subrange(6, 10) == b.subrange(6, 10)) by {
        assert(a.subrange(6, 10) == a.subrange(6, 22).subrange(0, 4));
        assert(b.subrange(6, 10) == b.subrange(6, 22).subrange(0, 4));
    }
    assert(a.subrange(10, 18) == b.subrange(10, 18)) by {
        assert(a.subrange(10, 18) == a.subrange(6, 22).subrange(4, 12));
        assert(b.subrange(10, 18) == b.subrange(6, 22).subrange(4, 12));
    }
    assert(a.subrange(18, 22) == b.subrange(18, 22)) by {
        assert(a.subrange(18, 22) == a.subrange(6, 22).subrange(12, 16));
        assert(b.subrange(18, 22) == b.subrange(6, 22).subrange(12, 16));
    }
    let ha = header_at(a);
    let hb = header_at(b);
    assert(ha.block_count == hb.block_count);
    assert(ha.original_size == hb.original_size);
    let end = directory_end(ha.block_count);
    assert forall|at: int| 26 <= at && at + 4 <= a.len() implies le32_at(a, at) == le32_at(b, at) by {
        assert(a.subrange(at, at + 4) == a.skip(26).subrange(at - 26, at - 22));
        assert(b.subrange(at, at + 4) == b.skip(26).subrange(at - 26, at - 22));
    }
    if a.len() >= end {
        let da = Seq::new(ha.block_count as nat, |i: int| entry_at(a, HEADER_BASE_LEN + 12 * i));
        let db = Seq::new(hb.block_count as nat, |i: int| entry_at(b, HEADER_BASE_LEN + 12 * i));
        assert forall|i: int| 0 <= i < da.len() implies da[i] == db[i] by {
            let at = HEADER_BASE_LEN + 12 * i;
            assert(le32_at(a, at) == le32_at(b, at));
            assert(le32_at(a, at + 4) == le32_at(b, at + 4));
            assert(le32_at(a, at + 8) == le32_at(b, at + 8));
        }
        assert(da =~= db);
        lemma_blocks_from_suffix(a, b, da, end, 26);
    }
}

proof fn lemma_header_layout(h: PpmoHeader, d: Seq<BlockEntry>, c: Seq<u8>)
    ensures
        ({
            let a = header_bytes(h, d) + c;
            &&& a.len() >= 26
            &&& a.subrange(0, 22) == header_prefix(h)
            &&& le32_at(a, 22) == spec_crc32(a.subrange(0, 22))
            &&& a.skip(26) == directory_bytes(d) + c
        }),
{
    vstd::bytes::lemma_auto_spec_u32_to_from_le_bytes();
    vstd::bytes::lemma_auto_spec_u64_to_from_le_bytes();
    let p = header_prefix(h);
    let cr = spec_u32_to_le_bytes(spec_crc32(p));
    let tail = directory_bytes(d) + c;
    let a = header_bytes(h, d) + c;
    assert(a == p + (cr + tail));
    assert(p.len() == 22);
    assert(a.subrange(0, 22) == p);
    assert(a.subrange(22, 26) == cr);
    assert(a.skip(26) == tail);
}

proof fn lemma_prefix_flag(h1: PpmoHeader, h2: PpmoHeader)
    requires
        h1.block_count == h2.block_count,
        h1.original_size == h2.original_size,
        h1.block_size == h2.block_size,
    ensures
        header_prefix(h1).subrange(0, 5) == header_prefix(h2).subrange(0, 5),
        header_prefix(h1).subrange(6, 22) == header_prefix(h2).subrange(6, 22),
{
    vstd::bytes::lemma_auto_spec_u32_to_from_le_bytes();
    vstd::bytes::lemma_auto_spec_u64_to_from_le_bytes();
    let p1 = header_prefix(h1);
    let p2 = header_prefix(h2);
    assert(p1.len() == 22 && p2.len() == 22);
    assert forall|i: int| 0 <= i < 22 && i != 5 implies p1[i] == p2[i] by {}
    assert(p1.subrange(0, 5) =~= p2.subrange(0, 5));
    assert(p1.subrange(6, 22) =~= p2.subrange(6, 22));
}

/// Compressing in parallel or not changes only the flag byte and the header
/// checksum: the rest of the archive, and what it decompresses to, is the same.
pub proof fn lemma_parallel_flag(input: Seq<u8>, o1: CompressOptions, o2: CompressOptions)
    requires
        o1.block_size == o2.block_size,
        o1.max_depth == o2.max_depth,
    ensures
        spec_compress(input, o1).len() == spec_compress(input, o2).len(),
        spec_compress(input, o1).skip(26) == spec_compress(input, o2).skip(26),
        spec_decompress(spec_compress(input, o1)) == spec_decompress(spec_compress(input, o2)),
{
    let a = spec_compress(input, o1);
    let b = spec_compress(input, o2);
    let h1 = header_of(input, o1);
    let h2 = header_of(input, o2);
    assert(block_encodings(input, o1) == block_encodings(input, o2));
    let d = directory_of(input, o1);
    assert(directory_of(input, o2) =~= d);
    let c = concat(block_encodings(input, o1));
    lemma_header_layout(h1, d, c);
    lemma_header_layout(h2, d, c);
    lemma_prefix_flag(h1, h2);
    assert(a.subrange(0, 5) == a.subrange(0, 22).subrange(0, 5));
    assert(b.subrange(0, 5) == b.subrange(0, 22).subrange(0, 5));
    assert(a.subrange(6, 22) == a.subrange(0, 22).subrange(6, 22));
    assert(b.subrange(6, 22) == b.subrange(0, 22).subrange(6, 22));
    assert(a.len() == 26 + a.skip(26).len());
    assert(b.len() == 26 + b.skip(26).len());
    lemma_flag_only(a, b);
}

proof fn lemma_header_len(h: PpmoHeader, d: Seq<BlockEntry>)
    ensures
        header_bytes(h, d).len() == HEADER_BASE_LEN + 12 * d.len(),
{
    vstd::bytes::lemma_auto_spec_u32_to_from_le_bytes();
    vstd::bytes::lemma_auto_spec_u64_to_from_le_bytes();
    crate::format::lemma_directory_bytes(d);
}

/// Where block `i` of `dir` starts when the blocks are stored one after the
/// other from offset `off` on.
pub open spec fn block_start(dir: Seq<BlockEntry>, off: int, i: int) -> int
    decreases i,
{
    if i <= 0 {
        off
    } else {
        block_start(dir, off, i - 1) + dir[i - 1].compressed_len
    }
}

/// Every block of `dir`, stored from `off` on, lies inside `input`, decompresses,
/// and its bytes have the CRC-32 that its entry records.
pub open spec fn blocks_checked(input: Seq<u8>, dir: Seq<BlockEntry>, off: int) -> bool {
    forall|i: int|
        0 <= i < dir.len() ==> {
            let s = #[trigger] block_start(dir, off, i);
            let e = s + dir[i].compressed_len;
            &&& off <= s
            &&& e <= input.len()
            &&& spec_decompress_block(input.subrange(s, e), dir[i].uncompressed_len as nat) matches Ok(raw)
                && spec_crc32(raw) == dir[i].crc32
        }
}

pub proof fn lemma_block_start_shift(dir: Seq<BlockEntry>, off: int, i: int)
    requires
        1 <= i <= dir.len(),
    ensures
        block_start(dir, off, i) == block_start(dir.drop_first(), off + dir[0].compressed_len, i - 1),
    decreases i,
{
    assert(block_start(dir, off, 0) == off);
    assert(block_start(dir.drop_first(), off + dir[0].compressed_len, 0) == off + dir[0].compressed_len);
    if i > 1 {
        lemma_block_start_shift(dir, off, i - 1);
        assert(dir.drop_first()[i - 2] == dir[i - 1]);
    }
}

proof fn lemma_blocks_from_checked(input: Seq<u8>, dir: Seq<BlockEntry>, off: int)
    requires
        blocks_from(input, dir, off) is Ok,
    ensures
        blocks_checked(input, dir, off),
    decreases dir.len(),
{
    if dir.len() > 0 {
        let end = off + dir[0].compressed_len;
        let rest = dir.drop_first();
        lemma_blocks_from_checked(input, rest, end);
        assert forall|i: int| 0 <= i < dir.len() implies {
            let s = #[trigger] block_start(dir, off, i);
            let e = s + dir[i].compressed_len;
            &&& off <= s
            &&& e <= input.len()
            &&& spec_decompress_block(input.subrange(s, e), dir[i].uncompressed_len as nat) matches Ok(raw)
                && spec_crc32(raw) == dir[i].crc32
        } by {
            if i > 0 {
                lemma_block_start_shift(dir, off, i);
                assert(rest[i - 1] == dir[i]);
                assert(block_start(rest, end, i - 1) == block_start(dir, off, i));
            }
        }
    }
}

/// Decompression checks every block: when it succeeds, each block named in the
/// directory lies inside the archive, decompresses, and matches the CRC-32 its
/// directory entry records.
pub proof fn lemma_decompress_checks_every_block(input: Seq<u8>)
    requires
        spec_decompress(input) is Ok,
    ensures
        parse_header(input) matches Ok((h, dir, off)) && blocks_checked(input, dir, off),
{
    match parse_header(input) {
        Ok((h, dir, off)) => {
            assert(blocks_from(input, dir, off) is Ok);
            lemma_blocks_from_checked(input, dir, off);
        },
        Err(x) => {},
    }
}

} // verus!
