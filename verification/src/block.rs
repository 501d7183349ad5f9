//! Block splitting and block compression.
//!
//! Per-block wire format:
//!   [u32 LE pivot]
//!   [u32 LE left_token_count]
//!   [u16 LE Huffman table entry count]
//!   [(symbol u16 LE, len u8) × count]   — Huffman table
//!   [bitstream]                          — combined (left ++ right) Huffman-coded tokens
use vstd::prelude::*;
use vstd::bytes::{
    spec_u32_to_le_bytes, u32_to_le_bytes, u32_from_le_bytes, lemma_auto_spec_u32_to_from_le_bytes,
};
use vstd::slice::{slice_subrange, slice_to_vec};
use rayon::iter::{IntoParallelRefIterator, ParallelIterator};
use crate::bitio::{pack_bits, padding, lemma_pack_bits, lemma_bytes_bits_at};
use crate::bitseq::{bits_of, bits_value, bytes_bits, zeros, lemma_bits_of_value, lemma_bits_value_bound,
    lemma_bytes_bits_len, lemma_pow2_small};
use crate::canon::{canon_entries, canon_encode};
use crate::codec::{
    token_freqs, stream_bits, decode_stream, codable, decodable_token, token_symbol,
    encode_tokens, decode_tokens, lemma_token_table, lemma_decode_stream,
};
use crate::compress::CompressOptions;
use crate::format::{crc32, spec_crc32, le32_at, append_bytes, BlockEntry};
use crate::huffman::{build_lengths, serialise_table, EOB};
use crate::lz::{Token, spec_tokenise, spec_detokenise, tokens_well_formed, lemma_tokenise_round_trip,
    lemma_tokens_count, MIN_MATCH, MAX_MATCH, MAX_DIST};
use crate::middle_out::{spec_find_pivot, encode_bidirectional, decode_bidirectional, lemma_pivot_in_block};
use crate::table_io::{table_bytes, parse_table, deserialise_table, lemma_table_round_trip};
use crate::text::{decimal, push_decimal};
use crate::{EngineError, ErrorView};

verus! {

// ───────────────────────────── compressed blocks ─────────────────────────────

/// The tokens of the bytes before the pivot.
pub open spec fn left_tokens(block: Seq<u8>, depth: nat) -> Seq<Token> {
    spec_tokenise(block.take(spec_find_pivot(block) as int), depth)
}

/// The tokens of the bytes from the pivot on.
pub open spec fn right_tokens(block: Seq<u8>, depth: nat) -> Seq<Token> {
    spec_tokenise(block.skip(spec_find_pivot(block) as int), depth)
}

/// The tokens of a block: the left tokens, then the right ones.
pub open spec fn block_tokens(block: Seq<u8>, depth: nat) -> Seq<Token> {
    left_tokens(block, depth) + right_tokens(block, depth)
}

/// The entries of the Huffman table of a block.
pub open spec fn block_entries(block: Seq<u8>, depth: nat) -> Seq<(u16, u8)> {
    canon_entries(build_lengths(token_freqs(block_tokens(block, depth))))
}

/// The compressed form of a block: pivot, left token count, table, bit stream.
pub open spec fn block_encoding(block: Seq<u8>, depth: nat) -> Seq<u8> {
    let e = block_entries(block, depth);
    spec_u32_to_le_bytes(spec_find_pivot(block) as u32) + spec_u32_to_le_bytes(
        left_tokens(block, depth).len() as u32,
    ) + table_bytes(e) + pack_bits(stream_bits(canon_encode(e, (EOB + 1) as nat), block_tokens(block, depth)))
}

/// Message for a left token count past the decoded tokens.
pub open spec fn left_count_message(left: nat, total: nat) -> Seq<char> {
    "left_count "@ + decimal(left) + " > total tokens "@ + decimal(total)
}

/// What decompressing a compressed block of `n` bytes yields: the bytes, or the error.
pub open spec fn spec_decompress_block(c: Seq<u8>, n: nat) -> Result<Seq<u8>, ErrorView> {
    if c.len() < 10 {
        Err(ErrorView::DecompressError("block too short"@))
    } else {
        let pivot = le32_at(c, 0) as nat;
        let left = le32_at(c, 4) as nat;
        match parse_table(c.skip(8)) {
            Err(x) => Err(x),
            Ok((m, used)) => match decode_stream(canon_entries(m), bytes_bits(c.skip(8 + used as int))) {
                Err(x) => Err(x),
                Ok(ts) => if left > ts.len() {
                    Err(ErrorView::DecompressError(left_count_message(left, ts.len())))
                } else if pivot > n {
                    Err(ErrorView::DecompressError("pivot past end of block"@))
                } else {
                    Ok(spec_detokenise(ts.take(left as int)) + spec_detokenise(ts.skip(left as int)))
                },
            },
        }
    }
}

/// The pieces of `data` of `size` bytes each, the last one shorter.
pub open spec fn chunks(data: Seq<u8>, size: nat) -> Seq<Seq<u8>>
    decreases data.len(),
{
    if data.len() == 0 || size == 0 {
        Seq::empty()
    } else if data.len() <= size {
        seq![data]
    } else {
        seq![data.take(size as int)] + chunks(data.skip(size as int), size)
    }
}

/// The directory entry of a block and its compressed form.
pub open spec fn entry_of_block(block: Seq<u8>, compressed: Seq<u8>) -> BlockEntry {
    BlockEntry {
        compressed_len: compressed.len() as u32,
        uncompressed_len: block.len() as u32,
        crc32: spec_crc32(block),
    }
}

// ───────────────────────────── lemmas ─────────────────────────────

proof fn lemma_bytes_bits_pack(bits: Seq<bool>)
    ensures
        bytes_bits(pack_bits(bits)) == bits + zeros(padding(bits.len())),
{
    let padded = bits + zeros(padding(bits.len()));
    let pb = pack_bits(bits);
    lemma_bytes_bits_len(pb);
    assert(padded.len() % 8 == 0);
    let bb = bytes_bits(pb);
    assert forall|j: int| 0 <= j < padded.len() implies bb[j] == padded[j] by {
        let i = j / 8;
        let seg = padded.subrange(8 * i, 8 * i + 8);
        lemma_bits_value_bound(seg);
        lemma_pow2_small();
        lemma_bits_of_value(seg);
        lemma_bytes_bits_at(pb, i);
        assert(bb.subrange(8 * i, 8 * i + 8) == bits_of(pb[i] as nat, 8));
        assert(pb[i] as nat == bits_value(seg));
        assert(bb[j] == bb.subrange(8 * i, 8 * i + 8)[j - 8 * i]);
    }
    assert(bb =~= padded);
}

proof fn lemma_well_formed_codable(ts: Seq<Token>)
    requires
        tokens_well_formed(ts),
    ensures
        forall|i: int| 0 <= i < ts.len() ==> decodable_token(#[trigger] ts[i]),
{
    assert forall|i: int| 0 <= i < ts.len() implies decodable_token(#[trigger] ts[i]) by {
        assert(match ts[i] {
            Token::Literal(_) => true,
            Token::Match { distance, length } => MIN_MATCH <= length <= MAX_MATCH && 1 <= distance
                <= MAX_DIST,
        });
    }
}

/// The tokens of a block: well formed, at most one per byte, and decoding back
/// to the two halves of the block.
pub proof fn lemma_block_tokens(block: Seq<u8>, depth: nat)
    requires
        block.len() <= 0xFFFF_FFFF,
    ensures
        spec_find_pivot(block) <= block.len(),
        spec_detokenise(left_tokens(block, depth)) == block.take(spec_find_pivot(block) as int),
        spec_detokenise(right_tokens(block, depth)) == block.skip(spec_find_pivot(block) as int),
        left_tokens(block, depth).len() <= spec_find_pivot(block),
        block_tokens(block, depth).len() <= block.len(),
        forall|i: int|
            0 <= i < block_tokens(block, depth).len() ==> decodable_token(
                #[trigger] block_tokens(block, depth)[i],
            ),
{
    lemma_pivot_in_block(block);
    let p = spec_find_pivot(block) as int;
    let l = left_tokens(block, depth);
    let r = right_tokens(block, depth);
    lemma_tokenise_round_trip(block.take(p), depth);
    lemma_tokenise_round_trip(block.skip(p), depth);
    lemma_tokens_count(l);
    lemma_tokens_count(r);
    lemma_well_formed_codable(l);
    lemma_well_formed_codable(r);
    let ts = block_tokens(block, depth);
    assert forall|i: int| 0 <= i < ts.len() implies decodable_token(#[trigger] ts[i]) by {
        if i < l.len() {
            assert(ts[i] == l[i]);
        } else {
            assert(ts[i] == r[i - l.len()]);
        }
    }
}

/// Where the parts of a compressed block lie.
proof fn lemma_block_layout(block: Seq<u8>, depth: nat)
    requires
        block.len() <= 0xFFFF_FFFF,
    ensures
        ({
            let out = block_encoding(block, depth);
            let e = block_entries(block, depth);
            let packed = pack_bits(
                stream_bits(canon_encode(e, (EOB + 1) as nat), block_tokens(block, depth)),
            );
            &&& out.len() >= 10
            &&& le32_at(out, 0) as nat == spec_find_pivot(block)
            &&& le32_at(out, 4) as nat == left_tokens(block, depth).len()
            &&& out.skip(8) == table_bytes(e) + packed
        }),
{
    lemma_auto_spec_u32_to_from_le_bytes();
    vstd::bytes::lemma_auto_spec_u16_to_from_le_bytes();
    lemma_block_tokens(block, depth);
    let p = spec_find_pivot(block);
    let l = left_tokens(block, depth);
    let e = block_entries(block, depth);
    let packed = pack_bits(stream_bits(canon_encode(e, (EOB + 1) as nat), block_tokens(block, depth)));
    let tb = table_bytes(e);
    let h = spec_u32_to_le_bytes(p as u32) + spec_u32_to_le_bytes(l.len() as u32);
    let out = block_encoding(block, depth);
    assert(out == h + (tb + packed));
    assert(h.len() == 8);
    assert(tb.len() >= 2);
    assert(out.subrange(0, 4) == spec_u32_to_le_bytes(p as u32));
    assert(out.subrange(4, 8) == spec_u32_to_le_bytes(l.len() as u32));
    assert(out.skip(8) == tb + packed);
}

/// Decompressing the compressed form of a block gives the block back.
pub proof fn lemma_block_round_trip(block: Seq<u8>, depth: nat)
    requires
        block.len() <= 0xFFFF_FFFF,
    ensures
        spec_decompress_block(block_encoding(block, depth), block.len()) == Ok::<Seq<u8>, ErrorView>(block),
{
    lemma_block_tokens(block, depth);
    lemma_block_layout(block, depth);
    let p = spec_find_pivot(block);
    let l = left_tokens(block, depth);
    let r = right_tokens(block, depth);
    let ts = block_tokens(block, depth);
    let m = build_lengths(token_freqs(ts));
    let e = block_entries(block, depth);
    let enc = canon_encode(e, (EOB + 1) as nat);
    let bits = stream_bits(enc, ts);
    let packed = pack_bits(bits);
    let tb = table_bytes(e);
    let out = block_encoding(block, depth);
    lemma_token_table(ts);
    lemma_table_round_trip(m, packed);
    lemma_bytes_bits_pack(bits);
    lemma_decode_stream(e, enc, ts, zeros(padding(bits.len())));
    let (m2, used) = parse_table(tb + packed)->Ok_0;
    assert(out.skip(8).skip(used as int) == packed);
    assert(out.skip(8 + used as int) == packed);
    assert(decode_stream(canon_entries(m2), bytes_bits(out.skip(8 + used as int))) == Ok::<
        Seq<Token>,
        ErrorView,
    >(ts));
    assert(ts.take(l.len() as int) == l);
    assert(ts.skip(l.len() as int) == r);
    assert(block.take(p as int) + block.skip(p as int) == block);
}

proof fn lemma_records_len(es: Seq<(u16, u8)>)
    ensures
        crate::table_io::records_bytes(es).len() == 3 * es.len(),
    decreases es.len(),
{
    vstd::bytes::lemma_auto_spec_u16_to_from_le_bytes();
    if es.len() > 0 {
        lemma_records_len(es.drop_last());
    }
}

proof fn lemma_tokens_bits_len(enc: Seq<(u32, u8)>, ts: Seq<Token>)
    requires
        forall|i: int| 0 <= i < ts.len() ==> enc[token_symbol(#[trigger] ts[i]) as int].1 <= 15,
    ensures
        crate::codec::tokens_bits(enc, ts).len() <= 31 * ts.len(),
    decreases ts.len(),
{
    if ts.len() > 0 {
        let p = ts.drop_last();
        assert forall|i: int| 0 <= i < p.len() implies enc[token_symbol(#[trigger] p[i]) as int].1 <= 15 by {
            assert(p[i] == ts[i]);
        }
        lemma_tokens_bits_len(enc, p);
        let t = ts.last();
        assert(enc[token_symbol(ts[ts.len() - 1]) as int].1 <= 15);
        let s = token_symbol(t);
        crate::bitseq::lemma_bits_of_len(enc[s as int].0 as nat, enc[s as int].1 as nat);
        crate::bitseq::lemma_bits_of_len(0, 16);
        match t {
            Token::Literal(_) => {},
            Token::Match { distance, .. } => {
                crate::bitseq::lemma_bits_of_len(distance as nat, 16);
            },
        }
    }
}

/// A compressed block takes at most four bytes per byte of the block, plus the
/// table and the fixed fields.
pub proof fn lemma_block_encoding_len(block: Seq<u8>, depth: nat)
    requires
        block.len() <= 0xFFFF_FFFF,
    ensures
        block_encoding(block, depth).len() <= 4 * block.len() + 98317,
{
    lemma_auto_spec_u32_to_from_le_bytes();
    vstd::bytes::lemma_auto_spec_u16_to_from_le_bytes();
    lemma_block_tokens(block, depth);
    let ts = block_tokens(block, depth);
    let m = build_lengths(token_freqs(ts));
    let e = block_entries(block, depth);
    let enc = canon_encode(e, (EOB + 1) as nat);
    lemma_token_table(ts);
    assert(crate::canon::is_canonical(e));
    crate::table_io::lemma_count_fits(e, e.len());
    lemma_records_len(e);
    assert(table_bytes(e).len() <= 2 + 3 * 32768);
    assert forall|i: int| 0 <= i < ts.len() implies enc[token_symbol(#[trigger] ts[i]) as int].1 <= 15 by {
        let s = token_symbol(ts[i]) as int;
        assert(codable(ts[i]));
        assert(0 <= s < EOB + 1);
        if crate::canon::has_symbol(e, s) {
            let k = crate::canon::entry_of(e, s);
            crate::canon::lemma_canonical_at(e, k, k);
        }
    }
    lemma_tokens_bits_len(enc, ts);
    let eob = EOB as int;
    if crate::canon::has_symbol(e, eob) {
        let k = crate::canon::entry_of(e, eob);
        crate::canon::lemma_canonical_at(e, k, k);
    }
    crate::bitseq::lemma_bits_of_len(enc[eob].0 as nat, enc[eob].1 as nat);
    let bits = stream_bits(enc, ts);
    assert(bits.len() <= 31 * ts.len() + 15);
    assert(pack_bits(bits).len() <= 4 * block.len() + 3);
}

/// The pieces of a split are non-empty, at most `size` long, and put back together give the data.
pub proof fn lemma_chunks(data: Seq<u8>, size: nat)
    requires
        size > 0,
    ensures
        forall|i: int|
            0 <= i < chunks(data, size).len() ==> 0 < (#[trigger] chunks(data, size)[i]).len() <= size
                && chunks(data, size)[i].len() <= data.len(),
        concat(chunks(data, size)) == data,
    decreases data.len(),
{
    let cs = chunks(data, size);
    if data.len() == 0 {
        assert(concat(cs) == data);
    } else if data.len() <= size {
        assert(cs[0] == data);
        assert(cs.drop_first() == Seq::<Seq<u8>>::empty());
        assert(concat(cs.drop_first()) == Seq::<u8>::empty());
        assert(concat(cs) == data + Seq::<u8>::empty());
        assert(data + Seq::<u8>::empty() == data);
    } else {
        let rest = data.skip(size as int);
        lemma_chunks(rest, size);
        assert(cs.drop_first() == chunks(rest, size));
        assert forall|i: int| 0 <= i < cs.len() implies 0 < (#[trigger] cs[i]).len() <= size && cs[i].len()
            <= data.len() by {
            if i > 0 {
                assert(cs[i] == chunks(rest, size)[i - 1]);
            }
        }
        assert(data.take(size as int) + rest == data);
    }
}

/// Joins byte strings, one after the other.
pub open spec fn concat(parts: Seq<Seq<u8>>) -> Seq<u8>
    decreases parts.len(),
{
    if parts.len() == 0 {
        Seq::empty()
    } else {
        parts[0] + concat(parts.drop_first())
    }
}

/// Appending one more part at the end.
pub proof fn lemma_concat_push(parts: Seq<Seq<u8>>, k: int)
    requires
        0 <= k < parts.len(),
    ensures
        concat(parts.take(k + 1)) == concat(parts.take(k)) + parts[k],
    decreases k,
{
    if k == 0 {
        assert(parts.take(1).drop_first() == Seq::<Seq<u8>>::empty());
        assert(concat(Seq::<Seq<u8>>::empty()) == Seq::<u8>::empty());
        assert(parts.take(1)[0] == parts[0]);
        assert(parts.take(0) == Seq::<Seq<u8>>::empty());
        assert(concat(parts.take(1)) == parts[0] + Seq::<u8>::empty());
        assert(parts[0] + Seq::<u8>::empty() == parts[0]);
        assert(Seq::<u8>::empty() + parts[0] == parts[0]);
    } else {
        let t = parts.drop_first();
        lemma_concat_push(t, k - 1);
        assert(parts.take(k + 1).drop_first() == t.take(k));
        assert(parts.take(k).drop_first() == t.take(k - 1));
        assert(parts.take(k + 1)[0] == parts[0]);
        assert(parts.take(k)[0] == parts[0]);
        assert(t[k - 1] == parts[k]);
    }
}

// ───────────────────────────── executable ─────────────────────────────

/// Compress a single raw block into the PPMO per-block wire format.
pub fn compress_block(block: &[u8], opts: &CompressOptions) -> (out: Vec<u8>)
    requires
        block@.len() <= 0xFFFF_FFFF,
    ensures
        out@ == block_encoding(block@, opts.max_depth as nat),
{
    proof {
        lemma_block_tokens(block@, opts.max_depth as nat);
        lemma_auto_spec_u32_to_from_le_bytes();
    }
    let (pivot, left_tokens, right_tokens) = encode_bidirectional(block, opts.max_depth);
    let left_count = left_tokens.len() as u32;
    let mut combined = left_tokens;
    let mut right = right_tokens;
    combined.append(&mut right);
    let (table, bitstream) = encode_tokens(&combined);
    proof {
        table.lemma_decodable();
    }
    let table_bytes = serialise_table(&table);
    let mut out = u32_to_le_bytes(pivot as u32);
    let lc = u32_to_le_bytes(left_count);
    append_bytes(&mut out, &lc);
    append_bytes(&mut out, &table_bytes);
    append_bytes(&mut out, &bitstream);
    proof {
        lemma_pack_bits(bitstream@, stream_bits(table.encode_view(), combined@));
    }
    out
}

/// Decompress a single compressed block back to raw bytes.
pub fn decompress_block(compressed: &[u8], uncompressed_len: usize) -> (r: Result<Vec<u8>, EngineError>)
    ensures
        match spec_decompress_block(compressed@, uncompressed_len as nat) {
            Ok(bytes) => r matches Ok(v) && v@ == bytes,
            Err(ev) => r matches Err(err) && err@ == ev,
        },
{
    if compressed.len() < 10 {
        return Err(EngineError::DecompressError("block too short".to_owned()));
    }
    let pivot = u32_from_le_bytes(slice_subrange(compressed, 0, 4)) as usize;
    let left_count = u32_from_le_bytes(slice_subrange(compressed, 4, 8)) as usize;
    let rest = slice_subrange(compressed, 8, compressed.len());
    assert(rest@ == compressed@.skip(8));
    let (table, table_consumed) = match deserialise_table(rest) {
        Ok(x) => x,
        Err(err) => {
            return Err(err);
        },
    };
    let bitstream_start = 8 + table_consumed;
    let bitstream = slice_subrange(compressed, bitstream_start, compressed.len());
    assert(bitstream@ == compressed@.skip(bitstream_start as int));
    let combined = match decode_tokens(&table, bitstream, uncompressed_len) {
        Ok(v) => v,
        Err(err) => {
            return Err(err);
        },
    };
    if left_count > combined.len() {
        let mut msg = String::new();
        msg.append("left_count ");
        push_decimal(&mut msg, left_count as u128);
        msg.append(" > total tokens ");
        push_decimal(&mut msg, combined.len() as u128);
        return Err(EngineError::DecompressError(msg));
    }
    if pivot > uncompressed_len {
        return Err(EngineError::DecompressError("pivot past end of block".to_owned()));
    }
    let left = slice_to_vec(slice_subrange(combined.as_slice(), 0, left_count));
    let right = slice_to_vec(slice_subrange(combined.as_slice(), left_count, combined.len()));
    Ok(decode_bidirectional(pivot, left.as_slice(), right.as_slice(), uncompressed_len))
}

/// Split `data` into blocks of at most `block_size` bytes.
pub fn split_into_blocks<'a>(data: &'a [u8], block_size: usize) -> (blocks: Vec<&'a [u8]>)
    requires
        block_size > 0 || data@.len() == 0,
    ensures
        blocks@.len() == chunks(data@, block_size as nat).len(),
        forall|i: int| 0 <= i < blocks@.len() ==> (#[trigger] blocks@[i])@ == chunks(data@, block_size as nat)[i],
{
    let mut blocks: Vec<&'a [u8]> = Vec::new();
    if data.len() == 0 {
        return blocks;
    }
    let mut pos: usize = 0;
    let ghost all = chunks(data@, block_size as nat);
    assert(data@.skip(0) == data@);
    while pos < data.len()
        invariant
            block_size > 0,
            pos <= data@.len(),
            all == chunks(data@, block_size as nat),
            blocks@.len() + chunks(data@.skip(pos as int), block_size as nat).len() == all.len(),
            forall|i: int| 0 <= i < blocks@.len() ==> (#[trigger] blocks@[i])@ == all[i],
            forall|i: int|
                0 <= i < chunks(data@.skip(pos as int), block_size as nat).len() ==> #[trigger] chunks(
                    data@.skip(pos as int),
                    block_size as nat,
                )[i] == all[blocks@.len() + i],
        decreases data@.len() - pos,
    {
        let ghost rest = data@.skip(pos as int);
        let end = if data.len() - pos > block_size { pos + block_size } else { data.len() };
        let piece = slice_subrange(data, pos, end);
        let ghost cs = chunks(rest, block_size as nat);
        let ghost next = data@.skip(end as int);
        proof {
            if rest.len() <= block_size {
                assert(cs == seq![rest]);
                assert(next.len() == 0);
                assert(chunks(next, block_size as nat) == Seq::<Seq<u8>>::empty());
                assert(piece@ == rest);
            } else {
                assert(rest.skip(block_size as int) == next);
                assert(cs == seq![rest.take(block_size as int)] + chunks(next, block_size as nat));
                assert(piece@ == rest.take(block_size as int));
            }
            assert(cs[0] == piece@);
            assert forall|i: int| 0 <= i < chunks(next, block_size as nat).len() implies #[trigger] chunks(
                next,
                block_size as nat,
            )[i] == cs[i + 1] by {}
        }
        blocks.push(piece);
        pos = end;
    }
    proof {
        assert(data@.skip(pos as int).len() == 0);
    }
    blocks
}

/// Compresses every block with rayon: `par_iter().map(compress_block).collect()`.
/// An indexed parallel iterator collects into a `Vec` in order, so result `i`
/// is what `compress_block` returned for block `i`.
#[verifier::external_body]
fn compress_in_parallel(blocks: &[&[u8]], opts: &CompressOptions) -> (out: Vec<Vec<u8>>)
    requires
        forall|i: int| 0 <= i < blocks@.len() ==> (#[trigger] blocks@[i])@.len() <= 0xFFFF_FFFF,
    ensures
        out@.len() == blocks@.len(),
        forall|i: int| 0 <= i < blocks@.len() ==> call_ensures(compress_block, (blocks@[i], opts), #[trigger] out@[i]),
{
    blocks.par_iter().map(|b| compress_block(b, opts)).collect()
}

/// Compress all blocks, optionally in parallel.
/// Returns `(compressed_blocks, block_entries)`.
pub fn compress_blocks(blocks: &[&[u8]], opts: &CompressOptions) -> (r: (Vec<Vec<u8>>, Vec<BlockEntry>))
    requires
        forall|i: int| 0 <= i < blocks@.len() ==> (#[trigger] blocks@[i])@.len() <= 0xFFFF_FFFF,
    ensures
        r.0@.len() == blocks@.len(),
        r.1@.len() == blocks@.len(),
        forall|i: int|
            0 <= i < blocks@.len() ==> (#[trigger] r.0@[i])@ == block_encoding(blocks@[i]@, opts.max_depth as nat),
        forall|i: int| 0 <= i < blocks@.len() ==> #[trigger] r.1@[i] == entry_of_block(blocks@[i]@, r.0@[i]@),
{
    let compressed: Vec<Vec<u8>> = if opts.parallel && blocks.len() > 1 {
        compress_in_parallel(blocks, opts)
    } else {
        let mut out: Vec<Vec<u8>> = Vec::new();
        let mut i: usize = 0;
        while i < blocks.len()
            invariant
                i <= blocks@.len(),
                out@.len() == i,
                forall|j: int| 0 <= j < blocks@.len() ==> (#[trigger] blocks@[j])@.len() <= 0xFFFF_FFFF,
                forall|j: int| 0 <= j < i ==> (#[trigger] out@[j])@ == block_encoding(blocks@[j]@, opts.max_depth as nat),
            decreases blocks@.len() - i,
        {
            out.push(compress_block(blocks[i], opts));
            i += 1;
        }
        out
    };
    assert forall|j: int| 0 <= j < blocks@.len() implies (#[trigger] compressed@[j])@ == block_encoding(
        blocks@[j]@,
        opts.max_depth as nat,
    ) by {}
    let mut entries: Vec<BlockEntry> = Vec::new();
    let mut i: usize = 0;
    while i < blocks.len()
        invariant
            i <= blocks@.len(),
            compressed@.len() == blocks@.len(),
            entries@.len() == i,
            forall|j: int| 0 <= j < i ==> #[trigger] entries@[j] == entry_of_block(blocks@[j]@, compressed@[j]@),
        decreases blocks@.len() - i,
    {
        let b = blocks[i];
        let c = &compressed[i];
        entries.push(BlockEntry {
            compressed_len: c.len() as u32,
            uncompressed_len: b.len() as u32,
            crc32: crc32(b),
        });
        i += 1;
    }
    (compressed, entries)
}

} // verus!
