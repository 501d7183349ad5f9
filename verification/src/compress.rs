//! Top-level compress() entry point.
use vstd::prelude::*;
use crate::block::{
    chunks, concat, block_encoding, entry_of_block, split_into_blocks, compress_blocks, lemma_chunks,
    lemma_concat_push, lemma_block_encoding_len,
};
use crate::format::{header_bytes, write_header, append_bytes, PpmoHeader, BlockEntry, FLAG_PARALLEL};
use crate::EngineError;

verus! {

/// Options controlling compression behaviour.
#[derive(Debug, Clone, Copy)]
pub struct CompressOptions {
    /// Block size in bytes (default 65536).
    pub block_size: usize,
    /// Hash chain search depth (default 32).
    pub max_depth: usize,
    /// Whether to use rayon parallel block compression (default true).
    pub parallel: bool,
}

impl Default for CompressOptions {
    fn default() -> (o: Self)
        ensures
            o.block_size == 65536,
            o.max_depth == 32,
            o.parallel,
    {
        CompressOptions { block_size: 65536, max_depth: 32, parallel: true }
    }
}

/// The header of the archive of `input`.
pub open spec fn header_of(input: Seq<u8>, opts: CompressOptions) -> PpmoHeader {
    PpmoHeader {
        flags: if opts.parallel {
            FLAG_PARALLEL
        } else {
            0
        },
        block_count: chunks(input, opts.block_size as nat).len() as u32,
        original_size: input.len() as u64,
        block_size: opts.block_size as u32,
    }
}

/// The compressed forms of the blocks of `input`.
pub open spec fn block_encodings(input: Seq<u8>, opts: CompressOptions) -> Seq<Seq<u8>> {
    chunks(input, opts.block_size as nat).map_values(|b: Seq<u8>| block_encoding(b, opts.max_depth as nat))
}

/// The block directory of the archive of `input`.
pub open spec fn directory_of(input: Seq<u8>, opts: CompressOptions) -> Seq<BlockEntry> {
    let bs = chunks(input, opts.block_size as nat);
    let encs = block_encodings(input, opts);
    Seq::new(bs.len(), |i: int| entry_of_block(bs[i], encs[i]))
}

/// The archive of `input`: the header with its directory, then the compressed blocks.
pub open spec fn spec_compress(input: Seq<u8>, opts: CompressOptions) -> Seq<u8> {
    header_bytes(header_of(input, opts), directory_of(input, opts)) + concat(block_encodings(input, opts))
}

/// The inputs whose archive holds its block count and every compressed block's
/// length in the directory's 32-bit fields, and that `compress` accepts.
pub open spec fn within_format_limits(input: Seq<u8>, opts: CompressOptions) -> bool {
    let bs = chunks(input, opts.block_size as nat);
    &&& opts.block_size > 0 || input.len() == 0
    &&& opts.block_size <= 0xFFFF_FFFF || input.len() <= 0xFFFF_FFFF
    &&& input.len() <= u64::MAX
    &&& bs.len() <= u32::MAX
    &&& forall|i: int|
        0 <= i < bs.len() ==> (#[trigger] block_encoding(bs[i], opts.max_depth as nat)).len() <= u32::MAX
}

/// Compress `input` with PPMO and return the compressed bytes.
pub fn compress(input: &[u8], opts: &CompressOptions) -> (r: Result<Vec<u8>, EngineError>)
    requires
        opts.block_size > 0 || input@.len() == 0,
        opts.block_size <= 0xFFFF_FFFF || input@.len() <= 0xFFFF_FFFF,
    ensures
        r matches Ok(out) && out@ == spec_compress(input@, *opts),
{
    let blocks = split_into_blocks(input, opts.block_size);
    let ghost bs = chunks(input@, opts.block_size as nat);
    proof {
        if opts.block_size > 0 {
            lemma_chunks(input@, opts.block_size as nat);
        }
        assert forall|i: int| 0 <= i < blocks@.len() implies (#[trigger] blocks@[i])@.len() <= 0xFFFF_FFFF by {
            assert(blocks@[i]@ == bs[i]);
        }
    }
    let (compressed, entries) = compress_blocks(blocks.as_slice(), opts);
    let ghost encs = block_encodings(input@, *opts);
    proof {
        assert(entries@ =~= directory_of(input@, *opts));
    }
    let flags = if opts.parallel { FLAG_PARALLEL } else { 0 };
    let header = PpmoHeader {
        flags,
        block_count: entries.len() as u32,
        original_size: input.len() as u64,
        block_size: opts.block_size as u32,
    };
    assert(header == header_of(input@, *opts));
    let mut out = write_header(&header, entries.as_slice());
    let ghost hb = out@;
    let mut i: usize = 0;
    assert(encs.take(0) == Seq::<Seq<u8>>::empty());
    assert(out@ == hb + concat(encs.take(0)));
    while i < compressed.len()
        invariant
            i <= compressed@.len(),
            compressed@.len() == encs.len(),
            forall|j: int| 0 <= j < encs.len() ==> (#[trigger] compressed@[j])@ == encs[j],
            out@ == hb + concat(encs.take(i as int)),
        decreases compressed@.len() - i,
    {
        append_bytes(&mut out, compressed[i].as_slice());
        proof {
            lemma_concat_push(encs, i as int);
        }
        i += 1;
    }
    assert(encs.take(encs.len() as int) == encs);
    Ok(out)
}

proof fn lemma_concat_len(parts: Seq<Seq<u8>>, b: nat)
    requires
        forall|i: int| 0 <= i < parts.len() ==> (#[trigger] parts[i]).len() <= b,
    ensures
        concat(parts).len() <= parts.len() * b,
    decreases parts.len(),
{
    if parts.len() > 0 {
        let t = parts.drop_first();
        assert forall|i: int| 0 <= i < t.len() implies (#[trigger] t[i]).len() <= b by {
            assert(t[i] == parts[i + 1]);
        }
        lemma_concat_len(t, b);
        assert(concat(parts).len() == parts[0].len() + concat(t).len());
        assert((t.len() + 1) * b == t.len() * b + b) by (nonlinear_arith);
    }
}

/// Blocks of at most 256 MiB, fewer than 2^32 of them, keep an archive within
/// the format's limits.
pub proof fn lemma_within_limits(input: Seq<u8>, opts: CompressOptions)
    requires
        0 < opts.block_size <= 0x1000_0000,
        chunks(input, opts.block_size as nat).len() <= u32::MAX,
    ensures
        within_format_limits(input, opts),
{
    let b = opts.block_size as nat;
    let bs = chunks(input, b);
    lemma_chunks(input, b);
    lemma_concat_len(bs, b);
    assert(bs.len() * b <= 0xFFFF_FFFF * 0x1000_0000) by (nonlinear_arith)
        requires
            bs.len() <= 0xFFFF_FFFF,
            b <= 0x1000_0000,
    ;
    assert forall|i: int| 0 <= i < bs.len() implies (#[trigger] block_encoding(
        bs[i],
        opts.max_depth as nat,
    )).len() <= u32::MAX by {
        lemma_block_encoding_len(bs[i], opts.max_depth as nat);
    }
}

} // verus!
