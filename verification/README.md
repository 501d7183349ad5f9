# OpenPresser engine

A lossless block compressor ("PPMO", Presser Middle-Out), written in Verus:
each block is split at a pivot, both sides are tokenised with a hash-chain
LZ77 pass, the tokens are coded with a length-limited canonical Huffman code,
and the blocks are framed behind a checksummed header.

## Layout

- `src/` — the verified library.
  - `format.rs` — CRC32, header and block directory.
  - `lz.rs` — hash chain, greedy tokenisation and detokenisation.
  - `middle_out.rs` — pivot search and the two-sided encoding of a block.
  - `pm.rs` — package-merge code lengths (at most 15 bits).
  - `canon.rs` — the model of canonical codes: entries, codes, Kraft sums, decode tables.
  - `huffman.rs` — Huffman tables built from frequencies or lengths.
  - `bitseq.rs`, `bitio.rs` — bit strings and the MSB-first bit writer and reader.
  - `table_io.rs` — serialised Huffman tables.
  - `codec.rs` — coding and decoding of token streams.
  - `block.rs`, `compress.rs`, `decompress.rs`, `info.rs` — blocks, archives,
    inspection and integrity checks.
  - `text.rs` — the text of error messages.
- `tests/` — tests of the library.
- `app/` — the `openpresser` command-line tool and the Weissman-score benchmark.

## Main results

- `decompress::lemma_compress_round_trip`: decompressing an archive gives back
  the input it was made from, whenever the block count and each compressed
  block's length fit the directory's 32-bit fields
  (`compress::lemma_within_limits`: so they do for blocks of at most 256 MiB,
  fewer than 2^32 of them).
- `decompress::lemma_parallel_flag`: the parallel option changes only the flag
  byte and the header checksum; the decompressed output is the same.
- `info::lemma_verify_accepts`, `info::lemma_inspect_archive`: an archive passes
  the integrity check and reports the sizes and options it was made with.
- `info::lemma_verify_agrees`: the integrity check accepts exactly the archives
  that decompress.
- `huffman::HuffmanTable::lemma_decode_encoded`: a word that starts with a
  symbol's code decodes to that symbol.
- Round trips of each layer: `format::lemma_header_round_trip`,
  `table_io::lemma_table_round_trip`, `codec::lemma_decode_stream`,
  `lz::lemma_tokenise_round_trip`, `middle_out::lemma_middle_out_round_trip`,
  `block::lemma_block_round_trip`.
- `pm::lemma_pm_valid`: package-merge lengths are between 1 and 15 for every
  coded symbol and satisfy the Kraft inequality.
- `format::lemma_crc_affine`, `format::lemma_crc_detects_byte_error`,
  `format::lemma_crc_detects_bit_flip`: CRC-32 is affine over bytewise
  exclusive or, and it tells apart any two inputs that differ in one byte.
- `lz::lemma_insert_then_find`: after inserting two positions whose four
  bytes agree, the search at the later one finds the earlier with the whole
  common run.
- `lz::lemma_find_longest_nearest`: the chain search reports the longest of
  the runs it visits, and of those the nearest.
