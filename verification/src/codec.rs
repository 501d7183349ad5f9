//! Entropy coding of token streams.
//!
//! A literal is coded by the code of its byte; a match by the code of symbol
//! `256 + length` followed by its distance as 16 raw bits; the stream ends with
//! the code of the end-of-block symbol and is zero-padded to a whole byte.
use vstd::prelude::*;
use vstd::arithmetic::power2::{pow2, lemma_pow2_adds, lemma_pow2_pos};
use crate::bitseq::{
    bits_of, bits_value, bytes_bits, zeros, lemma_bits_of_len, lemma_bits_value_of,
    lemma_bits_value_concat, lemma_bits_value_bound, lemma_pow2_small,
};
use crate::bitio::{BitReader, BitWriter, window32, padding};
use crate::canon::{
    lookup, kraft_prefix, kraft_sum, code_of, weight, is_canonical, table_size, canon_entries,
    valid_lengths, lemma_canonical_at, lemma_prefix_aligned, lemma_lookup_in, lemma_weight,
    lemma_canon_entries, lemma_kraft_prefix_mono, lemma_lookup_found, no_entry, canon_encode,
    lemma_canon_encode,
};
use crate::huffman::{
    HuffmanTable, EOB, build_lengths, nonzero_symbols, build_symbols, lemma_build_lengths, lemma_nonzero,
    lemma_build_fits, lemma_build_monotone,
};
use crate::lz::Token;
use crate::{EngineError, ErrorView};

verus! {

/// The symbol that codes a token.
pub open spec fn token_symbol(t: Token) -> u16 {
    match t {
        Token::Literal(b) => b as u16,
        Token::Match { length, .. } => (256 + length) as u16,
    }
}

/// A token whose symbol lies in the frequency table: a match of length at most
/// 259. (A match of length 259 has the end-of-block symbol; below it, the
/// symbol is a match's own.)
pub open spec fn codable(t: Token) -> bool {
    match t {
        Token::Literal(_) => true,
        Token::Match { length, .. } => length <= 259,
    }
}

/// A token that decodes back to itself: a literal, or a match of length at
/// most 258.
pub open spec fn decodable_token(t: Token) -> bool {
    codable(t) && token_symbol(t) != EOB
}

/// How many tokens are coded by symbol `s`.
pub open spec fn symbol_uses(ts: Seq<Token>, s: u16) -> nat
    decreases ts.len(),
{
    if ts.len() == 0 {
        0
    } else {
        symbol_uses(ts.drop_last(), s) + if token_symbol(ts.last()) == s {
            1nat
        } else {
            0nat
        }
    }
}

/// The symbol frequencies of a token stream, the end-of-block symbol counted once.
pub open spec fn token_freqs(ts: Seq<Token>) -> Seq<u64> {
    Seq::new(
        (EOB + 1) as nat,
        |s: int|
            (symbol_uses(ts, s as u16) + if s == EOB {
                1nat
            } else {
                0nat
            }) as u64,
    )
}

/// The code bits of symbol `s` under the encode table `enc`.
pub open spec fn code_bits(enc: Seq<(u32, u8)>, s: u16) -> Seq<bool> {
    bits_of(enc[s as int].0 as nat, enc[s as int].1 as nat)
}

/// The bits of one token: its symbol's code, then a match's distance in 16 bits.
pub open spec fn token_bits(enc: Seq<(u32, u8)>, t: Token) -> Seq<bool> {
    match t {
        Token::Literal(_) => code_bits(enc, token_symbol(t)),
        Token::Match { distance, .. } => code_bits(enc, token_symbol(t)) + bits_of(distance as nat, 16),
    }
}

/// The bits of the tokens, one after the other.
pub open spec fn tokens_bits(enc: Seq<(u32, u8)>, ts: Seq<Token>) -> Seq<bool>
    decreases ts.len(),
{
    if ts.len() == 0 {
        Seq::empty()
    } else {
        tokens_bits(enc, ts.drop_last()) + token_bits(enc, ts.last())
    }
}

/// The coded stream: the tokens, then the end-of-block code.
pub open spec fn stream_bits(enc: Seq<(u32, u8)>, ts: Seq<Token>) -> Seq<bool> {
    tokens_bits(enc, ts) + code_bits(enc, EOB)
}

/// The first 15 bits of `s`, padded with zeros where `s` is shorter.
pub open spec fn window15(s: Seq<bool>) -> Seq<bool> {
    (s + zeros(15)).take(15)
}

/// Whether some entry codes symbol `s`.
pub open spec fn codes(e: Seq<(u16, u8)>, s: u16) -> bool {
    exists|k: int| 0 <= k < e.len() && #[trigger] e[k].0 == s
}

/// What decoding the bits `bits` with the entries `e` yields: the tokens up to
/// the end-of-block symbol, or the error. Each step looks up the next 15 bits
/// (zero-padded) and consumes the code length, or what is left when fewer bits
/// remain. A decode-table slot with no code (symbol `0xFFFF`, length 0) is an
/// invalid code; a literal or match with no bits left is an early end.
pub open spec fn decode_stream(e: Seq<(u16, u8)>, bits: Seq<bool>) -> Result<Seq<Token>, ErrorView>
    decreases bits.len(),
{
    let entry = lookup(e, bits_value(window15(bits)), 0);
    let sym = entry.0;
    let len = entry.1 as nat;
    if sym == 0xFFFFu16 || len == 0 {
        Err(ErrorView::DecompressError("invalid Huffman code"@))
    } else if sym == EOB {
        Ok(Seq::empty())
    } else if bits.len() == 0 {
        Err(ErrorView::DecompressError("unexpected end of bitstream"@))
    } else {
        let rest = if len <= bits.len() {
            bits.skip(len as int)
        } else {
            Seq::empty()
        };
        if sym < 256 {
            match decode_stream(e, rest) {
                Ok(ts) => Ok(seq![Token::Literal(sym as u8)] + ts),
                Err(x) => Err(x),
            }
        } else if rest.len() < 16 {
            Err(ErrorView::DecompressError("unexpected end of bitstream"@))
        } else {
            let t = Token::Match {
                distance: bits_value(rest.take(16)) as u16,
                length: (sym - 256) as u16,
            };
            match decode_stream(e, rest.skip(16)) {
                Ok(ts) => Ok(seq![t] + ts),
                Err(x) => Err(x),
            }
        }
    }
}

// ───────────────────────────── lemmas ─────────────────────────────

/// The top 15 bits of a 32-bit window are the 15-bit window.
proof fn lemma_window_top(r: u32, s: Seq<bool>)
    requires
        bits_of(r as nat, 32) == window32(s),
    ensures
        (r >> 17u32) as nat == bits_value(window15(s)),
{
    lemma_pow2_small();
    let w = window32(s);
    let a = window15(s);
    let b = w.skip(15);
    assert(w == a + b);
    lemma_bits_value_of(r as nat, 32);
    assert(r as nat % pow2(32) == r as nat);
    lemma_bits_value_concat(a, b);
    lemma_bits_value_bound(b);
    vstd::arithmetic::power2::lemma2_to64();
    assert(pow2(17) == 131072);
    vstd::bits::lemma_u32_shr_is_div(r, 17u32);
    let va = bits_value(a);
    let vb = bits_value(b);
    assert(r as nat == va * 131072 + vb);
    assert((va * 131072 + vb) / 131072 == va) by (nonlinear_arith)
        requires
            vb < 131072,
    ;
}

/// Looking up the window that starts with the code of entry `k` finds entry `k`.
pub proof fn lemma_decode_prefix(e: Seq<(u16, u8)>, k: int, rest: Seq<bool>)
    requires
        is_canonical(e),
        kraft_sum(e) <= table_size(),
        0 <= k < e.len(),
    ensures
        code_of(e, k) < pow2(e[k].1 as nat),
        lookup(e, bits_value(window15(bits_of(code_of(e, k), e[k].1 as nat) + rest)), 0) == e[k],
{
    lemma_pow2_small();
    lemma_canonical_at(e, k, k);
    let l = e[k].1 as nat;
    let w = weight(e[k].1);
    lemma_weight(e[k].1);
    let s = kraft_prefix(e, k as nat);
    lemma_prefix_aligned(e, k, k as nat);
    reveal(code_of);
    let c = code_of(e, k);
    assert(c == s / w);
    vstd::arithmetic::div_mod::lemma_fundamental_div_mod(s as int, w as int);
    assert(s == w * c);
    lemma_kraft_prefix_mono(e, (k + 1) as nat, e.len());
    assert(kraft_prefix(e, (k + 1) as nat) == s + w);
    lemma_pow2_adds(l, (15 - l) as nat);
    assert(pow2(l) * w == 32768);
    lemma_pow2_pos(l);
    assert(c < pow2(l)) by (nonlinear_arith)
        requires
            s == w * c,
            s + w <= 32768,
            pow2(l) * w == 32768,
            w >= 1,
    ;
    let code = bits_of(c, l);
    lemma_bits_of_len(c, l);
    let tail = (rest + zeros(15)).take(15 - l);
    assert(window15(code + rest) == code + tail);
    lemma_bits_value_concat(code, tail);
    lemma_bits_value_of(c, l);
    assert(c % pow2(l) == c) by (nonlinear_arith)
        requires
            c < pow2(l),
    ;
    lemma_bits_value_bound(tail);
    let v = bits_value(window15(code + rest));
    assert(v == c * w + bits_value(tail));
    assert(s <= v < s + w) by (nonlinear_arith)
        requires
            v == c * w + bits_value(tail),
            s == w * c,
            bits_value(tail) < w,
    ;
    lemma_lookup_in(e, k, v, 0);
}

proof fn lemma_tokens_bits_front(enc: Seq<(u32, u8)>, ts: Seq<Token>)
    requires
        ts.len() > 0,
    ensures
        tokens_bits(enc, ts) == token_bits(enc, ts[0]) + tokens_bits(enc, ts.drop_first()),
    decreases ts.len(),
{
    if ts.len() == 1 {
        assert(ts.drop_last() == Seq::<Token>::empty());
        assert(ts.drop_first() == Seq::<Token>::empty());
        assert(token_bits(enc, ts[0]) + Seq::<bool>::empty() == token_bits(enc, ts[0]));
    } else {
        let p = ts.drop_last();
        lemma_tokens_bits_front(enc, p);
        assert(p.drop_first() == ts.drop_first().drop_last());
        assert(ts.drop_first().last() == ts.last());
        assert(p[0] == ts[0]);
    }
}

/// The entries `e` and the encode table `enc` describe one canonical code.
pub open spec fn code_table(e: Seq<(u16, u8)>, enc: Seq<(u32, u8)>) -> bool {
    &&& is_canonical(e)
    &&& kraft_sum(e) <= table_size()
    &&& forall|k: int|
        0 <= k < e.len() ==> (#[trigger] e[k]).0 < enc.len() && enc[e[k].0 as int] == (
            code_of(e, k) as u32,
            e[k].1,
        )
}

/// The code of a coded symbol: its bits under `enc`, of the entry's length and
/// below `2^len`.
proof fn lemma_code_bits(e: Seq<(u16, u8)>, enc: Seq<(u32, u8)>, k: int)
    requires
        code_table(e, enc),
        0 <= k < e.len(),
    ensures
        1 <= e[k].1 <= 15,
        code_bits(enc, e[k].0) == bits_of(code_of(e, k), e[k].1 as nat),
        code_bits(enc, e[k].0).len() == e[k].1,
{
    lemma_canonical_at(e, k, k);
    let c = code_of(e, k);
    let l = e[k].1 as nat;
    lemma_decode_prefix(e, k, Seq::<bool>::empty());
    vstd::arithmetic::power2::lemma_pow2_strictly_increases(l, 32);
    vstd::arithmetic::power2::lemma2_to64();
    assert((c as u32) as nat == c);
    lemma_bits_of_len(c, l);
}

/// The end-of-block code ends the stream.
proof fn lemma_decode_eob(e: Seq<(u16, u8)>, enc: Seq<(u32, u8)>, rest: Seq<bool>)
    requires
        code_table(e, enc),
        codes(e, EOB),
    ensures
        decode_stream(e, code_bits(enc, EOB) + rest) == Ok::<Seq<Token>, ErrorView>(Seq::empty()),
{
    let k = choose|k: int| 0 <= k < e.len() && #[trigger] e[k].0 == EOB;
    lemma_code_bits(e, enc, k);
    lemma_decode_prefix(e, k, rest);
}

/// One coded token in front of a decodable stream is decoded first.
proof fn lemma_decode_step(
    e: Seq<(u16, u8)>,
    enc: Seq<(u32, u8)>,
    t: Token,
    after: Seq<bool>,
    tail: Seq<Token>,
)
    requires
        code_table(e, enc),
        decodable_token(t),
        codes(e, token_symbol(t)),
        decode_stream(e, after) == Ok::<Seq<Token>, ErrorView>(tail),
    ensures
        decode_stream(e, token_bits(enc, t) + after) == Ok::<Seq<Token>, ErrorView>(seq![t] + tail),
{
    let s = token_symbol(t);
    let k = choose|k: int| 0 <= k < e.len() && #[trigger] e[k].0 == s;
    lemma_code_bits(e, enc, k);
    let l = e[k].1 as nat;
    let code = code_bits(enc, s);
    match t {
        Token::Literal(b) => {
            let bits = code + after;
            lemma_decode_prefix(e, k, after);
            assert(bits.skip(l as int) == after);
        },
        Token::Match { distance, length } => {
            let dist = bits_of(distance as nat, 16);
            lemma_bits_of_len(distance as nat, 16);
            let bits = code + (dist + after);
            assert(token_bits(enc, t) + after == bits);
            lemma_decode_prefix(e, k, dist + after);
            let r1 = bits.skip(l as int);
            assert(r1 == dist + after);
            assert(r1.take(16) == dist);
            assert(r1.skip(16) == after);
            lemma_bits_value_of(distance as nat, 16);
            lemma_pow2_small();
            assert(bits_value(dist) == distance);
        },
    }
}

/// Decoding the stream of coded tokens gives the tokens back, whatever follows.
pub proof fn lemma_decode_stream(e: Seq<(u16, u8)>, enc: Seq<(u32, u8)>, ts: Seq<Token>, rest: Seq<bool>)
    requires
        code_table(e, enc),
        codes(e, EOB),
        forall|i: int| 0 <= i < ts.len() ==> decodable_token(#[trigger] ts[i]) && codes(e, token_symbol(ts[i])),
    ensures
        decode_stream(e, stream_bits(enc, ts) + rest) == Ok::<Seq<Token>, ErrorView>(ts),
    decreases ts.len(),
{
    if ts.len() == 0 {
        lemma_decode_eob(e, enc, rest);
        assert(ts == Seq::<Token>::empty());
        assert(tokens_bits(enc, ts) == Seq::<bool>::empty());
        assert(stream_bits(enc, ts) =~= code_bits(enc, EOB));
    } else {
        let t = ts[0];
        let tail = ts.drop_first();
        assert forall|i: int| 0 <= i < tail.len() implies decodable_token(#[trigger] tail[i]) && codes(
            e,
            token_symbol(tail[i]),
        ) by {
            assert(tail[i] == ts[i + 1]);
        }
        lemma_decode_stream(e, enc, tail, rest);
        lemma_tokens_bits_front(enc, ts);
        assert(decodable_token(ts[0]) && codes(e, token_symbol(ts[0])));
        let after = stream_bits(enc, tail) + rest;
        lemma_decode_step(e, enc, t, after, tail);
        assert(stream_bits(enc, ts) + rest == token_bits(enc, t) + after);
        assert(seq![t] + tail == ts);
    }
}

proof fn lemma_uses_positive(ts: Seq<Token>, i: int)
    requires
        0 <= i < ts.len(),
    ensures
        symbol_uses(ts, token_symbol(ts[i])) >= 1,
        symbol_uses(ts, token_symbol(ts[i])) <= ts.len(),
    decreases ts.len(),
{
    lemma_uses_bound(ts, token_symbol(ts[i]));
    if i < ts.len() - 1 {
        lemma_uses_positive(ts.drop_last(), i);
        assert(ts.drop_last()[i] == ts[i]);
    }
}

proof fn lemma_uses_bound(ts: Seq<Token>, s: u16)
    ensures
        symbol_uses(ts, s) <= ts.len(),
    decreases ts.len(),
{
    if ts.len() > 0 {
        lemma_uses_bound(ts.drop_last(), s);
    }
}

/// The tokens of `ts` whose symbol is `s`.
pub open spec fn tokens_with_symbol(ts: Seq<Token>, s: u16) -> Seq<Token> {
    ts.filter(|t: Token| token_symbol(t) == s)
}

proof fn lemma_uses_count(ts: Seq<Token>, s: u16)
    ensures
        symbol_uses(ts, s) == tokens_with_symbol(ts, s).len(),
    decreases ts.len(),
{
    reveal(Seq::filter);
    if ts.len() > 0 {
        lemma_uses_count(ts.drop_last(), s);
    }
}

/// The frequency table that the Huffman code is built from counts every token:
/// the entry of each symbol is the number of tokens with that symbol, and the
/// end-of-block symbol is counted once more for the marker that ends the stream.
pub proof fn lemma_token_freqs_count(ts: Seq<Token>)
    requires
        ts.len() < 0x1_0000_0000_0000,
    ensures
        token_freqs(ts).len() == EOB + 1,
        forall|s: int|
            0 <= s <= EOB ==> #[trigger] token_freqs(ts)[s] == tokens_with_symbol(ts, s as u16).len() + if s
                == EOB {
                1int
            } else {
                0int
            },
{
    assert forall|s: int| 0 <= s <= EOB implies #[trigger] token_freqs(ts)[s] == tokens_with_symbol(
        ts,
        s as u16,
    ).len() + if s == EOB {
        1int
    } else {
        0int
    } by {
        lemma_uses_count(ts, s as u16);
        lemma_uses_bound(ts, s as u16);
    }
}

/// How often the code of symbol `s` is written for `ts`: once per token with
/// that symbol, and once more for the end-of-block marker.
pub open spec fn symbol_count(ts: Seq<Token>, s: int) -> int {
    tokens_with_symbol(ts, s as u16).len() + if s == EOB {
        1int
    } else {
        0int
    }
}

/// A symbol written more often gets a code no longer than one written less
/// often: the code lengths of a token stream's table follow the token counts.
pub proof fn lemma_token_codes_follow_counts(ts: Seq<Token>, x: int, y: int)
    requires
        ts.len() < 0x1_0000_0000_0000,
        0 <= x <= EOB,
        0 <= y <= EOB,
        symbol_count(ts, x) > symbol_count(ts, y),
        symbol_count(ts, y) > 0,
    ensures
        build_lengths(token_freqs(ts))[x] <= build_lengths(token_freqs(ts))[y],
{
    lemma_token_freqs_count(ts);
    let f = token_freqs(ts);
    lemma_nonzero(f);
    assert(build_symbols(f).len() <= f.len() + 1);
    lemma_build_monotone(f, x, y);
}

/// The table of a token stream codes the end-of-block symbol and every token's
/// symbol; its length map is valid and its encode table is the canonical one.
pub proof fn lemma_token_table(ts: Seq<Token>)
    requires
        ts.len() < 0x1_0000_0000_0000,
        forall|i: int| 0 <= i < ts.len() ==> codable(#[trigger] ts[i]),
    ensures
        ({
            let m = build_lengths(token_freqs(ts));
            let e = canon_entries(m);
            &&& valid_lengths(m)
            &&& m.len() == EOB + 1
            &&& code_table(e, canon_encode(e, (EOB + 1) as nat))
            &&& codes(e, EOB)
            &&& forall|i: int| 0 <= i < ts.len() ==> codes(e, token_symbol(#[trigger] ts[i]))
        }),
{
    let f = token_freqs(ts);
    assert forall|x: int| 0 <= x < f.len() implies #[trigger] f[x] <= 0x1_0000_0000_0000 by {
        lemma_uses_bound(ts, x as u16);
    }
    lemma_uses_bound(ts, EOB);
    lemma_nonzero_eob(f);
    lemma_nonzero(f);
    lemma_build_lengths(f);
    let m = build_lengths(f);
    let e = canon_entries(m);
    lemma_canon_entries(m);
    assert(m[EOB as int] >= 1);
    assert forall|i: int| 0 <= i < ts.len() implies codes(e, token_symbol(#[trigger] ts[i])) by {
        let s = token_symbol(ts[i]);
        assert(codable(ts[i]));
        lemma_uses_positive(ts, i);
        assert(f[s as int] > 0);
        assert(m[s as int] >= 1);
    }
    lemma_canon_encode(e, (EOB + 1) as nat);
}

// ───────────────────────────── executable ─────────────────────────────

/// Encode tokens → (HuffmanTable, bitstream bytes).
pub fn encode_tokens(tokens: &[Token]) -> (r: (HuffmanTable, Vec<u8>))
    requires
        tokens@.len() < 0x1_0000_0000_0000,
        forall|i: int| 0 <= i < tokens@.len() ==> codable(#[trigger] tokens@[i]),
    ensures
        r.0.decodable(),
        r.0.entries() == canon_entries(build_lengths(token_freqs(tokens@))),
        r.0.symbols() == EOB + 1,
        r.0.encode_view() == canon_encode(r.0.entries(), (EOB + 1) as nat),
        code_table(r.0.entries(), r.0.encode_view()),
        codes(r.0.entries(), EOB),
        forall|i: int| 0 <= i < tokens@.len() ==> codes(r.0.entries(), token_symbol(#[trigger] tokens@[i])),
        bytes_bits(r.1@) == stream_bits(r.0.encode_view(), tokens@) + zeros(
            padding(stream_bits(r.0.encode_view(), tokens@).len()),
        ),
{
    let mut freqs: Vec<u64> = Vec::new();
    let mut s: usize = 0;
    while s <= EOB as usize
        invariant
            s <= EOB + 1,
            freqs@ == Seq::new(s as nat, |x: int| 0u64),
        decreases EOB + 1 - s,
    {
        freqs.push(0);
        s += 1;
        assert(freqs@ =~= Seq::new(s as nat, |x: int| 0u64));
    }
    let mut i: usize = 0;
    while i < tokens.len()
        invariant
            i <= tokens@.len() < 0x1_0000_0000_0000,
            forall|j: int| 0 <= j < tokens@.len() ==> codable(#[trigger] tokens@[j]),
            freqs@.len() == EOB + 1,
            forall|x: int| 0 <= x <= EOB ==> #[trigger] freqs@[x] == symbol_uses(tokens@.take(i as int), x as u16),
        decreases tokens@.len() - i,
    {
        let sym: usize = match tokens[i] {
            Token::Literal(b) => b as usize,
            Token::Match { length, .. } => 256 + length as usize,
        };
        assert(codable(tokens@[i as int]));
        assert(sym == token_symbol(tokens@[i as int]));
        proof {
            let p = tokens@.take(i + 1);
            assert(p.drop_last() == tokens@.take(i as int));
            assert(p.last() == tokens@[i as int]);
            lemma_uses_bound(tokens@.take(i as int), sym as u16);
        }
        freqs.set(sym, freqs[sym] + 1);
        i += 1;
    }
    assert(tokens@.take(tokens@.len() as int) == tokens@);
    let eob = EOB as usize;
    proof {
        lemma_uses_bound(tokens@, EOB);
    }
    freqs.set(eob, freqs[eob] + 1);
    proof {
        assert forall|x: int| 0 <= x < freqs@.len() implies #[trigger] freqs@[x] <= 0x1_0000_0000_0000 by {
            lemma_uses_bound(tokens@, x as u16);
        }
        assert(freqs@ =~= token_freqs(tokens@));
        assert(nonzero_symbols(freqs@).len() > 0) by {
            lemma_nonzero_eob(freqs@);
        }
        lemma_nonzero(freqs@);
        lemma_build_fits(freqs@);
    }
    let table = HuffmanTable::build(&freqs);
    let ghost e = table.entries();
    let ghost enc = table.encode_view();
    let ghost m = build_lengths(freqs@);
    proof {
        table.lemma_decodable();
        table.lemma_wf_entries();
        table.lemma_encode_view();
        lemma_canon_entries(m);
        assert(m[EOB as int] >= 1);
        assert forall|j: int| 0 <= j < tokens@.len() implies codes(e, token_symbol(#[trigger] tokens@[j])) by {
            let sj = token_symbol(tokens@[j]);
            assert(codable(tokens@[j]));
            lemma_uses_positive(tokens@, j);
            assert(freqs@[sj as int] > 0);
            assert(m[sj as int] >= 1);
        }
    }
    let mut bw = BitWriter::new();
    let mut i: usize = 0;
    while i < tokens.len()
        invariant
            i <= tokens@.len(),
            bw.wf(),
            table.decodable(),
            e == table.entries(),
            enc == table.encode_view(),
            enc.len() == EOB + 1,
            forall|x: int| 0 <= x < enc.len() ==> (#[trigger] enc[x]).1 <= 15,
            forall|j: int| 0 <= j < tokens@.len() ==> codable(#[trigger] tokens@[j]),
            bw.written() == tokens_bits(enc, tokens@.take(i as int)),
        decreases tokens@.len() - i,
    {
        let tok = tokens[i];
        let ghost before = bw.written();
        proof {
            let p = tokens@.take(i + 1);
            assert(p.drop_last() == tokens@.take(i as int));
            assert(p.last() == tok);
            assert(codable(tokens@[i as int]));
        }
        match tok {
            Token::Literal(b) => {
                let (code, len) = table.encode_symbol(b as u16);
                bw.write_bits(code, len);
            },
            Token::Match { distance, length } => {
                let (code, len) = table.encode_symbol(256 + length);
                bw.write_bits(code, len);
                bw.write_bits(distance as u32, 16);
                assert(bw.written() == before + (code_bits(enc, token_symbol(tok)) + bits_of(
                    distance as nat,
                    16,
                )));
            },
        }
        i += 1;
    }
    assert(tokens@.take(tokens@.len() as int) == tokens@);
    let (code, len) = table.encode_symbol(EOB);
    bw.write_bits(code, len);
    (table, bw.finish())
}

proof fn lemma_nonzero_eob(f: Seq<u64>)
    requires
        f.len() == EOB + 1,
        f[EOB as int] > 0,
    ensures
        nonzero_symbols(f).len() > 0,
{
    assert(f.last() == f[EOB as int]);
}

/// Decode bitstream → tokens using `table`.
pub fn decode_tokens(table: &HuffmanTable, bitstream: &[u8], token_capacity: usize) -> (r: Result<
    Vec<Token>,
    EngineError,
>)
    requires
        table.decodable(),
    ensures
        match decode_stream(table.entries(), bytes_bits(bitstream@)) {
            Ok(ts) => r matches Ok(v) && v@ == ts,
            Err(ev) => r matches Err(err) && err@ == ev,
        },
{
    let ghost e = table.entries();
    let ghost total = bytes_bits(bitstream@);
    let mut br = BitReader::new(bitstream);
    let mut tokens: Vec<Token> = Vec::new();
    proof {
        table.lemma_decodable();
        table.lemma_wf_entries();
    }
    loop
        invariant
            table.decodable(),
            is_canonical(e),
            e == table.entries(),
            total == bytes_bits(bitstream@),
            br.wf(),
            decode_stream(e, total) == match decode_stream(e, br.remaining()) {
                Ok(ts) => Ok(tokens@ + ts),
                Err(x) => Err::<Seq<Token>, ErrorView>(x),
            },
        decreases br.remaining().len(),
    {
        let ghost rem = br.remaining();
        let exhausted = br.is_exhausted();
        let bits32 = br.peek32();
        proof {
            lemma_window_top(bits32, rem);
            let v = bits_value(window15(rem));
            lemma_lookup_found(e, v, 0);
            if lookup(e, v, 0) != no_entry() {
                let k = choose|k: int| 0 <= k < e.len() && kraft_prefix(e, k as nat) <= v < kraft_prefix(e, (k + 1) as nat)
                    && lookup(e, v, 0) == e[k];
                lemma_canonical_at(e, k, k);
            }
        }
        assert(br.remaining() == rem);
        let (sym, len) = match table.decode_symbol(bits32) {
            Ok(entry) => entry,
            Err(err) => {
                return Err(err);
            },
        };
        assert((sym, len) == lookup(e, bits_value(window15(rem)), 0));
        assert(len >= 1);
        br.consume(len);
        let ghost rest = if len as nat <= rem.len() {
            rem.skip(len as int)
        } else {
            Seq::<bool>::empty()
        };
        assert(br.remaining() == rest);
        if sym == EOB {
            assert(tokens@ + Seq::<Token>::empty() == tokens@);
            return Ok(tokens);
        }
        if sym < 256 {
            if exhausted {
                return Err(EngineError::DecompressError("unexpected end of bitstream".to_owned()));
            }
            let ghost tail = br.remaining();
            let ghost before = tokens@;
            assert(decode_stream(e, rem) == match decode_stream(e, tail) {
                Ok(ts) => Ok(seq![Token::Literal(sym as u8)] + ts),
                Err(x) => Err::<Seq<Token>, ErrorView>(x),
            });
            tokens.push(Token::Literal(sym as u8));
            proof {
                match decode_stream(e, tail) {
                    Ok(ts) => {
                        assert(tokens@ + ts == before + (seq![Token::Literal(sym as u8)] + ts));
                    },
                    Err(x) => {},
                }
            }
        } else {
            let length = sym - 256;
            let ghost after_code = br.remaining();
            let distance = match br.read_bits(16) {
                Ok(v) => {
                    proof {
                        lemma_bits_value_bound(after_code.take(16));
                        lemma_pow2_small();
                    }
                    v as u16
                },
                Err(err) => {
                    return Err(err);
                },
            };
            proof {
                let t = Token::Match { distance, length };
                assert(after_code.len() >= 16);
                assert(t == Token::Match {
                    distance: bits_value(after_code.take(16)) as u16,
                    length: (sym - 256) as u16,
                });
            }
            let ghost tail = br.remaining();
            let ghost before = tokens@;
            assert(tail == after_code.skip(16));
            assert(decode_stream(e, rem) == match decode_stream(e, tail) {
                Ok(ts) => Ok(seq![Token::Match { distance, length }] + ts),
                Err(x) => Err::<Seq<Token>, ErrorView>(x),
            });
            tokens.push(Token::Match { distance, length });
            proof {
                match decode_stream(e, tail) {
                    Ok(ts) => {
                        assert(tokens@ + ts == before + (seq![Token::Match { distance, length }] + ts));
                    },
                    Err(x) => {},
                }
            }
        }
    }
}

} // verus!
