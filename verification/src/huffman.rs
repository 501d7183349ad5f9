//! Canonical Huffman coding.
//!
//! Tokens are encoded as symbols:
//!   - Literal: symbol = byte value (0..=255)
//!   - Match:   symbol = 256 + length (length 4..=258 → symbols 260..=514), followed by the
//!              distance as a raw 16-bit value
//!   - EOB:     symbol = 515 (= 256 + MAX_MATCH + 1, above all match symbols)
//!
//! Code lengths are at most 15 bits (package-merge); the bitstream is MSB-first.
use vstd::prelude::*;
use vstd::arithmetic::power2::pow2;
use crate::canon::{
    canon_entries, code_of, derived_table, is_canonical, kraft_prefix, kraft_sum, lookup,
    no_entry, table_size, valid_lengths, weight, entries_upto, level_entries,
    lemma_canon_entries, lemma_kraft_prefix_mono, lemma_canonical_at, lemma_lookup_in, lemma_lookup_past,
    lemma_prefix_aligned, lemma_weight, lemma_kraft_by_symbol, canon_encode, lemma_canon_encode,
    has_symbol, entry_of,
};
use crate::pm::{
    pm_lengths, sort_by_freq, syms_of, package_merge, lemma_sort_syms, lemma_pm_valid,
    lemma_sum_scale, lemma_sum_point, pm_fits, leaf_items, lemma_pm_fits_bounded, lemma_sort_within,
    lemma_sort_by_freq_sorted, lemma_pm_lengths_monotone,
};
use crate::bitseq::lemma_pow2_small;
use crate::table_io::{table_bytes, records_bytes, record_bytes, lemma_count_fits};
use vstd::bytes::{spec_u16_to_le_bytes, u16_to_le_bytes, lemma_auto_spec_u16_to_from_le_bytes};
pub use crate::table_io::deserialise_table;
pub use crate::codec::{encode_tokens, decode_tokens};
use crate::{EngineError, ErrorView};

pub use crate::bitio::{BitReader, BitWriter};

verus! {

pub const MAX_CODE_LEN: usize = 15;

/// End-of-block symbol. Must be > 256 + MAX_MATCH (= 256 + 258 = 514).
pub const EOB: u16 = 515;

/// A fully built canonical Huffman table.
#[derive(Debug, Clone)]
pub struct HuffmanTable {
    /// Encode: symbol → (code: u32, len: u8)
    pub encode: Vec<(u32, u8)>,
    /// (symbol, length) pairs, sorted by (length, symbol)
    pub lengths: Vec<(u16, u8)>,
    /// Number of symbols the encode table covers
    pub symbol_count: usize,
    /// Decode table: (symbol, len) for every 15-bit window
    decode_table: Vec<(u16, u8)>,
}

impl HuffmanTable {
    /// The decode table, one slot per 15-bit window.
    pub closed spec fn decode_view(&self) -> Seq<(u16, u8)> {
        self.decode_table@
    }

    /// The canonical entries `(symbol, length)`, sorted by (length, symbol).
    pub closed spec fn entries(&self) -> Seq<(u16, u8)> {
        self.lengths@
    }

    /// The encode table: symbol → (code, length).
    pub closed spec fn encode_view(&self) -> Seq<(u32, u8)> {
        self.encode@
    }

    /// The number of symbols of the encode table.
    pub closed spec fn symbols(&self) -> nat {
        self.symbol_count as nat
    }

    /// The encode table, the entry list and the decode table describe one canonical code.
    pub closed spec fn wf(&self) -> bool {
        let e = self.lengths@;
        &&& is_canonical(e)
        &&& kraft_sum(e) <= table_size()
        &&& self.symbol_count <= 65536
        &&& self.encode@.len() == self.symbol_count
        &&& forall|k: int|
            0 <= k < e.len() ==> (#[trigger] e[k]).0 < self.symbol_count && self.encode@[e[k].0 as int]
                == (code_of(e, k) as u32, e[k].1)
        &&& forall|s: int|
            0 <= s < self.symbol_count && (forall|k: int| 0 <= k < e.len() ==> #[trigger] e[k].0 != s)
                ==> self.encode@[s] == (0u32, 0u8)
        &&& (self.decode_view().len() == 0 && e.len() == 0) || self.decode_view() == derived_table(e)
    }

    /// What well-formedness says of the entries and the encode table.
    pub proof fn lemma_wf_entries(&self)
        requires
            self.wf(),
        ensures
            is_canonical(self.entries()),
            kraft_sum(self.entries()) <= table_size(),
            self.symbols() <= 65536,
            self.encode_view().len() == self.symbols(),
            forall|k: int|
                0 <= k < self.entries().len() ==> (#[trigger] self.entries()[k]).0 < self.symbols()
                    && self.encode_view()[self.entries()[k].0 as int] == (
                    code_of(self.entries(), k) as u32,
                    self.entries()[k].1,
                ),
            forall|s: int| 0 <= s < self.symbols() ==> (#[trigger] self.encode_view()[s]).1 <= 15,
    {
        let e = self.lengths@;
        assert forall|s: int| 0 <= s < self.symbols() implies (#[trigger] self.encode_view()[s]).1 <= 15 by {
            if exists|k: int| 0 <= k < e.len() && #[trigger] e[k].0 == s {
                let k = choose|k: int| 0 <= k < e.len() && #[trigger] e[k].0 == s;
                lemma_canonical_at(e, k, k);
            }
        }
    }

    /// The encode table is the canonical one of the entries.
    pub proof fn lemma_encode_view(&self)
        requires
            self.wf(),
        ensures
            self.encode_view() == canon_encode(self.entries(), self.symbols()),
    {
        let e = self.lengths@;
        let n = self.symbol_count as nat;
        lemma_canon_encode(e, n);
        assert forall|s: int| 0 <= s < n implies #[trigger] self.encode@[s] == canon_encode(e, n)[s] by {
            if has_symbol(e, s) {
                let k = entry_of(e, s);
                assert(canon_encode(e, n)[e[k].0 as int] == (code_of(e, k) as u32, e[k].1));
            }
        }
        assert(self.encode@ =~= canon_encode(e, n));
    }

    /// A table whose decode table is built is well formed.
    pub proof fn lemma_decodable(&self)
        requires
            self.decodable(),
        ensures
            self.wf(),
    {
    }

    /// A table whose decode table is built.
    pub closed spec fn decodable(&self) -> bool {
        &&& self.wf()
        &&& self.decode_view().len() == table_size()
    }

    /// Build from a length table `lengths[symbol] = code_length` (0 = not present).
    #[verifier::spinoff_prover]
    #[verifier::rlimit(50)]
    pub fn from_lengths(lengths_map: &[u8]) -> (t: HuffmanTable)
        requires
            valid_lengths(lengths_map@),
        ensures
            t.decodable(),
            t.entries() == canon_entries(lengths_map@),
            t.symbols() == lengths_map@.len(),
            t.encode_view() == canon_encode(t.entries(), t.symbols()),
            forall|s: int| 0 <= s < lengths_map@.len() && lengths_map@[s] == 0 ==> #[trigger] t.encode_view()[s] == (0u32, 0u8),
    {
        let ghost m = lengths_map@;
        let n = lengths_map.len();
        let lengths = canonical_entries(lengths_map);
        let ghost e = lengths@;
        proof {
            lemma_canon_entries(m);
        }

        // Assign canonical codes
        let mut encode: Vec<(u32, u8)> = Vec::new();
        let mut s: usize = 0;
        while s < n
            invariant
                s <= n,
                encode@.len() == s,
                forall|i: int| 0 <= i < s ==> encode@[i] == (0u32, 0u8),
            decreases n - s,
        {
            encode.push((0, 0));
            s += 1;
        }
        let encode = assign_codes(&lengths, encode);

        let decode_table = build_decode_table(&lengths, &encode);
        proof {
            assert forall|s: int| 0 <= s < n && m[s] == 0 implies encode@[s] == (0u32, 0u8) by {
                assert forall|j: int| 0 <= j < e.len() implies #[trigger] e[j].0 != s by {
                    lemma_canonical_at(e, j, j);
                }
            }
        }
        let t = HuffmanTable { encode, lengths, symbol_count: n, decode_table };
        proof {
            t.lemma_encode_view();
        }
        t
    }

    /// A table with no codes over `n` symbols.
    fn empty(n: usize) -> (t: Self)
        requires
            n <= 65536,
        ensures
            t.wf(),
            t.entries().len() == 0,
            t.symbols() == n,
            forall|s: int| 0 <= s < n ==> #[trigger] t.encode_view()[s] == (0u32, 0u8),
    {
        let mut encode: Vec<(u32, u8)> = Vec::new();
        let mut s: usize = 0;
        while s < n
            invariant
                s <= n,
                encode@.len() == s,
                forall|i: int| 0 <= i < s ==> encode@[i] == (0u32, 0u8),
            decreases n - s,
        {
            encode.push((0, 0));
            s += 1;
        }
        let t = HuffmanTable { encode, lengths: Vec::new(), symbol_count: n, decode_table: Vec::new() };
        assert(is_canonical(t.lengths@)) by {
            reveal(is_canonical);
        }
        t
    }

    pub fn encode_symbol(&self, sym: u16) -> (r: (u32, u8))
        requires
            (sym as nat) < self.encode_view().len(),
        ensures
            r == self.encode_view()[sym as int],
    {
        self.encode[sym as usize]
    }

    /// Decode one symbol from `bits` (MSB-aligned, MAX_CODE_LEN bits available).
    /// Returns `(symbol, code_len)`.
    pub fn decode_symbol(&self, bits: u32) -> (r: Result<(u16, u8), EngineError>)
        requires
            self.decodable(),
        ensures
            ({
                let entry = lookup(self.entries(), (bits >> 17u32) as nat, 0);
                if entry.0 == 0xFFFFu16 {
                    r matches Err(err) && err@ == ErrorView::DecompressError("invalid Huffman code"@)
                } else {
                    r == Ok::<(u16, u8), EngineError>(entry)
                }
            }),
    {
        let idx = (bits >> (32 - MAX_CODE_LEN as u32)) as usize;
        assert(bits >> 17u32 < 32768) by (bit_vector);
        let (sym, len) = self.decode_table[idx];
        if sym == u16::MAX {
            return Err(EngineError::DecompressError("invalid Huffman code".to_owned()));
        }
        Ok((sym, len))
    }

    /// A 32-bit word whose top bits are the code of a symbol decodes to that
    /// symbol and its code length.
    pub proof fn lemma_decode_encoded(&self, s: u16, bits: u32)
        requires
            self.wf(),
            (s as nat) < self.symbols(),
            self.encode_view()[s as int].1 >= 1,
            bits >> ((32 - self.encode_view()[s as int].1) as u32) == self.encode_view()[s as int].0,
        ensures
            lookup(self.entries(), (bits >> 17u32) as nat, 0) == (s, self.encode_view()[s as int].1),
    {
        let e = self.lengths@;
        assert(exists|k: int| 0 <= k < e.len() && #[trigger] e[k].0 == s);
        let k = choose|k: int| 0 <= k < e.len() && #[trigger] e[k].0 == s;
        lemma_canonical_at(e, k, k);
        let l = e[k].1;
        let c = code_of(e, k);
        let w = weight(l);
        lemma_weight(l);
        let sk = kraft_prefix(e, k as nat);
        lemma_prefix_aligned(e, k, k as nat);
        reveal(code_of);
        vstd::arithmetic::div_mod::lemma_fundamental_div_mod(sk as int, w as int);
        assert(sk == w * c);
        lemma_kraft_prefix_mono(e, (k + 1) as nat, e.len());
        assert(sk + w <= 32768);
        assert(c < 32768) by (nonlinear_arith)
            requires
                sk == w * c,
                sk + w <= 32768,
                w >= 1,
        ;
        let v = bits >> 17u32;
        let sh = (15 - l) as u32;
        assert(v >> sh == bits >> ((32 - l) as u32)) by (bit_vector)
            requires
                v == bits >> 17u32,
                sh == 15 - l,
                1 <= l <= 15,
        ;
        vstd::bits::lemma_u32_shr_is_div(v, sh);
        assert(w == pow2(sh as nat));
        assert((v >> sh) as nat == c);
        let vi = v as int;
        let wi = w as int;
        vstd::arithmetic::div_mod::lemma_fundamental_div_mod(vi, wi);
        assert(vi / wi == c);
        assert(0 <= vi % wi < wi);
        assert(sk <= v < sk + w) by (nonlinear_arith)
            requires
                vi == wi * (vi / wi) + vi % wi,
                0 <= vi % wi < wi,
                vi / wi == c,
                sk == wi * c,
                vi == v,
                wi == w,
        ;
        lemma_lookup_in(e, k, v as nat, 0);
    }
}

/// The canonical entries of a length map, built level by level.
fn canonical_entries(m: &[u8]) -> (e: Vec<(u16, u8)>)
    requires
        m@.len() <= 65536,
    ensures
        e@ == canon_entries(m@),
{
    let mut e: Vec<(u16, u8)> = Vec::new();
    let mut len: u8 = 1;
    while len <= 15
        invariant
            1 <= len <= 16,
            m@.len() <= 65536,
            e@ == entries_upto(m@, (len - 1) as nat),
        decreases 16 - len,
    {
        let mut i: usize = 0;
        while i < m.len()
            invariant
                1 <= len <= 15,
                i <= m@.len(),
                m@.len() <= 65536,
                e@ == entries_upto(m@, (len - 1) as nat) + level_entries(m@, len, i as nat),
            decreases m@.len() - i,
        {
            if m[i] == len {
                e.push((i as u16, len));
            }
            i += 1;
        }
        assert(e@ == entries_upto(m@, len as nat));
        len += 1;
    }
    e
}


/// Code of each entry from the previous one: `(code + 1) << (len - prev_len)`.
proof fn lemma_next_code(e: Seq<(u16, u8)>, k: int)
    requires
        is_canonical(e),
        0 < k < e.len(),
        kraft_sum(e) <= table_size(),
    ensures
        code_of(e, k) == (code_of(e, k - 1) + 1) * pow2((e[k].1 - e[k - 1].1) as nat),
        (code_of(e, k - 1) + 1) * pow2((e[k].1 - e[k - 1].1) as nat) <= 32768,
        code_of(e, k - 1) + 1 <= 32768,
        e[k - 1].1 <= e[k].1,
{
    reveal(code_of);
    let len = e[k].1;
    let pl = e[k - 1].1;
    lemma_canonical_at(e, k - 1, k);
    lemma_kraft_prefix_mono(e, (k + 1) as nat, e.len());
    lemma_weight(len);
    lemma_weight(pl);
    lemma_prefix_aligned(e, k, k as nat);
    lemma_prefix_aligned(e, k - 1, (k - 1) as nat);
    let s_k = kraft_prefix(e, k as nat);
    let w_k = weight(len);
    let s_p = kraft_prefix(e, (k - 1) as nat);
    let w_p = weight(pl);
    vstd::arithmetic::div_mod::lemma_fundamental_div_mod(s_k as int, w_k as int);
    vstd::arithmetic::div_mod::lemma_fundamental_div_mod(s_p as int, w_p as int);
    let d = (len - pl) as nat;
    vstd::arithmetic::power2::lemma_pow2_adds((15 - len) as nat, d);
    vstd::arithmetic::power2::lemma_pow2_pos(d);
    assert(w_p == w_k * pow2(d));
    assert(s_k == s_p + w_p);
    let c = code_of(e, k - 1);
    assert(s_p == w_p * c);
    assert(s_k == w_k * ((c + 1) * pow2(d))) by (nonlinear_arith)
        requires
            s_k == s_p + w_p,
            s_p == w_p * c,
            w_p == w_k * pow2(d),
    ;
    vstd::arithmetic::div_mod::lemma_div_multiples_vanish(((c + 1) * pow2(d)) as int, w_k as int);
    assert((c + 1) * pow2(d) <= s_k) by (nonlinear_arith)
        requires
            s_k == w_k * ((c + 1) * pow2(d)),
            w_k >= 1,
    ;
    assert(c + 1 <= (c + 1) * pow2(d)) by (nonlinear_arith)
        requires
            pow2(d) >= 1,
    ;
}

/// Fills `encode[sym]` with the canonical code of each entry.
#[verifier::spinoff_prover]
#[verifier::rlimit(50)]
fn assign_codes(lengths: &Vec<(u16, u8)>, encode: Vec<(u32, u8)>) -> (out: Vec<(u32, u8)>)
    requires
        is_canonical(lengths@),
        kraft_sum(lengths@) <= table_size(),
        forall|j: int| 0 <= j < lengths@.len() ==> ((#[trigger] lengths@[j]).0 as nat) < encode@.len(),
        forall|i: int| 0 <= i < encode@.len() ==> encode@[i] == (0u32, 0u8),
    ensures
        out@.len() == encode@.len(),
        forall|j: int|
            0 <= j < lengths@.len() ==> out@[(#[trigger] lengths@[j]).0 as int] == (
                code_of(lengths@, j) as u32,
                lengths@[j].1,
            ),
        forall|i: int|
            0 <= i < out@.len() && (forall|j: int| 0 <= j < lengths@.len() ==> #[trigger] lengths@[j].0 != i)
                ==> out@[i] == (0u32, 0u8),
{
    let ghost e = lengths@;
    let mut encode = encode;
    let ghost n = encode@.len();
    let mut code: u32 = 0;
    let mut prev_len: u8 = 0;
    let mut k: usize = 0;
    while k < lengths.len()
        invariant
            e == lengths@,
            is_canonical(e),
            kraft_sum(e) <= table_size(),
            forall|j: int| 0 <= j < e.len() ==> ((#[trigger] e[j]).0 as nat) < n,
            encode@.len() == n,
            k <= e.len(),
            k == 0 ==> prev_len == 0 && code == 0,
            k > 0 ==> prev_len == e[k - 1].1 && code as nat == code_of(e, k - 1),
            forall|j: int| 0 <= j < k ==> encode@[(#[trigger] e[j]).0 as int] == (code_of(e, j) as u32, e[j].1),
            forall|i: int|
                0 <= i < n && (forall|j: int| 0 <= j < k ==> #[trigger] e[j].0 != i) ==> encode@[i]
                    == (0u32, 0u8),
        decreases e.len() - k,
    {
        let (sym, len) = lengths[k];
        proof {
            lemma_canonical_at(e, k as int, k as int);
            if k > 0 {
                lemma_canonical_at(e, k - 1, k as int);
                lemma_next_code(e, k as int);
                let d = (len - prev_len) as nat;
                assert(d == (e[k as int].1 - e[k - 1].1) as nat);
                vstd::arithmetic::power2::lemma_pow2_pos(d);
                assert(((len - prev_len) as u32) as nat == d);
                vstd::bits::lemma_u32_shl_is_mul((code + 1) as u32, (len - prev_len) as u32);
                assert(((code + 1) as u32) << ((len - prev_len) as u32) == code_of(e, k as int));
            } else {
                reveal(code_of);
                lemma_weight(len);
                assert(kraft_prefix(e, 0) == 0);
                assert(code_of(e, 0) == 0nat / weight(len));
                assert(0nat / weight(len) == 0) by (nonlinear_arith)
                    requires
                        weight(len) >= 1,
                ;
            }
        }
        if prev_len > 0 {
            let shift = (len - prev_len) as u32;
            code = (code + 1) << shift;
        }
        assert(code as nat == code_of(e, k as int));
        encode.set(sym as usize, (code, len));
        prev_len = len;
        k += 1;
        proof {
            assert forall|j: int| 0 <= j < k implies encode@[(#[trigger] e[j]).0 as int] == (
                code_of(e, j) as u32,
                e[j].1,
            ) by {
                if j < k - 1 {
                    lemma_canonical_at(e, j, k - 1);
                }
            }
        }
    }
    encode
}


/// The decode table of the entries: every window of an entry's interval maps to it.
fn build_decode_table(lengths: &Vec<(u16, u8)>, encode: &Vec<(u32, u8)>) -> (decode_table: Vec<(u16, u8)>)
    requires
        is_canonical(lengths@),
        kraft_sum(lengths@) <= table_size(),
        forall|j: int| 0 <= j < lengths@.len() ==> ((#[trigger] lengths@[j]).0 as nat) < encode@.len(),
        forall|j: int|
            0 <= j < lengths@.len() ==> encode@[(#[trigger] lengths@[j]).0 as int] == (
                code_of(lengths@, j) as u32,
                lengths@[j].1,
            ),
    ensures
        decode_table@ == derived_table(lengths@),
{
    let ghost e = lengths@;
    // One slot per 15-bit window (2^MAX_CODE_LEN of them)
    let mut decode_table: Vec<(u16, u8)> = Vec::new();
    let mut i: usize = 0;
    while i < 32768
        invariant
            i <= 32768,
            decode_table@.len() == i,
            forall|j: int| 0 <= j < i ==> decode_table@[j] == no_entry(),
        decreases 32768 - i,
    {
        decode_table.push((u16::MAX, 0));
        i += 1;
    }
    let mut k: usize = 0;
    while k < lengths.len()
        invariant
            e == lengths@,
            is_canonical(e),
            kraft_sum(e) <= table_size(),
            forall|j: int| 0 <= j < e.len() ==> ((#[trigger] e[j]).0 as nat) < encode@.len(),
            forall|j: int| 0 <= j < e.len() ==> encode@[(#[trigger] e[j]).0 as int] == (code_of(e, j) as u32, e[j].1),
            k <= e.len(),
            decode_table@.len() == 32768,
            forall|j: int|
                0 <= j < 32768 ==> #[trigger] decode_table@[j] == if j < kraft_prefix(e, k as nat) {
                    lookup(e, j as nat, 0)
                } else {
                    no_entry()
                },
        decreases e.len() - k,
    {
        let (sym, len) = lengths[k];
        proof {
            lemma_canonical_at(e, k as int, k as int);
        }
        let (c, _) = encode[sym as usize];
        let pad = MAX_CODE_LEN - len as usize;
        let ghost s_k = kraft_prefix(e, k as nat);
        proof {
            reveal(code_of);
            lemma_weight(len);
            lemma_kraft_prefix_mono(e, (k + 1) as nat, e.len());
            lemma_prefix_aligned(e, k as int, k as nat);
            vstd::arithmetic::div_mod::lemma_fundamental_div_mod(s_k as int, weight(len) as int);
            assert(s_k == weight(len) * (c as nat));
            assert(s_k + weight(len) <= 32768);
            vstd::bits::lemma_usize_pow2_no_overflow(pad as nat);
            vstd::bits::lemma_usize_shl_is_mul(1usize, pad);
            assert((c as nat) * weight(len) == s_k) by (nonlinear_arith)
                requires
                    s_k == weight(len) * (c as nat),
            ;
            vstd::bits::lemma_usize_shl_is_mul(c as usize, pad);
        }
        let base = (c as usize) << pad;
        let mut i: usize = 0;
        while i < (1usize << pad)
            invariant
                e == lengths@,
                0 <= k < e.len(),
                (sym, len) == e[k as int],
                base == s_k,
                s_k == kraft_prefix(e, k as nat),
                (1usize << pad) == weight(len),
                s_k + weight(len) <= 32768,
                base % (1usize << pad) == 0,
                i <= (1usize << pad),
                pad <= 14,
                decode_table@.len() == 32768,
                forall|j: int|
                    0 <= j < 32768 ==> #[trigger] decode_table@[j] == if j < s_k {
                        lookup(e, j as nat, 0)
                    } else if j < s_k + i {
                        e[k as int]
                    } else {
                        no_entry()
                    },
            decreases (1usize << pad) - i,
        {
            proof {
                assert(base | i == base + i) by (bit_vector)
                    requires
                        base % (1usize << pad) == 0,
                        i < (1usize << pad),
                        pad <= 14,
                ;
            }
            decode_table.set(base | i, (sym, len));
            i += 1;
        }
        proof {
            assert forall|j: int| 0 <= j < 32768 implies #[trigger] decode_table@[j] == if j
                < kraft_prefix(e, (k + 1) as nat) {
                lookup(e, j as nat, 0)
            } else {
                no_entry()
            } by {
                if s_k <= j < s_k + weight(len) {
                    lemma_lookup_in(e, k as int, j as nat, 0);
                }
            }
        }
        k += 1;
    }
    proof {
        assert forall|j: int| 0 <= j < 32768 implies #[trigger] decode_table@[j] == derived_table(e)[j] by {
            if j >= kraft_sum(e) {
                lemma_lookup_past(e, j as nat, 0);
            }
        }
        assert(decode_table@ == derived_table(e));
    }
    decode_table
}


// ───────────────────────────── building from frequencies ─────────────────────────────

/// The symbols with a non-zero frequency, in symbol order, as `(frequency, symbol)`.
pub open spec fn nonzero_symbols(freqs: Seq<u64>) -> Seq<(u64, u16)>
    decreases freqs.len(),
{
    if freqs.len() == 0 {
        Seq::empty()
    } else {
        let p = nonzero_symbols(freqs.drop_last());
        if freqs.last() > 0 {
            p.push((freqs.last(), (freqs.len() - 1) as u16))
        } else {
            p
        }
    }
}

/// The symbols that `build` codes: the non-zero ones, and the end-of-block
/// symbol with frequency 1 when it has no frequency of its own.
pub open spec fn build_symbols(freqs: Seq<u64>) -> Seq<(u64, u16)> {
    if freqs.len() <= EOB || freqs[EOB as int] == 0 {
        nonzero_symbols(freqs).push((1, EOB))
    } else {
        nonzero_symbols(freqs)
    }
}

/// The alphabet that `build` codes over: the frequency table, and at least up to
/// the end-of-block symbol.
pub open spec fn build_alphabet(n: nat) -> nat {
    if n > EOB + 1 {
        n
    } else {
        (EOB + 1) as nat
    }
}

/// The length map that `build` turns into a table: a single coded symbol gets
/// length 1, several get their package-merge lengths.
pub open spec fn build_lengths(freqs: Seq<u64>) -> Seq<u8> {
    let syms = build_symbols(freqs);
    if syms.len() == 1 {
        let s = syms[0].1 as int;
        let size = if freqs.len() > s + 1 {
            freqs.len() as int
        } else {
            s + 1
        };
        Seq::new(size as nat, |i: int| if i == s { 1u8 } else { 0u8 })
    } else {
        pm_lengths(sort_by_freq(syms), build_alphabet(freqs.len()), 15)
    }
}

pub(crate) proof fn lemma_nonzero(f: Seq<u64>)
    requires
        f.len() <= 65536,
    ensures
        ({
            let ns = nonzero_symbols(f);
            &&& ns.len() <= f.len()
            &&& forall|k: int|
                0 <= k < ns.len() ==> (#[trigger] ns[k]).1 < f.len() && f[ns[k].1 as int] == ns[k].0
                    && ns[k].0 > 0
            &&& forall|j: int, k: int| 0 <= j < k < ns.len() ==> (#[trigger] ns[j]).1 < (#[trigger] ns[k]).1
            &&& forall|i: int|
                0 <= i < f.len() && f[i] > 0 ==> exists|k: int| 0 <= k < ns.len() && (#[trigger] ns[k]).1 == i
            &&& forall|i: int| 0 <= i < f.len() && f[i] == 0 ==> ns.len() < f.len()
        }),
    decreases f.len(),
{
    if f.len() > 0 {
        let p = f.drop_last();
        lemma_nonzero(p);
        let ns = nonzero_symbols(f);
        let np = nonzero_symbols(p);
        assert forall|k: int| 0 <= k < np.len() implies (#[trigger] np[k]).1 < p.len() && f[np[k].1 as int]
            == np[k].0 by {
            assert(f[np[k].1 as int] == p[np[k].1 as int]);
        }
        assert forall|i: int| 0 <= i < f.len() && f[i] > 0 implies exists|k: int|
            0 <= k < ns.len() && (#[trigger] ns[k]).1 == i by {
            if i < p.len() {
                assert(p[i] == f[i]);
                let k = choose|k: int| 0 <= k < np.len() && (#[trigger] np[k]).1 == i;
                assert(ns[k] == np[k]);
            } else {
                assert(ns[np.len() as int].1 == i);
            }
        }
        assert forall|i: int| 0 <= i < f.len() && f[i] == 0 implies ns.len() < f.len() by {
            if i < p.len() {
                assert(p[i] == f[i]);
            }
        }
    }
}

/// The coded symbols of `build`: distinct, inside the alphabet, with the
/// end-of-block symbol and exactly the symbols of non-zero frequency.
pub proof fn lemma_build_symbols(freqs: Seq<u64>)
    requires
        freqs.len() <= 65536,
        build_symbols(freqs).len() <= 32768,
        nonzero_symbols(freqs).len() > 0,
    ensures
        ({
            let bs = build_symbols(freqs);
            &&& 1 <= bs.len() <= 32768
            &&& syms_of(bs).no_duplicates()
            &&& forall|i: int|
                0 <= i < bs.len() ==> (#[trigger] bs[i]).1 < build_alphabet(freqs.len())
            &&& forall|x: int|
                0 <= x < build_alphabet(freqs.len()) ==> (#[trigger] syms_of(bs).contains(x as u16)
                    <==> (x == EOB || (x < freqs.len() && freqs[x] > 0)))
            &&& bs.len() == 1 ==> bs[0].1 == EOB
        }),
{
    lemma_nonzero(freqs);
    let ns = nonzero_symbols(freqs);
    let bs = build_symbols(freqs);
    let n = freqs.len();
    let add_eob = n <= EOB || freqs[EOB as int] == 0;
    if add_eob {
        assert forall|k: int| 0 <= k < ns.len() implies (#[trigger] ns[k]).1 != EOB by {}
    }
    assert forall|i: int| 0 <= i < bs.len() implies (#[trigger] bs[i]).1 < build_alphabet(n) by {
        if i < ns.len() {
            assert(bs[i] == ns[i]);
        }
    }
    assert forall|i: int, j: int| 0 <= i < bs.len() && 0 <= j < bs.len() && i != j implies syms_of(bs)[i]
        != syms_of(bs)[j] by {
        if i < ns.len() && j < ns.len() {
            assert(bs[i] == ns[i] && bs[j] == ns[j]);
            if i < j {
                assert(ns[i].1 < ns[j].1);
            } else {
                assert(ns[j].1 < ns[i].1);
            }
        } else if i < ns.len() {
            assert(bs[i] == ns[i]);
        } else if j < ns.len() {
            assert(bs[j] == ns[j]);
        }
    }
    assert forall|x: int| 0 <= x < build_alphabet(n) implies (#[trigger] syms_of(bs).contains(x as u16)
        <==> (x == EOB || (x < n && freqs[x] > 0))) by {
        if syms_of(bs).contains(x as u16) {
            let k = choose|k: int| 0 <= k < syms_of(bs).len() && syms_of(bs)[k] == x as u16;
            if k < ns.len() {
                assert(bs[k] == ns[k]);
            }
        }
        if x == EOB {
            if add_eob {
                assert(syms_of(bs)[ns.len() as int] == EOB);
            } else {
                let k = choose|k: int| 0 <= k < ns.len() && (#[trigger] ns[k]).1 == EOB;
                assert(syms_of(bs)[k] == EOB);
            }
        } else if x < n && freqs[x] > 0 {
            let k = choose|k: int| 0 <= k < ns.len() && (#[trigger] ns[k]).1 == x;
            assert(bs[k] == ns[k]);
            assert(syms_of(bs)[k] == x as u16);
        }
    }
    if bs.len() == 1 && !add_eob {
        let k = choose|k: int| 0 <= k < ns.len() && (#[trigger] ns[k]).1 == EOB;
    }
}

/// The length map of `build` is valid for `from_lengths`, spans the alphabet,
/// and gives a code exactly to the end-of-block symbol and the symbols of
/// non-zero frequency.
pub proof fn lemma_build_lengths(freqs: Seq<u64>)
    requires
        freqs.len() <= 65536,
        build_symbols(freqs).len() <= 32768,
        nonzero_symbols(freqs).len() > 0,
    ensures
        valid_lengths(build_lengths(freqs)),
        build_lengths(freqs).len() == build_alphabet(freqs.len()),
        forall|x: int|
            0 <= x < build_alphabet(freqs.len()) ==> (#[trigger] build_lengths(freqs)[x] >= 1 <==> (x
                == EOB || (x < freqs.len() && freqs[x] > 0))),
{
    lemma_build_symbols(freqs);
    let bs = build_symbols(freqs);
    let m = build_lengths(freqs);
    let a = build_alphabet(freqs.len());
    if bs.len() == 1 {
        assert(syms_of(bs)[0] == EOB);
        assert forall|x: int| 0 <= x < a implies (#[trigger] m[x] >= 1 <==> (x == EOB || (x
            < freqs.len() && freqs[x] > 0))) by {
            if x == EOB {
                assert(syms_of(bs).contains(EOB));
            } else if x < freqs.len() && freqs[x] > 0 {
                assert(syms_of(bs).contains(x as u16));
                let k = choose|k: int| 0 <= k < syms_of(bs).len() && syms_of(bs)[k] == x as u16;
                assert(k == 0);
            }
        }
        assert forall|i: int| 0 <= i < m.len() implies #[trigger] m[i] <= 15 by {}
        lemma_kraft_by_symbol(m);
        let f = |x: nat|
            if 1 <= m[x as int] {
                weight(m[x as int]) as int
            } else {
                0int
            };
        let d = |x: nat|
            if x == EOB as nat {
                1int
            } else {
                0int
            };
        lemma_pow2_small();
        vstd::arithmetic::power2::lemma2_to64();
        assert(weight(1) == 16384);
        assert forall|x: nat| x < m.len() implies #[trigger] f(x) == 16384 * d(x) by {}
        lemma_sum_scale(d, f, 16384, m.len());
        lemma_sum_point(EOB as nat, m.len());
    } else {
        let sorted = sort_by_freq(bs);
        lemma_sort_syms(bs);
        assert forall|i: int| 0 <= i < sorted.len() implies (#[trigger] sorted[i].1 as nat) < a by {
            let k = choose|k: int| 0 <= k < bs.len() && sorted[i] == #[trigger] bs[k];
        }
        lemma_pm_valid(sorted, a);
        assert forall|x: int| 0 <= x < a implies (#[trigger] syms_of(sorted).contains(x as u16) <==> syms_of(
            bs,
        ).contains(x as u16)) by {
            if syms_of(sorted).contains(x as u16) {
                let i = choose|i: int| 0 <= i < syms_of(sorted).len() && syms_of(sorted)[i] == x as u16;
                let k = choose|k: int| 0 <= k < bs.len() && sorted[i] == #[trigger] bs[k];
                assert(syms_of(bs)[k] == x as u16);
            }
            if syms_of(bs).contains(x as u16) {
                let i = choose|i: int| 0 <= i < syms_of(bs).len() && syms_of(bs)[i] == x as u16;
                let k = choose|k: int| 0 <= k < bs.len() && #[trigger] sorted[k] == bs[i];
                assert(syms_of(sorted)[k] == x as u16);
            }
        }
        assert forall|x: int| 0 <= x < a implies (#[trigger] m[x] >= 1 <==> (x == EOB || (x
            < freqs.len() && freqs[x] > 0))) by {
            assert(syms_of(bs).contains(x as u16) <==> (x == EOB || (x < freqs.len() && freqs[x] > 0)));
        }
    }
}

/// A more frequent symbol never gets a longer code: when symbol `a` occurs
/// strictly more often than symbol `b` (which occurs at all), the code length
/// `build` gives `a` is at most the one it gives `b`.
pub proof fn lemma_build_monotone(freqs: Seq<u64>, a: int, b: int)
    requires
        freqs.len() <= 65536,
        build_symbols(freqs).len() <= 32768,
        0 <= a < freqs.len(),
        0 <= b < freqs.len(),
        freqs[a] > freqs[b],
        freqs[b] > 0,
    ensures
        build_lengths(freqs)[a] <= build_lengths(freqs)[b],
{
    lemma_nonzero(freqs);
    lemma_build_symbols(freqs);
    let ns = nonzero_symbols(freqs);
    let bs = build_symbols(freqs);
    let ka = choose|k: int| 0 <= k < ns.len() && (#[trigger] ns[k]).1 == a;
    let kb = choose|k: int| 0 <= k < ns.len() && (#[trigger] ns[k]).1 == b;
    assert(bs[ka] == ns[ka] && bs[kb] == ns[kb]);
    assert(ka != kb);
    assert(bs.len() >= 2);
    let sorted = sort_by_freq(bs);
    lemma_sort_syms(bs);
    lemma_sort_by_freq_sorted(bs);
    let ia = choose|k: int| 0 <= k < bs.len() && #[trigger] sorted[k] == bs[ka];
    let ib = choose|k: int| 0 <= k < bs.len() && #[trigger] sorted[k] == bs[kb];
    assert(sorted[ia] == (freqs[a], a as u16));
    assert(sorted[ib] == (freqs[b], b as u16));
    assert(ia != ib);
    if ia < ib {
        assert(sorted[ia].0 <= sorted[ib].0);
    }
    assert(ib < ia);
    let al = build_alphabet(freqs.len());
    assert(sorted[ia].1 < al) by {
        let k = choose|k: int| 0 <= k < bs.len() && sorted[ia] == #[trigger] bs[k];
    }
    assert(sorted[ib].1 < al) by {
        let k = choose|k: int| 0 <= k < bs.len() && sorted[ib] == #[trigger] bs[k];
    }
    lemma_pm_lengths_monotone(sorted, al, 15, ib, ia);
    assert((a as u16) as int == a);
    assert((b as u16) as int == b);
}

/// The weights that package-merge forms for `build` fit a `u64`: it adds the
/// weights of neighbouring items, level by level.
pub open spec fn build_fits(freqs: Seq<u64>) -> bool {
    build_symbols(freqs).len() >= 2 ==> pm_fits(leaf_items(sort_by_freq(build_symbols(freqs))), 15)
}

/// Frequencies of at most 2^48 keep the weights of `build` inside a `u64`.
pub proof fn lemma_build_fits(freqs: Seq<u64>)
    requires
        forall|i: int| 0 <= i < freqs.len() ==> #[trigger] freqs[i] <= 0x1_0000_0000_0000,
    ensures
        build_fits(freqs),
{
    let bs = build_symbols(freqs);
    if bs.len() >= 2 {
        lemma_nonzero_within(freqs, 0x1_0000_0000_0000);
        let ns = nonzero_symbols(freqs);
        assert forall|i: int| 0 <= i < bs.len() implies #[trigger] bs[i].0 <= 0x1_0000_0000_0000 by {
            if i < ns.len() {
                assert(bs[i] == ns[i]);
            }
        }
        let sorted = sort_by_freq(bs);
        lemma_sort_within(bs, 0x1_0000_0000_0000);
        let lv = leaf_items(sorted);
        assert forall|i: int| 0 <= i < lv.len() implies 0 <= #[trigger] lv[i].0 <= 0x1_0000_0000_0000 by {
            assert(lv[i].0 == sorted[i].0 as int);
        }
        lemma_pm_fits_bounded(lv);
    }
}

proof fn lemma_nonzero_within(freqs: Seq<u64>, b: u64)
    requires
        forall|i: int| 0 <= i < freqs.len() ==> #[trigger] freqs[i] <= b,
    ensures
        forall|k: int| 0 <= k < nonzero_symbols(freqs).len() ==> #[trigger] nonzero_symbols(freqs)[k].0 <= b,
    decreases freqs.len(),
{
    if freqs.len() > 0 {
        let p = freqs.drop_last();
        assert forall|i: int| 0 <= i < p.len() implies #[trigger] p[i] <= b by {
            assert(p[i] == freqs[i]);
        }
        lemma_nonzero_within(p, b);
        let ns = nonzero_symbols(freqs);
        let np = nonzero_symbols(p);
        assert forall|k: int| 0 <= k < ns.len() implies #[trigger] ns[k].0 <= b by {
            if k < np.len() {
                assert(ns[k] == np[k]);
            }
        }
    }
}

/// The `(frequency, symbol)` pairs of the non-zero frequencies, in symbol order.
fn collect_nonzero(freqs: &[u64]) -> (out: Vec<(u64, u16)>)
    requires
        freqs@.len() <= 65536,
    ensures
        out@ == nonzero_symbols(freqs@),
{
    let mut out: Vec<(u64, u16)> = Vec::new();
    let mut i: usize = 0;
    while i < freqs.len()
        invariant
            i <= freqs@.len(),
            freqs@.len() <= 65536,
            out@ == nonzero_symbols(freqs@.take(i as int)),
        decreases freqs@.len() - i,
    {
        proof {
            assert(freqs@.take(i + 1).drop_last() == freqs@.take(i as int));
        }
        if freqs[i] > 0 {
            out.push((freqs[i], i as u16));
        }
        i += 1;
    }
    assert(freqs@.take(freqs@.len() as int) == freqs@);
    out
}

impl HuffmanTable {
    /// Build a Huffman table from a frequency table.
    /// `freqs[symbol]` = count; symbols with freq=0 are excluded.
    pub fn build(freqs: &[u64]) -> (t: Self)
        requires
            freqs@.len() <= 65536,
            build_symbols(freqs@).len() <= 32768,
            build_fits(freqs@),
        ensures
            nonzero_symbols(freqs@).len() == 0 ==> {
                &&& t.wf()
                &&& t.entries().len() == 0
                &&& t.symbols() == freqs@.len()
                &&& forall|s: int| 0 <= s < freqs@.len() ==> #[trigger] t.encode_view()[s] == (0u32, 0u8)
            },
            t.encode_view() == canon_encode(t.entries(), t.symbols()),
            nonzero_symbols(freqs@).len() > 0 ==> {
                &&& t.decodable()
                &&& valid_lengths(build_lengths(freqs@))
                &&& t.entries() == canon_entries(build_lengths(freqs@))
                &&& t.symbols() == build_alphabet(freqs@.len())
                &&& forall|x: int|
                    0 <= x < t.symbols() ==> (#[trigger] build_lengths(freqs@)[x] >= 1 <==> (x == EOB || (x
                        < freqs@.len() && freqs@[x] > 0)))
            },
    {
        let n = freqs.len();
        let mut symbols = collect_nonzero(freqs);
        if symbols.len() == 0 {
            let t = Self::empty(n);
            proof {
                t.lemma_encode_view();
            }
            return t;
        }
        proof {
            lemma_build_lengths(freqs@);
            lemma_build_symbols(freqs@);
        }
        if EOB as usize >= n || freqs[EOB as usize] == 0 {
            symbols.push((1, EOB));
        }
        assert(symbols@ == build_symbols(freqs@));
        let alphabet = if n > EOB as usize + 1 { n } else { EOB as usize + 1 };
        let lengths_map: Vec<u8> = if symbols.len() == 1 {
            let sym = symbols[0].1 as usize;
            let size = if n > sym + 1 { n } else { sym + 1 };
            let mut m: Vec<u8> = Vec::new();
            let mut i: usize = 0;
            while i < size
                invariant
                    i <= size,
                    m@ == Seq::new(i as nat, |j: int| 0u8),
                decreases size - i,
            {
                m.push(0);
                i += 1;
                assert(m@ =~= Seq::new(i as nat, |j: int| 0u8));
            }
            m.set(sym, 1);
            assert(m@ =~= build_lengths(freqs@));
            m
        } else {
            package_merge(&symbols, alphabet, MAX_CODE_LEN)
        };
        Self::from_lengths(&lengths_map)
    }
}


// ───────────────────────────── serialisation ─────────────────────────────

/// Serialise `table` as: u16 LE count, then (u16 LE symbol, u8 len) × count.
pub fn serialise_table(table: &HuffmanTable) -> (out: Vec<u8>)
    requires
        table.wf(),
    ensures
        out@ == table_bytes(table.entries()),
{
    proof {
        table.lemma_wf_entries();
        lemma_count_fits(table.entries(), table.entries().len());
        lemma_auto_spec_u16_to_from_le_bytes();
    }
    let lengths = &table.lengths;
    let count = lengths.len() as u16;
    let mut out = u16_to_le_bytes(count);
    assert(lengths@.take(0) == Seq::<(u16, u8)>::empty());
    assert(out@ == spec_u16_to_le_bytes(count) + records_bytes(lengths@.take(0)));
    let mut k: usize = 0;
    while k < lengths.len()
        invariant
            k <= lengths@.len(),
            lengths@ == table.entries(),
            count as nat == lengths@.len(),
            out@ == spec_u16_to_le_bytes(count) + records_bytes(lengths@.take(k as int)),
        decreases lengths@.len() - k,
    {
        let (sym, len) = lengths[k];
        let ghost before = out@;
        let rec = u16_to_le_bytes(sym);
        out.push(rec[0]);
        out.push(rec[1]);
        out.push(len);
        proof {
            assert(rec@ == seq![rec@[0], rec@[1]]);
            let p = lengths@.take(k + 1);
            assert(p.drop_last() == lengths@.take(k as int));
            assert(p.last() == (sym, len));
            assert(out@ == before + record_bytes((sym, len)));
        }
        k += 1;
    }
    assert(lengths@.take(lengths@.len() as int) == lengths@);
    out
}

} // verus!
