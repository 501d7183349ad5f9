//! Canonical Huffman codes: the mathematical model.
//!
//! A code is given by a length map `m` (`m[s]` is the code length of symbol
//! `s`, 0 when absent). Its entries are the pairs `(s, m[s])` with `m[s] > 0`,
//! ordered by length and then by symbol. Entry `k` owns the interval
//! `[S_k, S_{k+1})` of 15-bit windows, where `S_k` is the sum of
//! `2^(15 - len)` over the entries before it, and its code is `S_k >> (15 - len)`.
use vstd::prelude::*;
use vstd::arithmetic::power2::{pow2, lemma_pow2_pos, lemma_pow2_adds, lemma_pow2_strictly_increases};
use vstd::arithmetic::div_mod::{lemma_mod_multiples_basic, lemma_fundamental_div_mod};
use crate::bitseq::lemma_pow2_small;
use crate::pm::{sum_upto, lemma_sum_add, lemma_sum_scale, lemma_sum_ext};

verus! {

/// Longest code length.
pub open spec fn max_code_len() -> nat {
    15
}

/// Number of entries of the decode table (one per 15-bit window).
pub open spec fn table_size() -> nat {
    32768
}

/// Marker of a decode-table slot that no code reaches.
pub open spec fn no_entry() -> (u16, u8) {
    (0xFFFFu16, 0u8)
}

/// The entries `(s, len)` of `m` with `m[s] == len` and `s < upto`, by symbol.
pub open spec fn level_entries(m: Seq<u8>, len: u8, upto: nat) -> Seq<(u16, u8)>
    decreases upto,
{
    if upto == 0 {
        Seq::empty()
    } else {
        let p = level_entries(m, len, (upto - 1) as nat);
        if m[upto - 1] == len {
            p.push(((upto - 1) as u16, len))
        } else {
            p
        }
    }
}

/// The entries of `m` with lengths `1..=l`, ordered by length and then by symbol.
pub open spec fn entries_upto(m: Seq<u8>, l: nat) -> Seq<(u16, u8)>
    decreases l,
{
    if l == 0 {
        Seq::empty()
    } else {
        entries_upto(m, (l - 1) as nat) + level_entries(m, l as u8, m.len())
    }
}

/// The canonical entries of a length map.
pub open spec fn canon_entries(m: Seq<u8>) -> Seq<(u16, u8)> {
    entries_upto(m, max_code_len())
}

/// The share of the 15-bit window space taken by a code of length `len`.
pub open spec fn weight(len: u8) -> nat {
    pow2((15 - len) as nat)
}

/// Start of the window interval of entry `k`.
pub open spec fn kraft_prefix(e: Seq<(u16, u8)>, k: nat) -> nat
    decreases k,
{
    if k == 0 {
        0
    } else {
        kraft_prefix(e, (k - 1) as nat) + weight(e[k - 1].1)
    }
}

/// The Kraft sum of the entries, in units of `2^-15`.
pub open spec fn kraft_sum(e: Seq<(u16, u8)>) -> nat {
    kraft_prefix(e, e.len())
}

/// The code assigned to entry `k`.
#[verifier::opaque]
pub open spec fn code_of(e: Seq<(u16, u8)>, k: int) -> nat {
    kraft_prefix(e, k as nat) / weight(e[k].1)
}

/// Entries ordered by (length, symbol), with lengths in `1..=15` and distinct symbols.
#[verifier::opaque]
pub open spec fn is_canonical(e: Seq<(u16, u8)>) -> bool {
    &&& forall|k: int| 0 <= k < e.len() ==> 1 <= #[trigger] e[k].1 <= 15
    &&& forall|j: int, k: int|
        0 <= j < k < e.len() ==> (#[trigger] e[j].1 < #[trigger] e[k].1 || (e[j].1 == e[k].1
            && e[j].0 < e[k].0))
    &&& forall|j: int, k: int| 0 <= j < k < e.len() ==> #[trigger] e[j].0 != #[trigger] e[k].0
}

/// A length map whose lengths are at most 15 and satisfy the Kraft inequality.
pub open spec fn valid_lengths(m: Seq<u8>) -> bool {
    &&& m.len() <= 65536
    &&& forall|i: int| 0 <= i < m.len() ==> #[trigger] m[i] <= 15
    &&& kraft_sum(canon_entries(m)) <= table_size()
}

/// The decode-table slot for window `j`, searching from entry `k`.
pub open spec fn lookup(e: Seq<(u16, u8)>, j: nat, k: nat) -> (u16, u8)
    decreases e.len() - k,
{
    if k >= e.len() {
        no_entry()
    } else if j < kraft_prefix(e, k + 1) {
        e[k as int]
    } else {
        lookup(e, j, k + 1)
    }
}

/// The decode table of a list of entries.
pub open spec fn derived_table(e: Seq<(u16, u8)>) -> Seq<(u16, u8)> {
    Seq::new(table_size(), |j: int| lookup(e, j as nat, 0))
}

/// Whether some entry has symbol `s`.
pub open spec fn has_symbol(e: Seq<(u16, u8)>, s: int) -> bool {
    exists|k: int| 0 <= k < e.len() && #[trigger] e[k].0 == s
}

/// An entry with symbol `s`, when there is one.
pub open spec fn entry_of(e: Seq<(u16, u8)>, s: int) -> int {
    choose|k: int| 0 <= k < e.len() && #[trigger] e[k].0 == s
}

/// The encode table of the entries over `n` symbols: each coded symbol's
/// `(code, length)`, and `(0, 0)` for every other symbol.
pub open spec fn canon_encode(e: Seq<(u16, u8)>, n: nat) -> Seq<(u32, u8)> {
    Seq::new(
        n,
        |s: int|
            if has_symbol(e, s) {
                (code_of(e, entry_of(e, s)) as u32, e[entry_of(e, s)].1)
            } else {
                (0u32, 0u8)
            },
    )
}

// ───────────────────────────── lemmas ─────────────────────────────

/// Each entry's symbol maps to the entry's code and length.
pub proof fn lemma_canon_encode(e: Seq<(u16, u8)>, n: nat)
    requires
        is_canonical(e),
        forall|k: int| 0 <= k < e.len() ==> ((#[trigger] e[k]).0 as nat) < n,
    ensures
        forall|k: int|
            0 <= k < e.len() ==> canon_encode(e, n)[(#[trigger] e[k]).0 as int] == (
                code_of(e, k) as u32,
                e[k].1,
            ),
{
    assert forall|k: int| 0 <= k < e.len() implies canon_encode(e, n)[(#[trigger] e[k]).0 as int] == (
        code_of(e, k) as u32,
        e[k].1,
    ) by {
        let s = e[k].0 as int;
        assert(has_symbol(e, s));
        let j = entry_of(e, s);
        if j != k {
            lemma_canonical_at(e, j, k);
        }
    }
}

#[verifier::spinoff_prover]
proof fn lemma_level_entries(m: Seq<u8>, len: u8, upto: nat)
    requires
        upto <= m.len() <= 65536,
    ensures
        ({
            let e = level_entries(m, len, upto);
            &&& forall|k: int|
                0 <= k < e.len() ==> #[trigger] e[k].1 == len && e[k].0 < upto && m[e[k].0 as int]
                    == len
            &&& forall|j: int, k: int| 0 <= j < k < e.len() ==> #[trigger] e[j].0 < #[trigger] e[k].0
            &&& forall|i: int|
                0 <= i < upto && m[i] == len ==> exists|k: int|
                    0 <= k < e.len() && #[trigger] e[k].0 == i
        }),
    decreases upto,
{
    if upto > 0 {
        lemma_level_entries(m, len, (upto - 1) as nat);
        let p = level_entries(m, len, (upto - 1) as nat);
        let e = level_entries(m, len, upto);
        if m[upto - 1] == len {
            assert(e == p.push(((upto - 1) as u16, len)));
            assert forall|k: int| 0 <= k < e.len() implies #[trigger] e[k].1 == len && e[k].0 < upto
                && m[e[k].0 as int] == len by {
                if k < p.len() {
                    assert(e[k] == p[k]);
                    assert(p[k].1 == len);
                } else {
                    assert(e[k] == ((upto - 1) as u16, len));
                }
            }
            assert forall|j: int, k: int| 0 <= j < k < e.len() implies #[trigger] e[j].0
                < #[trigger] e[k].0 by {
                assert(e[j] == p[j]);
                assert(p[j].1 == len);
                if k < p.len() {
                    assert(e[k] == p[k]);
                }
            }
            assert forall|i: int| 0 <= i < upto && m[i] == len implies exists|k: int|
                0 <= k < e.len() && #[trigger] e[k].0 == i by {
                if i == upto - 1 {
                    assert(e[p.len() as int].0 == i);
                } else {
                    let k = choose|k: int| 0 <= k < p.len() && #[trigger] p[k].0 == i;
                    assert(e[k].0 == i);
                }
            }
        } else {
            assert(e == p);
            assert forall|i: int| 0 <= i < upto && m[i] == len implies exists|k: int|
                0 <= k < e.len() && #[trigger] e[k].0 == i by {
                let k = choose|k: int| 0 <= k < p.len() && #[trigger] p[k].0 == i;
            }
        }
    }
}

/// The canonical entries of a map with lengths at most 15: canonical, consistent
/// with the map, and complete.
pub proof fn lemma_canon_entries(m: Seq<u8>)
    requires
        m.len() <= 65536,
        forall|i: int| 0 <= i < m.len() ==> #[trigger] m[i] <= 15,
    ensures
        is_canonical(canon_entries(m)),
        forall|k: int|
            0 <= k < canon_entries(m).len() ==> (#[trigger] canon_entries(m)[k]).0 < m.len()
                && m[canon_entries(m)[k].0 as int] == canon_entries(m)[k].1,
        forall|i: int|
            0 <= i < m.len() && m[i] > 0 ==> exists|k: int|
                0 <= k < canon_entries(m).len() && #[trigger] canon_entries(m)[k].0 == i,
{
    lemma_entries_upto(m, 15);
    let e = canon_entries(m);
    assert forall|i: int| 0 <= i < m.len() && m[i] > 0 implies exists|k: int|
        0 <= k < e.len() && #[trigger] e[k].0 == i by {
        assert(1 <= m[i] <= 15);
    }
}

proof fn lemma_entries_upto(m: Seq<u8>, l: nat)
    requires
        m.len() <= 65536,
        l <= 15,
    ensures
        ({
            let e = entries_upto(m, l);
            &&& forall|k: int| 0 <= k < e.len() ==> 1 <= #[trigger] e[k].1 <= l
            &&& forall|j: int, k: int|
                0 <= j < k < e.len() ==> (#[trigger] e[j].1 < #[trigger] e[k].1 || (e[j].1
                    == e[k].1 && e[j].0 < e[k].0))
            &&& forall|k: int|
                0 <= k < e.len() ==> (#[trigger] e[k]).0 < m.len() && m[e[k].0 as int] == e[k].1
            &&& forall|i: int|
                0 <= i < m.len() && 1 <= #[trigger] m[i] <= l ==> exists|k: int|
                    0 <= k < e.len() && #[trigger] e[k].0 == i
        }),
        is_canonical(entries_upto(m, l)),
    decreases l,
{
    reveal(is_canonical);
    let e = entries_upto(m, l);
    if l > 0 {
        lemma_entries_upto(m, (l - 1) as nat);
        lemma_level_entries(m, l as u8, m.len());
        let p = entries_upto(m, (l - 1) as nat);
        let q = level_entries(m, l as u8, m.len());
        assert(e == p + q);
        assert forall|k: int| 0 <= k < e.len() implies 1 <= #[trigger] e[k].1 <= l by {
            if k >= p.len() {
                assert(e[k] == q[k - p.len()]);
            }
        }
        assert forall|k: int| 0 <= k < e.len() implies (#[trigger] e[k]).0 < m.len() && m[e[k].0 as int]
            == e[k].1 by {
            if k >= p.len() {
                assert(e[k] == q[k - p.len()]);
                assert(q[k - p.len()].1 == l as u8);
            } else {
                assert(e[k] == p[k]);
            }
        }
        assert forall|j: int, k: int| 0 <= j < k < e.len() implies (#[trigger] e[j].1
            < #[trigger] e[k].1 || (e[j].1 == e[k].1 && e[j].0 < e[k].0)) by {
            if k < p.len() {
            } else if j < p.len() {
                assert(e[k] == q[k - p.len()]);
            } else {
                assert(e[k] == q[k - p.len()]);
                assert(e[j] == q[j - p.len()]);
            }
        }
        assert forall|i: int| 0 <= i < m.len() && 1 <= #[trigger] m[i] <= l implies exists|k: int|
            0 <= k < e.len() && #[trigger] e[k].0 == i by {
            if m[i] < l {
                let k = choose|k: int| 0 <= k < p.len() && #[trigger] p[k].0 == i;
                assert(e[k] == p[k]);
            } else {
                let k = choose|k: int| 0 <= k < q.len() && #[trigger] q[k].0 == i;
                assert(e[k + p.len()] == q[k]);
            }
        }
    }
    assert forall|j: int, k: int| 0 <= j < k < e.len() implies #[trigger] e[j].0 != #[trigger] e[k].0 by {
        if e[j].0 == e[k].0 {
            assert(m[e[j].0 as int] == e[j].1);
            assert(m[e[k].0 as int] == e[k].1);
        }
    }
}

/// The facts of [`is_canonical`] about two entries.
pub proof fn lemma_canonical_at(e: Seq<(u16, u8)>, j: int, k: int)
    requires
        is_canonical(e),
        0 <= j < e.len(),
        0 <= k < e.len(),
    ensures
        1 <= e[k].1 <= 15,
        1 <= e[j].1 <= 15,
        j < k ==> e[j].1 <= e[k].1,
        j != k ==> e[j].0 != e[k].0,
{
    reveal(is_canonical);
}

pub proof fn lemma_kraft_prefix_mono(e: Seq<(u16, u8)>, j: nat, k: nat)
    requires
        j <= k,
    ensures
        kraft_prefix(e, j) <= kraft_prefix(e, k),
    decreases k - j,
{
    if j < k {
        lemma_kraft_prefix_mono(e, j, (k - 1) as nat);
    }
}

pub proof fn lemma_weight(len: u8)
    requires
        len <= 15,
    ensures
        weight(len) >= 1,
        weight(len) <= 32768,
{
    lemma_pow2_pos((15 - len) as nat);
    lemma_pow2_small();
    if len > 0 {
        lemma_pow2_strictly_increases((15 - len) as nat, 15);
    }
}

/// Every interval start before entry `k` is a multiple of entry `k`'s weight.
pub proof fn lemma_prefix_aligned(e: Seq<(u16, u8)>, k: int, i: nat)
    requires
        is_canonical(e),
        0 <= k < e.len(),
        i <= k,
    ensures
        kraft_prefix(e, i) % weight(e[k].1) == 0,
    decreases i,
{
    reveal(is_canonical);
    let w = weight(e[k].1);
    lemma_weight(e[k].1);
    if i == 0 {
        assert(0nat % w == 0) by (nonlinear_arith)
            requires
                w >= 1,
        ;
    } else {
        lemma_prefix_aligned(e, k, (i - 1) as nat);
        let lj = e[i - 1].1;
        assert(lj <= e[k].1);
        let d = (e[k].1 - lj) as nat;
        lemma_pow2_adds((15 - e[k].1) as nat, d);
        assert(weight(lj) == w * pow2(d));
        let a = kraft_prefix(e, (i - 1) as nat);
        let q = a / w;
        lemma_fundamental_div_mod(a as int, w as int);
        assert(a == w * q);
        assert(a + weight(lj) == w * (q + pow2(d))) by (nonlinear_arith)
            requires
                a == w * q,
                weight(lj) == w * pow2(d),
        ;
        lemma_mod_multiples_basic((q + pow2(d)) as int, w as int);
        assert((q + pow2(d)) * w == w * (q + pow2(d))) by (nonlinear_arith);
    }
}

/// Window `j` in the interval of entry `k` is decoded as entry `k`.
pub proof fn lemma_lookup_in(e: Seq<(u16, u8)>, k: int, j: nat, from: nat)
    requires
        from <= k < e.len(),
        kraft_prefix(e, k as nat) <= j < kraft_prefix(e, (k + 1) as nat),
    ensures
        lookup(e, j, from) == e[k],
    decreases k - from,
{
    if from < k {
        lemma_kraft_prefix_mono(e, from + 1, k as nat);
        lemma_lookup_in(e, k, j, from + 1);
    }
}

/// Windows past the last interval have no entry.
pub proof fn lemma_lookup_past(e: Seq<(u16, u8)>, j: nat, from: nat)
    requires
        from <= e.len(),
        j >= kraft_sum(e),
    ensures
        lookup(e, j, from) == no_entry(),
    decreases e.len() - from,
{
    if from < e.len() {
        lemma_kraft_prefix_mono(e, from + 1, e.len());
        lemma_lookup_past(e, j, from + 1);
    }
}

/// Entries never reach the decoded symbol of a window below their own start.
pub proof fn lemma_lookup_found(e: Seq<(u16, u8)>, j: nat, from: nat)
    requires
        j >= kraft_prefix(e, from),
        from <= e.len(),
    ensures
        lookup(e, j, from) == no_entry() || exists|k: int|
            from <= k < e.len() && kraft_prefix(e, k as nat) <= j < kraft_prefix(e, (k + 1) as nat)
                && lookup(e, j, from) == e[k],
    decreases e.len() - from,
{
    if from < e.len() && j >= kraft_prefix(e, from + 1) {
        lemma_lookup_found(e, j, from + 1);
    }
}

// ──────────────────── maps that differ only by trailing zeros ────────────────────

proof fn lemma_level_entries_trailing(m1: Seq<u8>, m2: Seq<u8>, len: u8, upto: nat)
    requires
        1 <= len,
        m2.len() <= m1.len(),
        upto <= m1.len(),
        forall|i: int| 0 <= i < m2.len() ==> m1[i] == m2[i],
        forall|i: int| m2.len() <= i < m1.len() ==> m1[i] == 0,
    ensures
        level_entries(m1, len, upto) == level_entries(
            m2,
            len,
            if upto <= m2.len() {
                upto
            } else {
                m2.len()
            },
        ),
    decreases upto,
{
    if upto > 0 {
        lemma_level_entries_trailing(m1, m2, len, (upto - 1) as nat);
    }
}

proof fn lemma_entries_upto_trailing(m1: Seq<u8>, m2: Seq<u8>, l: nat)
    requires
        m2.len() <= m1.len(),
        forall|i: int| 0 <= i < m2.len() ==> m1[i] == m2[i],
        forall|i: int| m2.len() <= i < m1.len() ==> m1[i] == 0,
        l <= 15,
    ensures
        entries_upto(m1, l) == entries_upto(m2, l),
    decreases l,
{
    if l > 0 {
        lemma_entries_upto_trailing(m1, m2, (l - 1) as nat);
        lemma_level_entries_trailing(m1, m2, l as u8, m1.len());
    }
}

/// Zero lengths past the end of a map do not change its canonical entries.
pub proof fn lemma_canon_trailing(m1: Seq<u8>, m2: Seq<u8>)
    requires
        m2.len() <= m1.len(),
        forall|i: int| 0 <= i < m2.len() ==> m1[i] == m2[i],
        forall|i: int| m2.len() <= i < m1.len() ==> m1[i] == 0,
    ensures
        canon_entries(m1) == canon_entries(m2),
{
    lemma_entries_upto_trailing(m1, m2, 15);
}


// ───────────────────────────── Kraft sum by symbol ─────────────────────────────

proof fn lemma_kraft_prefix_left(a: Seq<(u16, u8)>, b: Seq<(u16, u8)>, j: nat)
    requires
        j <= a.len(),
    ensures
        kraft_prefix(a + b, j) == kraft_prefix(a, j),
    decreases j,
{
    if j > 0 {
        lemma_kraft_prefix_left(a, b, (j - 1) as nat);
        assert((a + b)[j - 1] == a[j - 1]);
    }
}

proof fn lemma_kraft_prefix_concat(a: Seq<(u16, u8)>, b: Seq<(u16, u8)>, k: nat)
    requires
        k <= b.len(),
    ensures
        kraft_prefix(a + b, a.len() + k) == kraft_sum(a) + kraft_prefix(b, k),
    decreases k,
{
    if k == 0 {
        lemma_kraft_prefix_left(a, b, a.len());
    } else {
        lemma_kraft_prefix_concat(a, b, (k - 1) as nat);
        assert((a + b)[a.len() + k - 1] == b[k - 1]);
    }
}

proof fn lemma_kraft_level(m: Seq<u8>, len: u8, upto: nat)
    requires
        upto <= m.len(),
    ensures
        kraft_sum(level_entries(m, len, upto)) == sum_upto(
            |x: nat|
                if m[x as int] == len {
                    weight(len) as int
                } else {
                    0int
                },
            upto,
        ),
    decreases upto,
{
    if upto > 0 {
        lemma_kraft_level(m, len, (upto - 1) as nat);
        let p = level_entries(m, len, (upto - 1) as nat);
        if m[upto - 1] == len {
            let one = seq![((upto - 1) as u16, len)];
            lemma_kraft_prefix_concat(p, one, 1);
            assert(p.push(((upto - 1) as u16, len)) == p + one);
            assert(kraft_prefix(one, 0) == 0);
        }
    }
}

proof fn lemma_kraft_upto(m: Seq<u8>, l: nat)
    requires
        l <= 15,
    ensures
        kraft_sum(entries_upto(m, l)) == sum_upto(
            |x: nat|
                if 1 <= m[x as int] <= l {
                    weight(m[x as int]) as int
                } else {
                    0int
                },
            m.len(),
        ),
    decreases l,
{
    let f = |x: nat|
        if 1 <= m[x as int] <= l {
            weight(m[x as int]) as int
        } else {
            0int
        };
    if l == 0 {
        lemma_sum_scale(f, f, 0, m.len());
        assert(kraft_sum(Seq::<(u16, u8)>::empty()) == 0);
    } else {
        lemma_kraft_upto(m, (l - 1) as nat);
        let a = entries_upto(m, (l - 1) as nat);
        let b = level_entries(m, l as u8, m.len());
        lemma_kraft_prefix_concat(a, b, b.len());
        lemma_kraft_level(m, l as u8, m.len());
        let f0 = |x: nat|
            if 1 <= m[x as int] <= (l - 1) as nat {
                weight(m[x as int]) as int
            } else {
                0int
            };
        let g = |x: nat|
            if m[x as int] == l as u8 {
                weight(l as u8) as int
            } else {
                0int
            };
        assert forall|x: nat| x < m.len() implies #[trigger] f(x) == f0(x) + g(x) by {}
        lemma_sum_add(f0, g, f, m.len());
    }
}

/// The Kraft sum of the canonical entries adds up `2^(15 - m[x])` over the
/// symbols `x` with a code.
pub proof fn lemma_kraft_by_symbol(m: Seq<u8>)
    requires
        forall|i: int| 0 <= i < m.len() ==> #[trigger] m[i] <= 15,
    ensures
        kraft_sum(canon_entries(m)) == sum_upto(
            |x: nat|
                if 1 <= m[x as int] {
                    weight(m[x as int]) as int
                } else {
                    0int
                },
            m.len(),
        ),
{
    lemma_kraft_upto(m, 15);
    let f = |x: nat|
        if 1 <= m[x as int] <= 15 {
            weight(m[x as int]) as int
        } else {
            0int
        };
    let g = |x: nat|
        if 1 <= m[x as int] {
            weight(m[x as int]) as int
        } else {
            0int
        };
    assert forall|x: nat| x < m.len() implies #[trigger] f(x) == g(x) by {
        assert(m[x as int] <= 15);
    }
    lemma_sum_ext(f, g, m.len());
}

} // verus!
