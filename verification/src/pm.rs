//! Package-merge (Larmore & Hirschberg) length-limited Huffman code lengths.
//!
//! The items of each list are `(weight, symbols)`; a package joins two
//! neighbouring items of the previous list. The code length of a symbol is the
//! number of times it occurs among the first `2n - 2` items of the last list.
//! The lemmas below show that these lengths are at least 1, at most the number of
//! lists, and satisfy the Kraft inequality.
use vstd::prelude::*;
use vstd::arithmetic::power2::{pow2, lemma_pow2_unfold, lemma_pow2_pos, lemma_pow2_adds};
use crate::bitseq::lemma_pow2_small;
use crate::canon::{valid_lengths, weight, lemma_kraft_by_symbol};

verus! {

/// A list item: its weight and the symbols it holds.
pub type Item = (int, Seq<u16>);

/// The stable merge of two lists by weight (ties take the left list first).
pub open spec fn merge_items(a: Seq<Item>, b: Seq<Item>) -> Seq<Item>
    decreases a.len() + b.len(),
{
    if a.len() == 0 {
        b
    } else if b.len() == 0 {
        a
    } else if a[0].0 <= b[0].0 {
        seq![a[0]] + merge_items(a.drop_first(), b)
    } else {
        seq![b[0]] + merge_items(a, b.drop_first())
    }
}

/// Packages of neighbouring items: (items[0], items[1]), (items[2], items[3]), …
pub open spec fn pair_items(l: Seq<Item>) -> Seq<Item> {
    Seq::new(l.len() / 2, |i: int| (l[2 * i].0 + l[2 * i + 1].0, l[2 * i].1 + l[2 * i + 1].1))
}

/// The list after `t - 1` rounds of packaging and merging with the leaves.
pub open spec fn pm_list(leaves: Seq<Item>, t: nat) -> Seq<Item>
    decreases t,
{
    if t <= 1 {
        leaves
    } else {
        merge_items(leaves, pair_items(pm_list(leaves, (t - 1) as nat)))
    }
}

/// Occurrences of `x` in a symbol list.
pub open spec fn count_sym(s: Seq<u16>, x: u16) -> nat
    decreases s.len(),
{
    if s.len() == 0 {
        0
    } else {
        count_sym(s.drop_last(), x) + if s.last() == x {
            1nat
        } else {
            0nat
        }
    }
}

/// Occurrences of `x` over the items of a list.
pub open spec fn occ(items: Seq<Item>, x: u16) -> nat
    decreases items.len(),
{
    if items.len() == 0 {
        0
    } else {
        occ(items.drop_last(), x) + count_sym(items.last().1, x)
    }
}

/// The leaves of a sorted symbol list: one item per symbol.
pub open spec fn leaf_items(sorted: Seq<(u64, u16)>) -> Seq<Item> {
    Seq::new(sorted.len(), |i: int| (sorted[i].0 as int, seq![sorted[i].1]))
}

/// How many of the items of the last list are selected.
pub open spec fn pm_take(n: nat, len: nat) -> nat {
    let want = if n >= 1 {
        (2 * n - 2) as nat
    } else {
        0
    };
    if want <= len {
        want
    } else {
        len
    }
}

/// The code lengths that package-merge assigns over an alphabet of `alphabet` symbols.
pub open spec fn pm_lengths(sorted: Seq<(u64, u16)>, alphabet: nat, max_len: nat) -> Seq<u8> {
    let l = pm_list(leaf_items(sorted), max_len);
    let sel = l.take(pm_take(sorted.len(), l.len()) as int);
    Seq::new(alphabet, |x: int| occ(sel, x as u16) as u8)
}

/// Number of items among the first `m` of `merge_items(a, b)` that come from `a`.
pub open spec fn split_q(a: Seq<Item>, b: Seq<Item>, m: nat) -> nat
    decreases a.len() + b.len(),
{
    if m == 0 || a.len() == 0 {
        0
    } else if b.len() == 0 {
        if m <= a.len() {
            m
        } else {
            a.len()
        }
    } else if a[0].0 <= b[0].0 {
        1 + split_q(a.drop_first(), b, (m - 1) as nat)
    } else {
        split_q(a, b.drop_first(), (m - 1) as nat)
    }
}

// ───────────────────────────── counting lemmas ─────────────────────────────

pub proof fn lemma_count_concat(a: Seq<u16>, b: Seq<u16>, x: u16)
    ensures
        count_sym(a + b, x) == count_sym(a, x) + count_sym(b, x),
    decreases b.len(),
{
    if b.len() == 0 {
        assert(a + b == a);
    } else {
        assert((a + b).drop_last() == a + b.drop_last());
        lemma_count_concat(a, b.drop_last(), x);
    }
}

pub proof fn lemma_occ_concat(a: Seq<Item>, b: Seq<Item>, x: u16)
    ensures
        occ(a + b, x) == occ(a, x) + occ(b, x),
    decreases b.len(),
{
    if b.len() == 0 {
        assert(a + b == a);
    } else {
        assert((a + b).drop_last() == a + b.drop_last());
        lemma_occ_concat(a, b.drop_last(), x);
    }
}

proof fn lemma_occ_single(e: Item, x: u16)
    ensures
        occ(seq![e], x) == count_sym(e.1, x),
{
    assert(seq![e].drop_last() == Seq::<Item>::empty());
    assert(seq![e].last() == e);
    assert(occ(Seq::<Item>::empty(), x) == 0);
}

proof fn lemma_count_single(y: u16, x: u16)
    ensures
        count_sym(seq![y], x) == if y == x {
            1nat
        } else {
            0nat
        },
{
    assert(seq![y].drop_last() == Seq::<u16>::empty());
    assert(seq![y].last() == y);
    assert(count_sym(Seq::<u16>::empty(), x) == 0);
}

proof fn lemma_occ_first(e: Item, r: Seq<Item>, m: nat, x: u16)
    requires
        m >= 1,
        m - 1 <= r.len(),
    ensures
        occ((seq![e] + r).take(m as int), x) == count_sym(e.1, x) + occ(r.take((m - 1) as int), x),
{
    assert((seq![e] + r).take(m as int) == seq![e] + r.take((m - 1) as int));
    lemma_occ_concat(seq![e], r.take((m - 1) as int), x);
    lemma_occ_single(e, x);
}

pub proof fn lemma_merge_len(a: Seq<Item>, b: Seq<Item>)
    ensures
        merge_items(a, b).len() == a.len() + b.len(),
    decreases a.len() + b.len(),
{
    if a.len() > 0 && b.len() > 0 {
        if a[0].0 <= b[0].0 {
            lemma_merge_len(a.drop_first(), b);
        } else {
            lemma_merge_len(a, b.drop_first());
        }
    }
}

/// The first `m` items of a merge are the first `q` of the left list and the
/// first `m - q` of the right list.
pub proof fn lemma_merge_prefix(a: Seq<Item>, b: Seq<Item>, m: nat, x: u16)
    requires
        m <= a.len() + b.len(),
    ensures
        split_q(a, b, m) <= a.len(),
        m - split_q(a, b, m) <= b.len(),
        split_q(a, b, m) <= m,
        occ(merge_items(a, b).take(m as int), x) == occ(a.take(split_q(a, b, m) as int), x) + occ(
            b.take((m - split_q(a, b, m)) as int),
            x,
        ),
    decreases a.len() + b.len(),
{
    lemma_merge_len(a, b);
    let q = split_q(a, b, m);
    if m == 0 {
        assert(merge_items(a, b).take(0) == Seq::<Item>::empty());
        assert(a.take(0) == Seq::<Item>::empty());
        assert(b.take(0) == Seq::<Item>::empty());
    } else if a.len() == 0 {
        assert(a.take(0) == Seq::<Item>::empty());
        assert(occ(Seq::<Item>::empty(), x) == 0);
    } else if b.len() == 0 {
        assert(b.take(0) == Seq::<Item>::empty());
        assert(occ(Seq::<Item>::empty(), x) == 0);
    } else if a[0].0 <= b[0].0 {
        let a2 = a.drop_first();
        lemma_merge_prefix(a2, b, (m - 1) as nat, x);
        lemma_occ_first(a[0], merge_items(a2, b), m, x);
        assert(a == seq![a[0]] + a2);
        lemma_occ_first(a[0], a2, q, x);
    } else {
        let b2 = b.drop_first();
        lemma_merge_prefix(a, b2, (m - 1) as nat, x);
        lemma_occ_first(b[0], merge_items(a, b2), m, x);
        assert(b == seq![b[0]] + b2);
        lemma_occ_first(b[0], b2, (m - q) as nat, x);
    }
}

/// The first `p` packages hold the symbols of the first `2p` items.
pub proof fn lemma_pair_prefix(l: Seq<Item>, p: nat, x: u16)
    requires
        2 * p <= l.len(),
    ensures
        occ(pair_items(l).take(p as int), x) == occ(l.take((2 * p) as int), x),
    decreases p,
{
    if p == 0 {
        assert(pair_items(l).take(0) == Seq::<Item>::empty());
        assert(l.take(0) == Seq::<Item>::empty());
    } else {
        lemma_pair_prefix(l, (p - 1) as nat, x);
        let pl = pair_items(l);
        assert(pl.take(p as int).drop_last() == pl.take(p - 1));
        assert(pl.take(p as int).last() == pl[p - 1]);
        lemma_count_concat(l[2 * p - 2].1, l[2 * p - 1].1, x);
        assert(l.take((2 * p) as int).drop_last() == l.take(2 * p - 1));
        assert(l.take((2 * p) as int).last() == l[2 * p - 1]);
        assert(l.take(2 * p - 1).drop_last() == l.take(2 * p - 2));
        assert(l.take(2 * p - 1).last() == l[2 * p - 2]);
        assert(pl[p - 1].1 == l[2 * p - 2].1 + l[2 * p - 1].1);
        assert(occ(pl.take(p as int), x) == occ(pl.take(p - 1), x) + count_sym(pl[p - 1].1, x));
        assert(occ(l.take((2 * p) as int), x) == occ(l.take(2 * p - 1), x) + count_sym(
            l[2 * p - 1].1,
            x,
        ));
        assert(occ(l.take(2 * p - 1), x) == occ(l.take(2 * p - 2), x) + count_sym(l[2 * p - 2].1, x));
        assert(l.take((2 * (p - 1)) as int) == l.take(2 * p - 2));
        assert(pl.take((p - 1) as nat as int) == pl.take(p - 1));
    }
}

/// In a list of leaves with distinct symbols, a symbol occurs once in a prefix
/// holding it and never otherwise.
pub proof fn lemma_leaf_prefix(sorted: Seq<(u64, u16)>, q: nat, x: u16)
    requires
        q <= sorted.len(),
        sorted.map_values(|e: (u64, u16)| e.1).no_duplicates(),
    ensures
        occ(leaf_items(sorted).take(q as int), x) == if sorted.map_values(|e: (u64, u16)| e.1).take(
            q as int,
        ).contains(x) {
            1nat
        } else {
            0nat
        },
    decreases q,
{
    let syms = sorted.map_values(|e: (u64, u16)| e.1);
    let lv = leaf_items(sorted);
    if q == 0 {
        assert(lv.take(0) == Seq::<Item>::empty());
        assert(!syms.take(0).contains(x));
    } else {
        lemma_leaf_prefix(sorted, (q - 1) as nat, x);
        assert(lv.take(q as int).drop_last() == lv.take(q - 1));
        assert(lv.take(q as int).last() == lv[q - 1]);
        let y = sorted[q - 1].1;
        assert(lv[q - 1].1 == seq![y]);
        lemma_count_single(y, x);
        lemma_occ_single(lv[q - 1], x);
        assert(syms.take(q as int) == syms.take(q - 1).push(y));
        if syms.take(q as int).contains(x) {
            if y == x {
                if syms.take(q - 1).contains(x) {
                    let j = choose|j: int| 0 <= j < q - 1&& #[trigger] syms.take(q - 1)[j] == x;
                    assert(syms[j] == syms[q - 1]);
                }
            } else {
                let j = choose|j: int| 0 <= j < q&& #[trigger] syms.take(q as int)[j] == x;
                assert(syms.take(q - 1)[j] == x);
            }
        } else {
            assert(syms.take(q as int)[q - 1] == y);
            assert(y != x);
            assert(!syms.take(q - 1).contains(x)) by {
                if syms.take(q - 1).contains(x) {
                    let j = choose|j: int| 0 <= j < q - 1&& #[trigger] syms.take(q - 1)[j] == x;
                    assert(syms.take(q as int)[j] == x);
                }
            }
        }
    }
}

// ───────────────────────────── sums over an alphabet ─────────────────────────────

/// `f(0) + f(1) + … + f(n - 1)`.
pub open spec fn sum_upto(f: spec_fn(nat) -> int, n: nat) -> int
    decreases n,
{
    if n == 0 {
        0
    } else {
        sum_upto(f, (n - 1) as nat) + f((n - 1) as nat)
    }
}

pub proof fn lemma_sum_add(f: spec_fn(nat) -> int, g: spec_fn(nat) -> int, h: spec_fn(nat) -> int, n: nat)
    requires
        forall|i: nat| i < n ==> #[trigger] h(i) == f(i) + g(i),
    ensures
        sum_upto(h, n) == sum_upto(f, n) + sum_upto(g, n),
    decreases n,
{
    if n > 0 {
        lemma_sum_add(f, g, h, (n - 1) as nat);
    }
}

pub proof fn lemma_sum_scale(f: spec_fn(nat) -> int, g: spec_fn(nat) -> int, c: int, n: nat)
    requires
        forall|i: nat| i < n ==> #[trigger] g(i) == c * f(i),
    ensures
        sum_upto(g, n) == c * sum_upto(f, n),
    decreases n,
{
    if n > 0 {
        lemma_sum_scale(f, g, c, (n - 1) as nat);
        let s = sum_upto(f, (n - 1) as nat);
        assert(c * s + c * f((n - 1) as nat) == c * (s + f((n - 1) as nat))) by (nonlinear_arith);
    }
}

pub proof fn lemma_sum_le(f: spec_fn(nat) -> int, g: spec_fn(nat) -> int, n: nat)
    requires
        forall|i: nat| i < n ==> #[trigger] f(i) <= g(i),
    ensures
        sum_upto(f, n) <= sum_upto(g, n),
    decreases n,
{
    if n > 0 {
        lemma_sum_le(f, g, (n - 1) as nat);
    }
}

pub proof fn lemma_sum_nonneg(f: spec_fn(nat) -> int, n: nat)
    requires
        forall|i: nat| i < n ==> #[trigger] f(i) >= 0,
    ensures
        sum_upto(f, n) >= 0,
    decreases n,
{
    if n > 0 {
        lemma_sum_nonneg(f, (n - 1) as nat);
    }
}

/// A sum of non-negative terms is at least any two of its terms.
pub proof fn lemma_sum_two(f: spec_fn(nat) -> int, n: nat, x: nat, y: nat)
    requires
        forall|i: nat| i < n ==> #[trigger] f(i) >= 0,
        x < n,
        y < n,
        x != y,
    ensures
        sum_upto(f, n) >= f(x) + f(y),
    decreases n,
{
    lemma_sum_nonneg(f, (n - 1) as nat);
    if x == n - 1 {
        lemma_sum_one(f, (n - 1) as nat, y);
    } else if y == n - 1 {
        lemma_sum_one(f, (n - 1) as nat, x);
    } else {
        lemma_sum_two(f, (n - 1) as nat, x, y);
    }
}

pub proof fn lemma_sum_one(f: spec_fn(nat) -> int, n: nat, x: nat)
    requires
        forall|i: nat| i < n ==> #[trigger] f(i) >= 0,
        x < n,
    ensures
        sum_upto(f, n) >= f(x),
    decreases n,
{
    lemma_sum_nonneg(f, (n - 1) as nat);
    if x < n - 1 {
        lemma_sum_one(f, (n - 1) as nat, x);
    }
}

/// Counting the members of a duplicate-free list of symbols below `n`.
pub proof fn lemma_sum_members(s: Seq<u16>, n: nat)
    requires
        s.no_duplicates(),
        n <= 65536,
        forall|i: int| 0 <= i < s.len() ==> (#[trigger] s[i] as nat) < n,
    ensures
        sum_upto(
            |x: nat|
                if s.contains(x as u16) {
                    1int
                } else {
                    0int
                },
            n,
        ) == s.len(),
    decreases s.len(),
{
    let f = |x: nat|
        if s.contains(x as u16) {
            1int
        } else {
            0int
        };
    if s.len() == 0 {
        let z = |x: nat| 0int;
        lemma_sum_scale(z, f, 0, n);
    } else {
        let p = s.drop_last();
        let y = s.last();
        assert(p.no_duplicates()) by {
            assert forall|i: int, j: int| 0 <= i < p.len() && 0 <= j < p.len() && i != j implies p[i]
                != p[j] by {
                assert(p[i] == s[i] && p[j] == s[j]);
            }
        }
        assert forall|i: int| 0 <= i < p.len() implies (#[trigger] p[i] as nat) < n by {
            assert(p[i] == s[i]);
        }
        lemma_sum_members(p, n);
        let g = |x: nat|
            if p.contains(x as u16) {
                1int
            } else {
                0int
            };
        let d = |x: nat|
            if x == y as nat {
                1int
            } else {
                0int
            };
        assert(!p.contains(y)) by {
            if p.contains(y) {
                let j = choose|j: int| 0 <= j < p.len()&& #[trigger] p[j] == y;
                assert(s[j] == s[s.len() - 1]);
            }
        }
        assert(s == p.push(y));
        assert forall|x: nat| x < n implies #[trigger] f(x) == g(x) + d(x) by {
            if x == y as nat {
                assert(s.contains(x as u16)) by {
                    assert(s[s.len() - 1] == y);
                }
            } else {
                if s.contains(x as u16) {
                    let j = choose|j: int| 0 <= j < s.len()&& #[trigger] s[j] == x as u16;
                    if j == s.len() - 1 {
                        assert(s[j] == y);
                        assert(false);
                    }
                    assert(p[j] == x as u16);
                }
                if p.contains(x as u16) {
                    let j = choose|j: int| 0 <= j < p.len()&& #[trigger] p[j] == x as u16;
                    assert(s[j] == x as u16);
                }
            }
        }
        lemma_sum_add(g, d, f, n);
        lemma_sum_point(y as nat, n);
        assert(s[s.len() - 1] == y);
        assert((y as nat) < n);
    }
}

pub proof fn lemma_sum_point(y: nat, n: nat)
    requires
        y < n,
    ensures
        sum_upto(
            |x: nat|
                if x == y {
                    1int
                } else {
                    0int
                },
            n,
        ) == 1,
    decreases n,
{
    let d = |x: nat|
        if x == y {
            1int
        } else {
            0int
        };
    if y < n - 1 {
        lemma_sum_point(y, (n - 1) as nat);
    } else {
        let z = |x: nat| 0int;
        lemma_sum_scale(z, d, 0, (n - 1) as nat);
    }
}


pub proof fn lemma_sum_ext(f: spec_fn(nat) -> int, g: spec_fn(nat) -> int, n: nat)
    requires
        forall|i: nat| i < n ==> #[trigger] f(i) == g(i),
    ensures
        sum_upto(f, n) == sum_upto(g, n),
{
    lemma_sum_le(f, g, n);
    lemma_sum_le(g, f, n);
}

// ───────────────────────────── widths ─────────────────────────────

/// The symbols of a sorted symbol list.
pub open spec fn syms_of(sorted: Seq<(u64, u16)>) -> Seq<u16> {
    sorted.map_values(|e: (u64, u16)| e.1)
}

/// The width that symbol `x` contributes to the first `m` items of list `t`,
/// an item of list `t` being `2^(t-1)` wide.
pub open spec fn width(lv: Seq<Item>, t: nat, m: nat, x: u16) -> int
    decreases t,
{
    if t <= 1 {
        occ(lv.take(m as int), x) as int
    } else {
        let prev = pm_list(lv, (t - 1) as nat);
        let q = split_q(lv, pair_items(prev), m);
        (occ(lv.take(q as int), x) * pow2((t - 1) as nat)) as int + width(
            lv,
            (t - 1) as nat,
            (2 * (m - q)) as nat,
            x,
        )
    }
}

proof fn lemma_pm_list_len(lv: Seq<Item>, t: nat)
    requires
        t >= 1,
    ensures
        pm_list(lv, t).len() >= lv.len(),
        t > 1 ==> pm_list(lv, t).len() == lv.len() + pm_list(lv, (t - 1) as nat).len() / 2,
{
    if t > 1 {
        lemma_merge_len(lv, pair_items(pm_list(lv, (t - 1) as nat)));
    }
}

/// A symbol occurs at most `t` times among the first `m` items of list `t`
/// (never when it is no leaf), and its width is bounded accordingly.
proof fn lemma_width(sorted: Seq<(u64, u16)>, t: nat, m: nat, x: u16)
    requires
        t >= 1,
        m <= pm_list(leaf_items(sorted), t).len(),
        syms_of(sorted).no_duplicates(),
    ensures
        ({
            let lv = leaf_items(sorted);
            let c = occ(pm_list(lv, t).take(m as int), x);
            &&& c <= t
            &&& !syms_of(sorted).contains(x) ==> c == 0
            &&& 0 <= width(lv, t, m, x)
            &&& width(lv, t, m, x) <= pow2(t) - pow2((t - c) as nat)
        }),
    decreases t,
{
    let lv = leaf_items(sorted);
    let syms = syms_of(sorted);
    lemma_pow2_small();
    if t == 1 {
        lemma_leaf_prefix(sorted, m, x);
        if syms.take(m as int).contains(x) {
            let j = choose|j: int| 0 <= j < m && #[trigger] syms.take(m as int)[j] == x;
            assert(syms[j] == x);
        }
    } else {
        let prev = pm_list(lv, (t - 1) as nat);
        let pr = pair_items(prev);
        lemma_merge_len(lv, pr);
        lemma_merge_prefix(lv, pr, m, x);
        let q = split_q(lv, pr, m);
        let p = (m - q) as nat;
        lemma_pair_prefix(prev, p, x);
        lemma_leaf_prefix(sorted, q, x);
        lemma_width(sorted, (t - 1) as nat, 2 * p, x);
        let leaf = occ(lv.take(q as int), x);
        let c2 = occ(prev.take((2 * p) as int), x);
        let w2 = width(lv, (t - 1) as nat, 2 * p, x);
        let c = occ(pm_list(lv, t).take(m as int), x);
        assert(c == leaf + c2);
        if syms.take(q as int).contains(x) {
            let j = choose|j: int| 0 <= j < q && #[trigger] syms.take(q as int)[j] == x;
            assert(syms[j] == x);
        }
        let pt = pow2((t - 1) as nat);
        lemma_pow2_unfold(t);
        lemma_pow2_pos((t - 1 - c2) as nat);
        if leaf == 1 {
            assert((t - c) as nat == (t - 1 - c2) as nat);
            assert(width(lv, t, m, x) == pt + w2);
        } else {
            assert(leaf == 0);
            assert(width(lv, t, m, x) == w2);
            lemma_pow2_unfold((t - c2) as nat);
            assert(pow2((t - c2) as nat) == 2 * pow2((t - 1 - c2) as nat));
            lemma_pow2_adds((t - 1 - c2) as nat, c2);
            lemma_pow2_pos(c2);
            assert(pt == pow2((t - 1 - c2) as nat) * pow2(c2));
            assert(pt >= pow2((t - 1 - c2) as nat)) by (nonlinear_arith)
                requires
                    pt == pow2((t - 1 - c2) as nat) * pow2(c2),
                    pow2(c2) >= 1,
                    pow2((t - 1 - c2) as nat) >= 1,
            ;
        }
    }
}

/// The widths of all symbols add up to the width of the first `m` items.
/// In every prefix of every list, a leaf earlier in the sorted order (a lighter
/// or equally heavy symbol) occurs at least as often as a later one.
pub proof fn lemma_pm_monotone(sorted: Seq<(u64, u16)>, t: nat, m: nat, i: int, j: int)
    requires
        t >= 1,
        m <= pm_list(leaf_items(sorted), t).len(),
        syms_of(sorted).no_duplicates(),
        0 <= i < j < sorted.len(),
    ensures
        occ(pm_list(leaf_items(sorted), t).take(m as int), sorted[i].1) >= occ(
            pm_list(leaf_items(sorted), t).take(m as int),
            sorted[j].1,
        ),
    decreases t,
{
    let lv = leaf_items(sorted);
    let syms = syms_of(sorted);
    let (a, b) = (sorted[i].1, sorted[j].1);
    if t == 1 {
        assert(m <= sorted.len());
        lemma_leaf_prefix(sorted, m, a);
        lemma_leaf_prefix(sorted, m, b);
        if syms.take(m as int).contains(b) {
            let k = choose|k: int| 0 <= k < m && #[trigger] syms.take(m as int)[k] == b;
            assert(syms[k] == syms[j]);
            assert(k == j);
            assert(syms.take(m as int)[i] == a);
        }
    } else {
        let prev = pm_list(lv, (t - 1) as nat);
        let pk = pair_items(prev);
        lemma_merge_len(lv, pk);
        lemma_merge_prefix(lv, pk, m, a);
        lemma_merge_prefix(lv, pk, m, b);
        let q = split_q(lv, pk, m);
        let p = (m - q) as nat;
        lemma_pair_prefix(prev, p, a);
        lemma_pair_prefix(prev, p, b);
        lemma_monotone_leaves(sorted, q, i, j);
        lemma_pm_monotone(sorted, (t - 1) as nat, 2 * p, i, j);
    }
}

proof fn lemma_monotone_leaves(sorted: Seq<(u64, u16)>, q: nat, i: int, j: int)
    requires
        q <= sorted.len(),
        syms_of(sorted).no_duplicates(),
        0 <= i < j < sorted.len(),
    ensures
        occ(leaf_items(sorted).take(q as int), sorted[i].1) >= occ(leaf_items(sorted).take(q as int), sorted[j].1),
{
    let syms = syms_of(sorted);
    let (a, b) = (sorted[i].1, sorted[j].1);
    lemma_leaf_prefix(sorted, q, a);
    lemma_leaf_prefix(sorted, q, b);
    if syms.take(q as int).contains(b) {
        let k = choose|k: int| 0 <= k < q && #[trigger] syms.take(q as int)[k] == b;
        assert(syms[k] == syms[j]);
        assert(k == j);
        assert(syms.take(q as int)[i] == a);
    }
}

/// Package-merge never gives a leaf earlier in the sorted order a longer code
/// than a later one.
pub proof fn lemma_pm_lengths_monotone(sorted: Seq<(u64, u16)>, alphabet: nat, max_len: nat, i: int, j: int)
    requires
        max_len >= 1,
        max_len <= 255,
        syms_of(sorted).no_duplicates(),
        0 <= i < j < sorted.len(),
        sorted[i].1 < alphabet,
        sorted[j].1 < alphabet,
    ensures
        pm_lengths(sorted, alphabet, max_len)[sorted[i].1 as int] >= pm_lengths(sorted, alphabet, max_len)[sorted[j].1 as int],
{
    let l = pm_list(leaf_items(sorted), max_len);
    let m = pm_take(sorted.len(), l.len());
    lemma_pm_monotone(sorted, max_len, m, i, j);
    lemma_width(sorted, max_len, m, sorted[i].1);
    lemma_width(sorted, max_len, m, sorted[j].1);
}

proof fn lemma_width_sum(sorted: Seq<(u64, u16)>, t: nat, m: nat, alphabet: nat)
    requires
        t >= 1,
        m <= pm_list(leaf_items(sorted), t).len(),
        syms_of(sorted).no_duplicates(),
        alphabet <= 65536,
        forall|i: int| 0 <= i < sorted.len() ==> (#[trigger] sorted[i].1 as nat) < alphabet,
    ensures
        sum_upto(|x: nat| width(leaf_items(sorted), t, m, x as u16), alphabet) == m * pow2(
            (t - 1) as nat,
        ),
    decreases t,
{
    let lv = leaf_items(sorted);
    let syms = syms_of(sorted);
    lemma_pow2_small();
    let f = |x: nat| width(lv, t, m, x as u16);
    if t == 1 {
        let s = syms.take(m as int);
        assert(s.no_duplicates()) by {
            assert forall|i: int, j: int| 0 <= i < s.len() && 0 <= j < s.len() && i != j implies s[i]
                != s[j] by {
                assert(s[i] == syms[i] && s[j] == syms[j]);
            }
        }
        assert forall|i: int| 0 <= i < s.len() implies (#[trigger] s[i] as nat) < alphabet by {
            assert(s[i] == sorted[i].1);
        }
        lemma_sum_members(s, alphabet);
        let g = |x: nat|
            if s.contains(x as u16) {
                1int
            } else {
                0int
            };
        assert forall|x: nat| x < alphabet implies #[trigger] f(x) == g(x) by {
            lemma_leaf_prefix(sorted, m, x as u16);
        }
        lemma_sum_ext(f, g, alphabet);
        assert(s.len() == m);
        assert(sum_upto(f, alphabet) == m);
        assert(m * pow2(0) == m);
    } else {
        let prev = pm_list(lv, (t - 1) as nat);
        let pr = pair_items(prev);
        lemma_merge_len(lv, pr);
        lemma_merge_prefix(lv, pr, m, 0);
        let q = split_q(lv, pr, m);
        let p = (m - q) as nat;
        lemma_width_sum(sorted, (t - 1) as nat, 2 * p, alphabet);
        let s = syms.take(q as int);
        assert(s.no_duplicates()) by {
            assert forall|i: int, j: int| 0 <= i < s.len() && 0 <= j < s.len() && i != j implies s[i]
                != s[j] by {
                assert(s[i] == syms[i] && s[j] == syms[j]);
            }
        }
        assert forall|i: int| 0 <= i < s.len() implies (#[trigger] s[i] as nat) < alphabet by {
            assert(s[i] == sorted[i].1);
        }
        lemma_sum_members(s, alphabet);
        let ind = |x: nat|
            if s.contains(x as u16) {
                1int
            } else {
                0int
            };
        let pt = pow2((t - 1) as nat) as int;
        let lf = |x: nat| pt * ind(x);
        let w2 = |x: nat| width(lv, (t - 1) as nat, 2 * p, x as u16);
        assert forall|x: nat| x < alphabet implies #[trigger] f(x) == lf(x) + w2(x) by {
            lemma_leaf_prefix(sorted, q, x as u16);
            let leaf = occ(lv.take(q as int), x as u16);
            assert((leaf * pow2((t - 1) as nat)) as int == pt * ind(x));
        }
        lemma_sum_scale(ind, lf, pt, alphabet);
        lemma_sum_add(lf, w2, f, alphabet);
        lemma_pow2_unfold((t - 1) as nat);
        if t >= 2 {
            assert(pt == 2 * pow2((t - 2) as nat)) by {
                lemma_pow2_unfold((t - 1) as nat);
            }
        }
        assert(pt * q + (2 * p) * pow2((t - 2) as nat) == m * pt) by (nonlinear_arith)
            requires
                pt == 2 * pow2((t - 2) as nat),
                m == q + p,
        ;
        assert(sum_upto(f, alphabet) == m * pt);
    }
    assert(sum_upto(|x: nat| width(leaf_items(sorted), t, m, x as u16), alphabet) == sum_upto(f, alphabet));
}

/// After `t - 1` rounds the list holds at least `2n - ⌈n / 2^(t-1)⌉` items.
proof fn lemma_pm_list_grows(lv: Seq<Item>, t: nat)
    requires
        t >= 1,
    ensures
        (2 * lv.len() - pm_list(lv, t).len() - 1) * pow2((t - 1) as nat) < lv.len(),
        pm_list(lv, t).len() <= 2 * lv.len(),
    decreases t,
{
    lemma_pow2_small();
    let n = lv.len() as int;
    if t > 1 {
        lemma_pm_list_grows(lv, (t - 1) as nat);
        lemma_pm_list_len(lv, t);
        let len0 = pm_list(lv, (t - 1) as nat).len() as int;
        let len1 = pm_list(lv, t).len() as int;
        let p = pow2((t - 2) as nat) as int;
        lemma_pow2_unfold((t - 1) as nat);
        lemma_pow2_pos((t - 2) as nat);
        assert(pow2((t - 1) as nat) == 2 * p);
        assert(len1 == n + len0 / 2);
        let d0 = 2 * n - len0 - 1;
        let d1 = 2 * n - len1 - 1;
        assert(2 * (len0 / 2) >= len0 - 1);
        assert(2 * d1 <= d0);
        assert(d1 * (2 * p) <= d0 * p) by (nonlinear_arith)
            requires
                2 * d1 <= d0,
                p >= 1,
        ;
        assert(pm_list(lv, t).len() <= 2 * n);
        assert(d1 * pow2((t - 1) as nat) < n);
    } else {
        assert(pm_list(lv, t) == lv);
        assert((2 * n - n - 1) * pow2(0) < n);
    }
}

/// Package-merge lengths: every leaf symbol gets a length in `1..=T`, no other
/// symbol gets one, and the lengths satisfy the Kraft inequality.
pub proof fn lemma_pm_kraft(sorted: Seq<(u64, u16)>, alphabet: nat, t: nat)
    requires
        t >= 1,
        2 <= sorted.len() <= pow2(t),
        syms_of(sorted).no_duplicates(),
        alphabet <= 65536,
        forall|i: int| 0 <= i < sorted.len() ==> (#[trigger] sorted[i].1 as nat) < alphabet,
    ensures
        ({
            let l = pm_list(leaf_items(sorted), t);
            let sel = l.take(pm_take(sorted.len(), l.len()) as int);
            &&& pm_take(sorted.len(), l.len()) == 2 * sorted.len() - 2
            &&& forall|x: nat|
                x < alphabet ==> (syms_of(sorted).contains(x as u16) ==> 1 <= #[trigger] occ(
                    sel,
                    x as u16,
                ) <= t) && (!syms_of(sorted).contains(x as u16) ==> occ(sel, x as u16) == 0)
            &&& sum_upto(
                |x: nat|
                    if syms_of(sorted).contains(x as u16) {
                        pow2((t - occ(sel, x as u16)) as nat) as int
                    } else {
                        0int
                    },
                alphabet,
            ) <= pow2(t)
        }),
{
    let lv = leaf_items(sorted);
    let syms = syms_of(sorted);
    let n = sorted.len();
    let l = pm_list(lv, t);
    lemma_pm_list_grows(lv, t);
    lemma_pow2_unfold(t);
    lemma_pow2_pos((t - 1) as nat);
    let big = pow2(t) as int;
    let half = pow2((t - 1) as nat) as int;
    assert(2 * n - l.len() <= 2) by (nonlinear_arith)
        requires
            (2 * n - l.len() - 1) * half < n,
            n <= big,
            big == 2 * half,
            half >= 1,
    ;
    let m = (2 * n - 2) as nat;
    assert(pm_take(n, l.len()) == m);
    let sel = l.take(m as int);
    lemma_width_sum(sorted, t, m, alphabet);
    assert forall|i: int| 0 <= i < syms.len() implies (#[trigger] syms[i] as nat) < alphabet by {
        assert(syms[i] == sorted[i].1);
    }
    lemma_sum_members(syms, alphabet);
    let wf = |x: nat| width(lv, t, m, x as u16);
    let ind = |x: nat|
        if syms.contains(x as u16) {
            1int
        } else {
            0int
        };
    let k = |x: nat|
        if syms.contains(x as u16) {
            pow2((t - occ(sel, x as u16)) as nat) as int
        } else {
            0int
        };
    let g = |x: nat|
        if syms.contains(x as u16) {
            big - pow2((t - occ(sel, x as u16)) as nat)
        } else {
            0int
        };
    let h = |x: nat| big * ind(x);
    assert forall|x: nat| x < alphabet implies #[trigger] wf(x) <= g(x) && h(x) == g(x) + k(x) && k(x)
        >= 0 by {
        lemma_width(sorted, t, m, x as u16);
        let c = occ(sel, x as u16);
        lemma_pow2_pos((t - c) as nat);
        assert(wf(x) == width(lv, t, m, x as u16));
        assert(width(lv, t, m, x as u16) <= pow2(t) - pow2((t - c) as nat));
        if syms.contains(x as u16) {
            assert(g(x) == big - pow2((t - c) as nat));
            assert(k(x) == pow2((t - c) as nat));
            assert(ind(x) == 1);
            assert(h(x) == big);
        } else {
            assert(c == 0);
            assert(g(x) == 0);
            assert(k(x) == 0);
            assert(ind(x) == 0);
            assert(big * 0 == 0);
            assert(h(x) == 0);
        }
    }
    lemma_sum_le(wf, g, alphabet);
    lemma_sum_add(g, k, h, alphabet);
    lemma_sum_scale(ind, h, big, alphabet);
    assert(m * half == (n - 1) * big) by (nonlinear_arith)
        requires
            m == 2 * n - 2,
            big == 2 * half,
    ;
    assert(sum_upto(wf, alphabet) == sum_upto(
        |x: nat| width(leaf_items(sorted), t, m, x as u16),
        alphabet,
    ));
    assert(sum_upto(wf, alphabet) == m * half);
    assert(sum_upto(ind, alphabet) == n);
    assert(sum_upto(h, alphabet) == big * n);
    assert(big * n - (n - 1) * big == big) by (nonlinear_arith);
    assert(sum_upto(k, alphabet) <= big);
    assert forall|x: nat| x < alphabet implies (syms.contains(x as u16) ==> 1 <= #[trigger] occ(
        sel,
        x as u16,
    ) <= t) && (!syms.contains(x as u16) ==> occ(sel, x as u16) == 0) by {
        lemma_width(sorted, t, m, x as u16);
        if syms.contains(x as u16) && occ(sel, x as u16) == 0 {
            let y = if syms[0] == x as u16 {
                syms[1]
            } else {
                syms[0]
            };
            assert(syms[0] != syms[1]);
            assert(syms.contains(y));
            assert(syms[0] == sorted[0].1);
            assert(syms[1] == sorted[1].1);
            lemma_width(sorted, t, m, y);
            assert(k(x) == big);
            lemma_pow2_pos((t - occ(sel, y)) as nat);
            assert(k(y as nat) >= 1);
            lemma_sum_two(k, alphabet, x, y as nat);
        }
    }
    assert(sum_upto(
        |x: nat|
            if syms_of(sorted).contains(x as u16) {
                pow2((t - occ(sel, x as u16)) as nat) as int
            } else {
                0int
            },
        alphabet,
    ) == sum_upto(k, alphabet));
}


/// Package-merge with 15-bit codes yields a length map for canonical coding:
/// a length in `1..=15` for each leaf symbol, 0 for every other symbol, and the
/// Kraft inequality.
pub proof fn lemma_pm_valid(sorted: Seq<(u64, u16)>, alphabet: nat)
    requires
        2 <= sorted.len() <= 32768,
        syms_of(sorted).no_duplicates(),
        alphabet <= 65536,
        forall|i: int| 0 <= i < sorted.len() ==> (#[trigger] sorted[i].1 as nat) < alphabet,
    ensures
        pm_lengths(sorted, alphabet, 15).len() == alphabet,
        valid_lengths(pm_lengths(sorted, alphabet, 15)),
        forall|x: int|
            0 <= x < alphabet ==> (syms_of(sorted).contains(x as u16) <==> #[trigger] pm_lengths(
                sorted,
                alphabet,
                15,
            )[x] >= 1),
{
    lemma_pow2_small();
    lemma_pm_kraft(sorted, alphabet, 15);
    let syms = syms_of(sorted);
    let m = pm_lengths(sorted, alphabet, 15);
    let l = pm_list(leaf_items(sorted), 15);
    let sel = l.take(pm_take(sorted.len(), l.len()) as int);
    assert forall|x: int| 0 <= x < alphabet implies #[trigger] m[x] as nat == occ(sel, x as u16) && m[x]
        <= 15 && (syms.contains(x as u16) <==> m[x] >= 1) by {
        let c = occ(sel, (x as nat) as u16);
        assert(c <= 15);
    }
    lemma_kraft_by_symbol(m);
    let f = |x: nat|
        if 1 <= m[x as int] {
            weight(m[x as int]) as int
        } else {
            0int
        };
    let k = |x: nat|
        if syms.contains(x as u16) {
            pow2((15 - occ(sel, x as u16)) as nat) as int
        } else {
            0int
        };
    assert forall|x: nat| x < alphabet implies #[trigger] f(x) == k(x) by {
        assert(m[x as int] as nat == occ(sel, x as u16));
    }
    lemma_sum_ext(f, k, alphabet);
}

// ───────────────────────────── stable sort by weight ─────────────────────────────

/// Inserts `x` after every leading element whose weight is at most its own.
pub open spec fn insert_by_freq(x: (u64, u16), s: Seq<(u64, u16)>) -> Seq<(u64, u16)>
    decreases s.len(),
{
    if s.len() == 0 {
        seq![x]
    } else if s[0].0 > x.0 {
        seq![x] + s
    } else {
        seq![s[0]] + insert_by_freq(x, s.drop_first())
    }
}

proof fn lemma_insert_within(x: (u64, u16), s: Seq<(u64, u16)>, b: u64)
    requires
        x.0 <= b,
        forall|i: int| 0 <= i < s.len() ==> #[trigger] s[i].0 <= b,
    ensures
        forall|i: int| 0 <= i < insert_by_freq(x, s).len() ==> #[trigger] insert_by_freq(x, s)[i].0 <= b,
    decreases s.len(),
{
    let r = insert_by_freq(x, s);
    if s.len() > 0 && s[0].0 <= x.0 {
        let s2 = s.drop_first();
        lemma_insert_within(x, s2, b);
        assert forall|i: int| 0 <= i < r.len() implies #[trigger] r[i].0 <= b by {
            if i > 0 {
                assert(r[i] == insert_by_freq(x, s2)[i - 1]);
            }
        }
    } else if s.len() > 0 {
        assert forall|i: int| 0 <= i < r.len() implies #[trigger] r[i].0 <= b by {
            if i > 0 {
                assert(r[i] == s[i - 1]);
            }
        }
    }
}

/// Sorting keeps every weight under a bound that holds of the input.
pub proof fn lemma_sort_within(s: Seq<(u64, u16)>, b: u64)
    requires
        forall|i: int| 0 <= i < s.len() ==> #[trigger] s[i].0 <= b,
    ensures
        forall|i: int| 0 <= i < sort_by_freq(s).len() ==> #[trigger] sort_by_freq(s)[i].0 <= b,
    decreases s.len(),
{
    if s.len() > 0 {
        let p = s.drop_last();
        assert forall|i: int| 0 <= i < p.len() implies #[trigger] p[i].0 <= b by {
            assert(p[i] == s[i]);
        }
        lemma_sort_within(p, b);
        lemma_insert_within(s.last(), sort_by_freq(p), b);
    }
}

/// The stable sort of `s` by weight.
pub open spec fn sort_by_freq(s: Seq<(u64, u16)>) -> Seq<(u64, u16)>
    decreases s.len(),
{
    if s.len() == 0 {
        Seq::empty()
    } else {
        insert_by_freq(s.last(), sort_by_freq(s.drop_last()))
    }
}

/// The items of `s` come in non-decreasing order of weight.
pub open spec fn sorted_by_freq(s: Seq<(u64, u16)>) -> bool {
    forall|i: int, j: int| 0 <= i < j < s.len() ==> (#[trigger] s[i]).0 <= (#[trigger] s[j]).0
}

proof fn lemma_insert_sorted(x: (u64, u16), s: Seq<(u64, u16)>)
    requires
        sorted_by_freq(s),
    ensures
        sorted_by_freq(insert_by_freq(x, s)),
        insert_by_freq(x, s).to_multiset() =~= s.to_multiset().insert(x),
    decreases s.len(),
{
    broadcast use vstd::seq_lib::group_to_multiset_ensures, vstd::seq_lib::lemma_multiset_commutative;
    let r = insert_by_freq(x, s);
    if s.len() == 0 {
        assert(seq![x] == Seq::<(u64, u16)>::empty().push(x));
    } else if s[0].0 > x.0 {
        assert(seq![x] == Seq::<(u64, u16)>::empty().push(x));
        assert(r == seq![x] + s);
        assert forall|i: int, j: int| 0 <= i < j < r.len() implies (#[trigger] r[i]).0 <= (#[trigger] r[j]).0 by {
            assert(r[j] == s[j - 1]);
            if i > 0 {
                assert(r[i] == s[i - 1]);
            } else {
                assert(s[0].0 <= s[j - 1].0 || j - 1 == 0);
            }
        }
    } else {
        let rest = s.drop_first();
        assert(sorted_by_freq(rest)) by {
            assert forall|i: int, j: int| 0 <= i < j < rest.len() implies (#[trigger] rest[i]).0
                <= (#[trigger] rest[j]).0 by {
                assert(rest[i] == s[i + 1] && rest[j] == s[j + 1]);
            }
        }
        lemma_insert_sorted(x, rest);
        let r2 = insert_by_freq(x, rest);
        assert(r == seq![s[0]] + r2);
        assert(s == seq![s[0]] + rest);
        assert(seq![s[0]] == Seq::<(u64, u16)>::empty().push(s[0]));
        assert forall|j: int| 0 <= j < r2.len() implies s[0].0 <= (#[trigger] r2[j]).0 by {
            let y = r2[j];
            assert(r2.contains(y));
            assert(r2.to_multiset().count(y) > 0);
            if y != x {
                assert(rest.to_multiset().count(y) > 0);
                assert(rest.contains(y));
                let k = choose|k: int| 0 <= k < rest.len() && rest[k] == y;
                assert(s[k + 1] == y);
                assert(s[0].0 <= s[k + 1].0);
            }
        }
        assert forall|i: int, j: int| 0 <= i < j < r.len() implies (#[trigger] r[i]).0 <= (#[trigger] r[j]).0 by {
            assert(r[j] == r2[j - 1]);
            if i > 0 {
                assert(r[i] == r2[i - 1]);
            }
        }
    }
}

/// Sorting by weight gives the same items, in non-decreasing order of weight:
/// these are the leaves that package-merge starts from.
pub proof fn lemma_sort_by_freq_sorted(s: Seq<(u64, u16)>)
    ensures
        sorted_by_freq(sort_by_freq(s)),
        sort_by_freq(s).to_multiset() =~= s.to_multiset(),
    decreases s.len(),
{
    broadcast use vstd::seq_lib::group_to_multiset_ensures;
    if s.len() > 0 {
        let p = s.drop_last();
        lemma_sort_by_freq_sorted(p);
        lemma_insert_sorted(s.last(), sort_by_freq(p));
        assert(s == p.push(s.last()));
    }
}

proof fn lemma_insert_split(x: (u64, u16), s: Seq<(u64, u16)>, j: int)
    requires
        0 <= j <= s.len(),
        forall|i: int| 0 <= i < j ==> #[trigger] s[i].0 <= x.0,
        j < s.len() ==> s[j].0 > x.0,
    ensures
        insert_by_freq(x, s) == s.take(j) + seq![x] + s.skip(j),
    decreases s.len(),
{
    if s.len() == 0 {
        assert(s.take(0) + seq![x] + s.skip(0) == seq![x]);
    } else if j == 0 {
        assert(s.take(0) + seq![x] + s.skip(0) == seq![x] + s);
    } else {
        let r = s.drop_first();
        assert forall|i: int| 0 <= i < j - 1 implies #[trigger] r[i].0 <= x.0 by {
            assert(r[i] == s[i + 1]);
        }
        lemma_insert_split(x, r, j - 1);
        assert(s.take(j) + seq![x] + s.skip(j) == seq![s[0]] + (r.take(j - 1) + seq![x] + r.skip(
            j - 1,
        )));
    }
}

/// The element positions after inserting `y` at `j`.
proof fn lemma_insert_index(t: Seq<(u64, u16)>, y: (u64, u16), j: int)
    requires
        0 <= j <= t.len(),
    ensures
        ({
            let r = t.take(j) + seq![y] + t.skip(j);
            &&& r.len() == t.len() + 1
            &&& forall|i: int| 0 <= i < j ==> #[trigger] r[i] == t[i]
            &&& r[j] == y
            &&& forall|i: int| j < i < r.len() ==> #[trigger] r[i] == t[i - 1]
        }),
{
}

/// Sorting keeps the symbols: same length, no symbol twice, and every element
/// of the result is an element of the input and vice versa.
pub proof fn lemma_sort_syms(s: Seq<(u64, u16)>)
    requires
        syms_of(s).no_duplicates(),
    ensures
        sort_by_freq(s).len() == s.len(),
        syms_of(sort_by_freq(s)).no_duplicates(),
        forall|i: int|
            #![trigger s[i]]
            0 <= i < s.len() ==> exists|k: int| 0 <= k < s.len() && #[trigger] sort_by_freq(s)[k] == s[i],
        forall|i: int|
            #![trigger sort_by_freq(s)[i]]
            0 <= i < s.len() ==> exists|k: int| 0 <= k < s.len() && sort_by_freq(s)[i] == #[trigger] s[k],
    decreases s.len(),
{
    if s.len() > 0 {
        let p = s.drop_last();
        let y = s.last();
        assert(syms_of(p).no_duplicates()) by {
            let a = syms_of(p);
            assert forall|i: int, j: int| 0 <= i < a.len() && 0 <= j < a.len() && i != j implies a[i]
                != a[j] by {
                assert(a[i] == syms_of(s)[i] && a[j] == syms_of(s)[j]);
            }
        }
        lemma_sort_syms(p);
        let t = sort_by_freq(p);
        lemma_insert_point_exists(y, t, 0);
        let j = choose_insert_point(y, t);
        lemma_insert_split(y, t, j);
        lemma_insert_index(t, y, j);
        let r = sort_by_freq(s);
        assert(r == t.take(j) + seq![y] + t.skip(j));
        lemma_sort_step(s, p, t, r, j);
    }
}

proof fn lemma_sort_step(s: Seq<(u64, u16)>, p: Seq<(u64, u16)>, t: Seq<(u64, u16)>, r: Seq<(u64, u16)>, j: int)
    requires
        s.len() > 0,
        p == s.drop_last(),
        syms_of(s).no_duplicates(),
        t.len() == s.len() - 1,
        0 <= j <= t.len(),
        r.len() == s.len(),
        syms_of(t).no_duplicates(),
        forall|i: int|
            #![trigger p[i]]
            0 <= i < t.len() ==> exists|k: int| 0 <= k < t.len() && #[trigger] t[k] == p[i],
        forall|i: int|
            #![trigger t[i]]
            0 <= i < t.len() ==> exists|k: int| 0 <= k < t.len() && t[i] == #[trigger] p[k],
        forall|i: int| 0 <= i < j ==> #[trigger] r[i] == t[i],
        r[j] == s.last(),
        forall|i: int| j < i < r.len() ==> #[trigger] r[i] == t[i - 1],
    ensures
        syms_of(r).no_duplicates(),
        forall|i: int|
            #![trigger s[i]]
            0 <= i < s.len() ==> exists|k: int| 0 <= k < s.len() && #[trigger] r[k] == s[i],
        forall|i: int|
            #![trigger r[i]]
            0 <= i < s.len() ==> exists|k: int| 0 <= k < s.len() && r[i] == #[trigger] s[k],
{
    let n = s.len();
    // every element of t is an element of p, so its symbol differs from the last one
    assert forall|a: int| 0 <= a < t.len() implies #[trigger] t[a].1 != s.last().1 by {
        let k = choose|k: int| 0 <= k < t.len() && t[a] == #[trigger] p[k];
        assert(syms_of(s)[k] == p[k].1);
        assert(syms_of(s)[n - 1] == s.last().1);
    }
    assert(syms_of(r).no_duplicates()) by {
        let sr = syms_of(r);
        assert forall|a: int, b: int| 0 <= a < sr.len() && 0 <= b < sr.len() && a != b implies sr[a]
            != sr[b] by {
            let ia = if a < j {
                a
            } else {
                a - 1
            };
            let ib = if b < j {
                b
            } else {
                b - 1
            };
            if a != j && b != j {
                assert(syms_of(t)[ia] == t[ia].1);
                assert(syms_of(t)[ib] == t[ib].1);
            }
        }
    }
    assert forall|i: int| #![trigger s[i]] 0 <= i < n implies exists|k: int| 0 <= k < n && #[trigger] r[k] == s[i] by {
        if i == n - 1 {
            assert(r[j] == s[i]);
        } else {
            let a = choose|a: int| 0 <= a < t.len() && #[trigger] t[a] == p[i];
            if a < j {
                assert(r[a] == s[i]);
            } else {
                assert(r[a + 1] == s[i]);
            }
        }
    }
    assert forall|i: int| #![trigger r[i]] 0 <= i < n implies exists|k: int| 0 <= k < n && r[i] == #[trigger] s[k] by {
        if i == j {
            assert(r[i] == s[n - 1]);
        } else {
            let ia = if i < j {
                i
            } else {
                i - 1
            };
            let k = choose|k: int| 0 <= k < t.len() && t[ia] == #[trigger] p[k];
            assert(r[i] == s[k]);
        }
    }
}

/// `j` is where `x` goes: past every leading element of weight at most `x`'s.
pub open spec fn is_insert_point(x: (u64, u16), s: Seq<(u64, u16)>, j: int) -> bool {
    &&& 0 <= j <= s.len()
    &&& forall|i: int| 0 <= i < j ==> #[trigger] s[i].0 <= x.0
    &&& j < s.len() ==> s[j].0 > x.0
}

spec fn choose_insert_point(x: (u64, u16), s: Seq<(u64, u16)>) -> int {
    choose|j: int| is_insert_point(x, s, j)
}

proof fn lemma_insert_point_exists(x: (u64, u16), s: Seq<(u64, u16)>, j: int)
    requires
        0 <= j <= s.len(),
        forall|i: int| 0 <= i < j ==> #[trigger] s[i].0 <= x.0,
    ensures
        exists|k: int| is_insert_point(x, s, k),
    decreases s.len() - j,
{
    if j < s.len() && s[j].0 <= x.0 {
        lemma_insert_point_exists(x, s, j + 1);
    } else {
        assert(is_insert_point(x, s, j));
    }
}


// ───────────────────────────── weights stay small ─────────────────────────────

/// Every item weighs between 0 and `b`.
pub open spec fn weights_within(items: Seq<Item>, b: int) -> bool {
    forall|i: int| 0 <= i < items.len() ==> 0 <= #[trigger] items[i].0 <= b
}

/// Every package that the first `max_len - 1` rounds form has a weight that fits a `u64`.
pub open spec fn pm_fits(leaves: Seq<Item>, max_len: nat) -> bool {
    forall|t: nat| 1 <= t < max_len ==> weights_within(#[trigger] pair_items(pm_list(leaves, t)), u64::MAX as int)
}

proof fn lemma_pair_within(l: Seq<Item>, w: int)
    requires
        weights_within(l, w),
    ensures
        weights_within(pair_items(l), 2 * w),
{
    let p = pair_items(l);
    assert forall|i: int| 0 <= i < p.len() implies 0 <= #[trigger] p[i].0 <= 2 * w by {
        assert(p[i].0 == l[2 * i].0 + l[2 * i + 1].0);
    }
}

/// Leaf weights of at most 2^48 keep every package of up to 15 levels inside a `u64`.
pub proof fn lemma_pm_fits_bounded(leaves: Seq<Item>)
    requires
        weights_within(leaves, 0x1_0000_0000_0000),
    ensures
        pm_fits(leaves, 15),
{
    assert forall|t: nat| 1 <= t < 15 implies weights_within(
        #[trigger] pair_items(pm_list(leaves, t)),
        u64::MAX as int,
    ) by {
        lemma_pm_list_within(leaves, t, 0x1_0000_0000_0000);
        let w: int = pow2((t - 1) as nat) * 0x1_0000_0000_0000int;
        lemma_pair_within(pm_list(leaves, t), w);
        lemma_pow2_small();
        vstd::arithmetic::power2::lemma2_to64();
        vstd::arithmetic::power2::lemma_pow2_strictly_increases((t - 1) as nat, 14);
        assert(2 * w <= u64::MAX) by (nonlinear_arith)
            requires
                w == pow2((t - 1) as nat) * 0x1_0000_0000_0000,
                pow2((t - 1) as nat) <= 16384,
        ;
        let p = pair_items(pm_list(leaves, t));
        assert forall|i: int| 0 <= i < p.len() implies 0 <= #[trigger] p[i].0 <= u64::MAX as int by {
        }
    }
}

proof fn lemma_merge_within(a: Seq<Item>, b: Seq<Item>, w: int)
    requires
        weights_within(a, w),
        weights_within(b, w),
    ensures
        weights_within(merge_items(a, b), w),
    decreases a.len() + b.len(),
{
    if a.len() > 0 && b.len() > 0 {
        if a[0].0 <= b[0].0 {
            let a2 = a.drop_first();
            assert(weights_within(a2, w)) by {
                assert forall|i: int| 0 <= i < a2.len() implies 0 <= #[trigger] a2[i].0 <= w by {
                    assert(a2[i] == a[i + 1]);
                }
            }
            lemma_merge_within(a2, b, w);
            let m = merge_items(a, b);
            assert forall|i: int| 0 <= i < m.len() implies 0 <= #[trigger] m[i].0 <= w by {
                if i > 0 {
                    assert(m[i] == merge_items(a2, b)[i - 1]);
                }
            }
        } else {
            let b2 = b.drop_first();
            assert(weights_within(b2, w)) by {
                assert forall|i: int| 0 <= i < b2.len() implies 0 <= #[trigger] b2[i].0 <= w by {
                    assert(b2[i] == b[i + 1]);
                }
            }
            lemma_merge_within(a, b2, w);
            let m = merge_items(a, b);
            assert forall|i: int| 0 <= i < m.len() implies 0 <= #[trigger] m[i].0 <= w by {
                if i > 0 {
                    assert(m[i] == merge_items(a, b2)[i - 1]);
                }
            }
        }
    }
}

/// Items of list `t` weigh at most `2^(t-1)` times the heaviest leaf.
proof fn lemma_pm_list_within(lv: Seq<Item>, t: nat, b: int)
    requires
        t >= 1,
        b >= 0,
        weights_within(lv, b),
    ensures
        weights_within(pm_list(lv, t), pow2((t - 1) as nat) * b),
    decreases t,
{
    lemma_pow2_small();
    lemma_pow2_pos((t - 1) as nat);
    if t == 1 {
        assert(pow2(0) * b == b);
    } else {
        lemma_pm_list_within(lv, (t - 1) as nat, b);
        let prev = pm_list(lv, (t - 1) as nat);
        let pb = pow2((t - 2) as nat) * b;
        let w = pow2((t - 1) as nat) * b;
        lemma_pow2_unfold((t - 1) as nat);
        lemma_pow2_pos((t - 2) as nat);
        assert(w == 2 * pb) by (nonlinear_arith)
            requires
                w == pow2((t - 1) as nat) * b,
                pb == pow2((t - 2) as nat) * b,
                pow2((t - 1) as nat) == 2 * pow2((t - 2) as nat),
        ;
        assert(b <= w) by (nonlinear_arith)
            requires
                w == pow2((t - 1) as nat) * b,
                pow2((t - 1) as nat) >= 1,
                b >= 0,
        ;
        let pr = pair_items(prev);
        assert(weights_within(pr, w));
        assert(weights_within(lv, w));
        lemma_merge_within(lv, pr, w);
    }
}

// ───────────────────────────── executable ─────────────────────────────

/// The mathematical list of a list of `(weight, symbols)` items.
pub open spec fn view_items(v: Seq<(u64, Vec<u16>)>) -> Seq<Item> {
    Seq::new(v.len(), |i: int| (v[i].0 as int, v[i].1@))
}

fn copy_syms(s: &Vec<u16>) -> (out: Vec<u16>)
    ensures
        out@ == s@,
{
    let mut out: Vec<u16> = Vec::new();
    let mut i: usize = 0;
    while i < s.len()
        invariant
            i <= s@.len(),
            out@ == s@.take(i as int),
        decreases s@.len() - i,
    {
        out.push(s[i]);
        i += 1;
        assert(out@ == s@.take(i as int));
    }
    assert(s@.take(s@.len() as int) == s@);
    out
}

/// Stable sort of the symbols by weight (insertion sort).
fn sort_by_weight(symbols: &[(u64, u16)]) -> (out: Vec<(u64, u16)>)
    ensures
        out@ == sort_by_freq(symbols@),
{
    let mut out: Vec<(u64, u16)> = Vec::new();
    let mut k: usize = 0;
    while k < symbols.len()
        invariant
            k <= symbols@.len(),
            out@ == sort_by_freq(symbols@.take(k as int)),
        decreases symbols@.len() - k,
    {
        let x = symbols[k];
        let mut j: usize = 0;
        while j < out.len() && out[j].0 <= x.0
            invariant
                j <= out@.len(),
                forall|i: int| 0 <= i < j ==> #[trigger] out@[i].0 <= x.0,
            decreases out@.len() - j,
        {
            j += 1;
        }
        proof {
            lemma_insert_split(x, out@, j as int);
            let p = symbols@.take(k + 1);
            assert(p.drop_last() == symbols@.take(k as int));
            assert(p.last() == x);
        }
        out.insert(j, x);
        assert(out@ == out@.take(0) + out@);
        k += 1;
    }
    assert(symbols@.take(symbols@.len() as int) == symbols@);
    out
}

fn make_leaves(sorted: &Vec<(u64, u16)>) -> (items: Vec<(u64, Vec<u16>)>)
    ensures
        view_items(items@) == leaf_items(sorted@),
{
    let mut items: Vec<(u64, Vec<u16>)> = Vec::new();
    let mut i: usize = 0;
    while i < sorted.len()
        invariant
            i <= sorted@.len(),
            view_items(items@) == leaf_items(sorted@.take(i as int)),
        decreases sorted@.len() - i,
    {
        let (f, s) = sorted[i];
        let mut one: Vec<u16> = Vec::new();
        one.push(s);
        assert(one@ == seq![s]);
        let ghost before = view_items(items@);
        items.push((f, one));
        proof {
            assert(view_items(items@) =~= before.push((f as int, seq![s])));
            assert(leaf_items(sorted@.take(i + 1)) =~= leaf_items(sorted@.take(i as int)).push(
                (f as int, seq![s]),
            ));
        }
        i += 1;
    }
    assert(sorted@.take(sorted@.len() as int) == sorted@);
    items
}

fn package(items: &Vec<(u64, Vec<u16>)>) -> (out: Vec<(u64, Vec<u16>)>)
    requires
        weights_within(pair_items(view_items(items@)), u64::MAX as int),
    ensures
        view_items(out@) == pair_items(view_items(items@)),
{
    let ghost v = view_items(items@);
    let mut out: Vec<(u64, Vec<u16>)> = Vec::new();
    let mut i: usize = 0;
    while i + 1 < items.len()
        invariant
            v == view_items(items@),
            weights_within(pair_items(v), u64::MAX as int),
            i % 2 == 0,
            i <= items@.len(),
            view_items(out@) == pair_items(v).take((i / 2) as int),
        decreases items@.len() - i,
    {
        let i1 = i + 1;
        assert(v[i as int].0 == items@[i as int].0);
        assert(v[i1 as int].0 == items@[i1 as int].0);
        assert(pair_items(v)[(i / 2) as int].0 == v[i as int].0 + v[i1 as int].0);
        let merged_freq = items[i].0 + items[i1].0;
        let mut merged_syms = copy_syms(&items[i].1);
        let mut j: usize = 0;
        let ghost base = merged_syms@;
        while j < items[i1].1.len()
            invariant
                i1 < items@.len(),
                j <= items@[i1 as int].1@.len(),
                merged_syms@ == base + items@[i1 as int].1@.take(j as int),
            decreases items@[i1 as int].1@.len() - j,
        {
            merged_syms.push(items[i1].1[j]);
            j += 1;
            assert(merged_syms@ == base + items@[i1 as int].1@.take(j as int));
        }
        assert(items@[i1 as int].1@.take(j as int) == items@[i1 as int].1@);
        let ghost k: int = (i / 2) as int;
        let ghost before = view_items(out@);
        assert(2 * k == i);
        out.push((merged_freq, merged_syms));
        proof {
            assert(view_items(out@) =~= before.push(
                (v[i as int].0 + v[i1 as int].0, v[i as int].1 + v[i1 as int].1),
            ));
            assert(pair_items(v)[k] == (v[2 * k].0 + v[2 * k + 1].0, v[2 * k].1 + v[2 * k + 1].1));
            assert(pair_items(v).take(k + 1) =~= pair_items(v).take(k).push(pair_items(v)[k]));
        }
        i += 2;
        assert((i / 2) as int == k + 1);
    }
    assert(pair_items(v).take((i / 2) as int) == pair_items(v));
    out
}

fn copy_item(x: &(u64, Vec<u16>)) -> (y: (u64, Vec<u16>))
    ensures
        y.0 == x.0,
        y.1@ == x.1@,
{
    (x.0, copy_syms(&x.1))
}

/// Merge two lists sorted by weight (stable: ties take `a` first).
fn merge_sorted(a: Vec<(u64, Vec<u16>)>, b: Vec<(u64, Vec<u16>)>) -> (out: Vec<(u64, Vec<u16>)>)
    ensures
        view_items(out@) == merge_items(view_items(a@), view_items(b@)),
{
    let ghost va = view_items(a@);
    let ghost vb = view_items(b@);
    let mut out: Vec<(u64, Vec<u16>)> = Vec::new();
    let mut ai: usize = 0;
    let mut bi: usize = 0;
    assert(va.skip(0) == va);
    assert(vb.skip(0) == vb);
    assert(view_items(out@) + merge_items(va, vb) == merge_items(va, vb));
    while ai < a.len() && bi < b.len()
        invariant
            va == view_items(a@),
            vb == view_items(b@),
            ai <= a@.len(),
            bi <= b@.len(),
            view_items(out@) + merge_items(va.skip(ai as int), vb.skip(bi as int)) == merge_items(
                va,
                vb,
            ),
        decreases a@.len() + b@.len() - ai - bi,
    {
        let ghost sa = va.skip(ai as int);
        let ghost sb = vb.skip(bi as int);
        assert(sa[0] == va[ai as int]);
        assert(sb[0] == vb[bi as int]);
        assert(sa.drop_first() == va.skip(ai + 1));
        assert(sb.drop_first() == vb.skip(bi + 1));
        if a[ai].0 <= b[bi].0 {
            out.push(copy_item(&a[ai]));
            ai += 1;
        } else {
            out.push(copy_item(&b[bi]));
            bi += 1;
        }
        assert(view_items(out@) =~= view_items(out@).drop_last().push(view_items(out@).last()));
    }
    while ai < a.len()
        invariant
            va == view_items(a@),
            vb == view_items(b@),
            ai <= a@.len(),
            bi <= b@.len(),
            ai < a@.len() ==> bi == b@.len(),
            view_items(out@) + merge_items(va.skip(ai as int), vb.skip(bi as int)) == merge_items(
                va,
                vb,
            ),
        decreases a@.len() - ai,
    {
        let ghost sa = va.skip(ai as int);
        assert(vb.skip(bi as int) == Seq::<Item>::empty());
        assert(sa[0] == va[ai as int]);
        assert(sa == seq![sa[0]] + va.skip(ai + 1));
        assert(merge_items(sa, Seq::<Item>::empty()) == sa);
        assert(merge_items(va.skip(ai + 1), Seq::<Item>::empty()) == va.skip(ai + 1));
        out.push(copy_item(&a[ai]));
        ai += 1;
        assert(view_items(out@) =~= view_items(out@).drop_last().push(view_items(out@).last()));
    }
    while bi < b.len()
        invariant
            va == view_items(a@),
            vb == view_items(b@),
            ai == a@.len(),
            bi <= b@.len(),
            view_items(out@) + merge_items(va.skip(ai as int), vb.skip(bi as int)) == merge_items(
                va,
                vb,
            ),
        decreases b@.len() - bi,
    {
        let ghost sb = vb.skip(bi as int);
        assert(va.skip(ai as int) == Seq::<Item>::empty());
        assert(sb[0] == vb[bi as int]);
        assert(sb == seq![sb[0]] + vb.skip(bi + 1));
        out.push(copy_item(&b[bi]));
        bi += 1;
        assert(view_items(out@) =~= view_items(out@).drop_last().push(view_items(out@).last()));
    }
    assert(va.skip(ai as int) == Seq::<Item>::empty());
    assert(vb.skip(bi as int) == Seq::<Item>::empty());
    assert(view_items(out@) + Seq::<Item>::empty() == view_items(out@));
    out
}

proof fn lemma_count_prefix(s: Seq<u16>, j: int, x: u16)
    requires
        0 <= j < s.len(),
    ensures
        count_sym(s.take(j + 1), x) == count_sym(s.take(j), x) + if s[j] == x {
            1nat
        } else {
            0nat
        },
        count_sym(s.take(j), x) <= count_sym(s, x),
    decreases s.len() - j,
{
    assert(s.take(j + 1).drop_last() == s.take(j));
    if j + 1 < s.len() {
        lemma_count_prefix(s, j + 1, x);
    } else {
        assert(s.take(j + 1) == s);
    }
}

proof fn lemma_occ_prefix(l: Seq<Item>, i: int, x: u16)
    requires
        0 <= i < l.len(),
    ensures
        occ(l.take(i + 1), x) == occ(l.take(i), x) + count_sym(l[i].1, x),
        occ(l.take(i + 1), x) <= occ(l, x),
    decreases l.len() - i,
{
    assert(l.take(i + 1).drop_last() == l.take(i));
    if i + 1 < l.len() {
        lemma_occ_prefix(l, i + 1, x);
    } else {
        assert(l.take(i + 1) == l);
    }
}

/// Code lengths for `symbols` over an alphabet of `alphabet` symbols, each at most `max_len`.
///
/// The symbols must be distinct and `max_len` at most 15: then no symbol occurs
/// in more than `max_len` of the selected items, so the `u8` counters cannot
/// overflow. Its one caller, `HuffmanTable::build`, passes the distinct coded
/// symbols of a frequency table and the code-length limit 15.
pub(crate) fn package_merge(symbols: &[(u64, u16)], alphabet: usize, max_len: usize) -> (counts: Vec<u8>)
    requires
        1 <= max_len <= 15,
        alphabet <= 65536,
        symbols@.len() <= 65536,
        syms_of(symbols@).no_duplicates(),
        pm_fits(leaf_items(sort_by_freq(symbols@)), max_len as nat),
    ensures
        counts@ == pm_lengths(sort_by_freq(symbols@), alphabet as nat, max_len as nat),
{
    let sorted = sort_by_weight(symbols);
    let ghost lv = leaf_items(sorted@);
    proof {
        lemma_sort_syms(symbols@);
    }
    let mut items = make_leaves(&sorted);
    let mut r: usize = 0;
    while r + 1 < max_len
        invariant
            1 <= max_len <= 15,
            r + 1 <= max_len,
            lv == leaf_items(sorted@),
            pm_fits(lv, max_len as nat),
            view_items(items@) == pm_list(lv, (r + 1) as nat),
        decreases max_len - r,
    {
        assert(weights_within(pair_items(pm_list(lv, (r + 1) as nat)), u64::MAX as int));
        let packages = package(&items);
        let leaves = make_leaves(&sorted);
        items = merge_sorted(leaves, packages);
        r += 1;
    }
    let n = sorted.len();
    let want = if n >= 1 { 2 * n - 2 } else { 0 };
    let take = if want <= items.len() { want } else { items.len() };
    let ghost l = view_items(items@);
    let ghost sel = l.take(take as int);
    assert(take as nat == pm_take(n as nat, l.len()));
    proof {
        assert(syms_of(sorted@).no_duplicates());
    }

    let mut counts: Vec<u8> = Vec::new();
    let mut x: usize = 0;
    while x < alphabet
        invariant
            x <= alphabet,
            counts@ == Seq::new(x as nat, |y: int| 0u8),
        decreases alphabet - x,
    {
        counts.push(0);
        x += 1;
        assert(counts@ =~= Seq::new(x as nat, |y: int| 0u8));
    }
    let mut i: usize = 0;
    while i < take
        invariant
            l == view_items(items@),
            sel == l.take(take as int),
            take <= items@.len(),
            i <= take,
            1 <= max_len <= 15,
            l == pm_list(lv, max_len as nat),
            lv == leaf_items(sorted@),
            syms_of(sorted@).no_duplicates(),
            alphabet <= 65536,
            counts@.len() == alphabet,
            forall|y: int| 0 <= y < alphabet ==> #[trigger] counts@[y] as nat == occ(sel.take(i as int), y as u16),
        decreases take - i,
    {
        let mut j: usize = 0;
        while j < items[i].1.len()
            invariant
                l == view_items(items@),
                sel == l.take(take as int),
                take <= items@.len(),
                i < take,
                1 <= max_len <= 15,
                l == pm_list(lv, max_len as nat),
                lv == leaf_items(sorted@),
                syms_of(sorted@).no_duplicates(),
                alphabet <= 65536,
                counts@.len() == alphabet,
                j <= items@[i as int].1@.len(),
                forall|y: int|
                    0 <= y < alphabet ==> #[trigger] counts@[y] as nat == occ(sel.take(i as int), y as u16)
                        + count_sym(items@[i as int].1@.take(j as int), y as u16),
            decreases items@[i as int].1@.len() - j,
        {
            let sym = items[i].1[j];
            if (sym as usize) < alphabet {
                proof {
                    let y = sym as u16;
                    lemma_count_prefix(items@[i as int].1@, j as int, y);
                    assert(sel[i as int] == l[i as int]);
                    assert(l[i as int].1 == items@[i as int].1@);
                    lemma_occ_prefix(sel, i as int, y);
                    lemma_width(sorted@, max_len as nat, take as nat, y);
                    assert(sel.take(i + 1) == l.take(take as int).take(i + 1));
                    assert(occ(sel, y) <= max_len);
                }
                counts.set(sym as usize, counts[sym as usize] + 1);
            }
            proof {
                assert forall|y: int| 0 <= y < alphabet implies #[trigger] counts@[y] as nat == occ(
                    sel.take(i as int),
                    y as u16,
                ) + count_sym(items@[i as int].1@.take(j + 1), y as u16) by {
                    lemma_count_prefix(items@[i as int].1@, j as int, y as u16);
                }
            }
            j += 1;
        }
        proof {
            assert(items@[i as int].1@.take(j as int) == items@[i as int].1@);
            assert forall|y: int| 0 <= y < alphabet implies #[trigger] counts@[y] as nat == occ(
                sel.take(i + 1),
                y as u16,
            ) by {
                lemma_occ_prefix(sel, i as int, y as u16);
                assert(sel[i as int] == l[i as int]);
            }
        }
        i += 1;
    }
    proof {
        assert(sel.take(take as int) == sel);
        assert(counts@ =~= pm_lengths(sorted@, alphabet as nat, max_len as nat));
    }
    counts
}

} // verus!
