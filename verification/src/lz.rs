//! LZ77-style hash chain and token types for MOLZ.
//!
//! Hash function: `v.wrapping_mul(0x9E3779B9) >> 16` → 64K table.
//! Minimum match length = 4.  Maximum match length = 258.
//! Maximum match distance = 32768.
use vstd::prelude::*;
use vstd::bytes::{spec_u32_from_le_bytes, u32_from_le_bytes};
use vstd::slice::slice_subrange;

verus! {

pub const MIN_MATCH: usize = 4;

pub const MAX_MATCH: usize = 258;

pub const MAX_DIST: usize = 32768;

const HASH_SIZE: usize = 65536;

/// A single LZ token (either a literal byte or a back-reference).
#[derive(Debug, Clone, Copy, PartialEq, Eq)]
pub enum Token {
    Literal(u8),
    Match { distance: u16, length: u16 },
}

/// Marker of an empty chain slot.
pub open spec fn no_pos() -> u32 {
    0xFFFF_FFFFu32
}

// ───────────────────────────── decoding ─────────────────────────────

/// The bytes a back-reference appends to `out`. A distance of 0 or past the
/// start of `out` is clamped into `1..=out.len()`; nothing precedes an empty
/// `out`, so zeros are copied then.
pub open spec fn match_bytes(out: Seq<u8>, distance: u16, length: u16) -> Seq<u8> {
    let n = out.len() as int;
    let safe = safe_distance(n, distance as int);
    let start = n - safe;
    Seq::new(length as nat, |i: int| if n == 0 { 0u8 } else { out[start + i % safe] })
}

/// The distance a back-reference copies from, once clamped into `1..=max(n, 1)`.
pub open spec fn safe_distance(n: int, d: int) -> int {
    if d == 0 || d > n {
        if n == 0 || d == 0 {
            1
        } else {
            n
        }
    } else {
        d
    }
}

/// Appends the bytes of one token.
pub open spec fn apply_token(out: Seq<u8>, t: Token) -> Seq<u8> {
    match t {
        Token::Literal(b) => out.push(b),
        Token::Match { distance, length } => out + match_bytes(out, distance, length),
    }
}

/// The bytes a token stream decodes to.
pub open spec fn spec_detokenise(tokens: Seq<Token>) -> Seq<u8>
    decreases tokens.len(),
{
    if tokens.len() == 0 {
        Seq::empty()
    } else {
        apply_token(spec_detokenise(tokens.drop_last()), tokens.last())
    }
}

/// Decode a token stream back into bytes.
pub fn detokenise(tokens: &[Token], capacity_hint: usize) -> (out: Vec<u8>)
    ensures
        out@ == spec_detokenise(tokens@),
{
    let mut out: Vec<u8> = Vec::new();
    let mut k: usize = 0;
    while k < tokens.len()
        invariant
            k <= tokens@.len(),
            out@ == spec_detokenise(tokens@.subrange(0, k as int)),
        decreases tokens@.len() - k,
    {
        let ghost before = out@;
        match tokens[k] {
            Token::Literal(b) => out.push(b),
            Token::Match { distance, length } => {
                let dist = distance as usize;
                let len = length as usize;
                let n = out.len();
                let safe_dist: usize = if dist == 0 || dist > n {
                    let d1 = if dist > 1 { dist } else { 1 };
                    let n1 = if n > 1 { n } else { 1 };
                    if d1 < n1 { d1 } else { n1 }
                } else {
                    dist
                };
                let start = if n >= safe_dist { n - safe_dist } else { 0 };
                assert(safe_dist as int == safe_distance(n as int, distance as int));
                let mut i: usize = 0;
                while i < len
                    invariant
                        n == before.len(),
                        1 <= safe_dist,
                        safe_dist as int == safe_distance(n as int, distance as int),
                        n > 0 ==> start + safe_dist == n,
                        i <= len,
                        len == length,
                        out@ == before + match_bytes(before, distance, length).subrange(0, i as int),
                    decreases len - i,
                {
                    let b = if n == 0 { 0 } else { out[start + i % safe_dist] };
                    proof {
                        let mb = match_bytes(before, distance, length);
                        assert(mb.len() == len);
                        let sd = safe_distance(n as int, distance as int);
                        assert(sd == safe_dist);
                        if n > 0 {
                            assert(i % safe_dist < safe_dist);
                            assert(out@[start + i % safe_dist] == before[start + i % safe_dist]);
                            assert(mb[i as int] == before[(n - sd) + (i as int) % sd]);
                            assert((n - sd) + (i as int) % sd == start + i % safe_dist);
                        } else {
                            assert(mb[i as int] == 0u8);
                        }
                        assert(b == mb[i as int]);
                    }
                    out.push(b);
                    i += 1;
                    proof {
                        assert(out@ == before + match_bytes(before, distance, length).subrange(
                            0,
                            i as int,
                        ));
                    }
                }
                assert(match_bytes(before, distance, length).subrange(0, len as int) == match_bytes(
                    before,
                    distance,
                    length,
                ));
            },
        }
        proof {
            let p = tokens@.subrange(0, k + 1);
            assert(p.drop_last() == tokens@.subrange(0, k as int));
        }
        k += 1;
    }
    assert(tokens@.subrange(0, tokens@.len() as int) == tokens@);
    out
}

// ───────────────────────────── matching ─────────────────────────────

/// Length of the common run of `data` starting at `a` and at `b`, at most `maxl`.
pub open spec fn common_len(data: Seq<u8>, a: int, b: int, maxl: nat) -> nat
    decreases maxl,
{
    if maxl == 0 || a < 0 || b < 0 || a >= data.len() || b >= data.len() || data[a] != data[b] {
        0
    } else {
        1 + common_len(data, a + 1, b + 1, (maxl - 1) as nat)
    }
}

/// The 16-bit hash of the four bytes at `pos` (0 when fewer than four remain).
pub open spec fn spec_hash4(data: Seq<u8>, pos: int) -> int {
    if pos + 4 > data.len() {
        0
    } else {
        (((spec_u32_from_le_bytes(data.subrange(pos, pos + 4)).wrapping_mul(0x9E37_79B9u32))
            >> 16u32) & 0xFFFFu32) as int
    }
}

/// The positions visited walking a hash chain from `cur`: at most `steps` of
/// them, stopping at an empty slot or at a position below `limit`.
pub open spec fn chain_walk(links: Seq<u32>, cur: u32, steps: nat, limit: int) -> Seq<int>
    decreases steps,
{
    if steps == 0 || cur == no_pos() || (cur as int) < limit {
        Seq::empty()
    } else {
        seq![cur as int] + chain_walk(links, links[cur as int], (steps - 1) as nat, limit)
    }
}

/// The longest run among the candidates (the first one on ties), starting from
/// the best `(length, distance)` so far.
pub open spec fn scan(data: Seq<u8>, cands: Seq<int>, pos: int, maxl: nat, bl: nat, bd: int) -> (
    nat,
    int,
)
    decreases cands.len(),
{
    if cands.len() == 0 {
        (bl, bd)
    } else {
        let c = cands[0];
        if c == pos {
            scan(data, cands.drop_first(), pos, maxl, bl, bd)
        } else {
            let l = common_len(data, c, pos, maxl);
            if l > bl {
                scan(data, cands.drop_first(), pos, maxl, l, pos - c)
            } else {
                scan(data, cands.drop_first(), pos, maxl, bl, bd)
            }
        }
    }
}

/// Lowest position a match at `pos` may start from.
pub open spec fn dist_limit(pos: int) -> int {
    if pos > MAX_DIST {
        pos - MAX_DIST
    } else {
        0
    }
}

/// Longest match length available at `pos`.
pub open spec fn max_len_at(data: Seq<u8>, pos: int) -> nat {
    let rest = data.len() - pos;
    if rest < MAX_MATCH {
        rest as nat
    } else {
        MAX_MATCH as nat
    }
}

/// The best `(length, distance)` found by the chain search at `pos`.
pub open spec fn best_match(data: Seq<u8>, heads: Seq<u32>, links: Seq<u32>, depth: nat, pos: int) -> (
    nat,
    int,
) {
    let h = spec_hash4(data, pos);
    scan(data, chain_walk(links, heads[h], depth, dist_limit(pos)), pos, max_len_at(data, pos), 3, 0)
}

/// The match the chain search reports at `pos`, if one of length ≥ MIN_MATCH exists.
pub open spec fn spec_find(data: Seq<u8>, heads: Seq<u32>, links: Seq<u32>, depth: nat, pos: int) -> Option<
    (u16, u16),
> {
    if pos + MIN_MATCH > data.len() {
        None
    } else {
        let (bl, bd) = best_match(data, heads, links, depth, pos);
        if bl >= MIN_MATCH {
            Some((bd as u16, bl as u16))
        } else {
            None
        }
    }
}

/// The chain after inserting `pos`.
pub open spec fn spec_insert(heads: Seq<u32>, links: Seq<u32>, data: Seq<u8>, pos: int) -> (
    Seq<u32>,
    Seq<u32>,
) {
    let h = spec_hash4(data, pos);
    (heads.update(h, pos as u32), links.update(pos, heads[h]))
}

/// The chain after inserting the positions `from..to` that lie inside `data`.
pub open spec fn insert_run(heads: Seq<u32>, links: Seq<u32>, data: Seq<u8>, from: int, to: int) -> (
    Seq<u32>,
    Seq<u32>,
)
    decreases to - from,
{
    if from >= to {
        (heads, links)
    } else {
        let (h, l) = if from < data.len() {
            spec_insert(heads, links, data, from)
        } else {
            (heads, links)
        };
        insert_run(h, l, data, from + 1, to)
    }
}

/// Every chain slot is empty or a position in `0..bound`.
pub open spec fn slots_below(s: Seq<u32>, bound: int) -> bool {
    forall|i: int| 0 <= i < s.len() ==> #[trigger] s[i] == no_pos() || (s[i] as int) < bound
}

proof fn lemma_common_len_bound(data: Seq<u8>, a: int, b: int, maxl: nat)
    ensures
        common_len(data, a, b, maxl) <= maxl,
    decreases maxl,
{
    if !(maxl == 0 || a < 0 || b < 0 || a >= data.len() || b >= data.len() || data[a] != data[b]) {
        lemma_common_len_bound(data, a + 1, b + 1, (maxl - 1) as nat);
    }
}

proof fn lemma_common_len_at(data: Seq<u8>, a: int, b: int, maxl: nat, i: int)
    requires
        0 <= i < common_len(data, a, b, maxl),
    ensures
        0 <= a + i < data.len(),
        0 <= b + i < data.len(),
        data[a + i] == data[b + i],
    decreases maxl,
{
    if i > 0 {
        lemma_common_len_at(data, a + 1, b + 1, (maxl - 1) as nat, i - 1);
        assert(a + 1 + (i - 1) == a + i);
        assert(b + 1 + (i - 1) == b + i);
    }
}

proof fn lemma_chain_walk(links: Seq<u32>, cur: u32, steps: nat, limit: int, bound: int)
    requires
        slots_below(links, bound),
        bound <= links.len(),
        cur == no_pos() || (cur as int) < bound,
    ensures
        forall|i: int|
            0 <= i < chain_walk(links, cur, steps, limit).len() ==> limit <= #[trigger] chain_walk(
                links,
                cur,
                steps,
                limit,
            )[i] < bound,
    decreases steps,
{
    if !(steps == 0 || cur == no_pos() || (cur as int) < limit) {
        let rest = links[cur as int];
        assert(rest == no_pos() || (rest as int) < bound);
        lemma_chain_walk(links, rest, (steps - 1) as nat, limit, bound);
        let w = chain_walk(links, cur, steps, limit);
        assert forall|i: int| 0 <= i < w.len() implies limit <= #[trigger] w[i] < bound by {
            if i > 0 {
                assert(w[i] == chain_walk(links, rest, (steps - 1) as nat, limit)[i - 1]);
            }
        }
    }
}


proof fn lemma_scan_saturated(data: Seq<u8>, cands: Seq<int>, pos: int, maxl: nat, bl: nat, bd: int)
    requires
        bl >= maxl,
    ensures
        scan(data, cands, pos, maxl, bl, bd) == (bl, bd),
    decreases cands.len(),
{
    if cands.len() > 0 {
        lemma_common_len_bound(data, cands[0], pos, maxl);
        lemma_scan_saturated(data, cands.drop_first(), pos, maxl, bl, bd);
    }
}

/// The result of a scan is its starting point or the run of one of the candidates.
pub proof fn lemma_scan_result(data: Seq<u8>, cands: Seq<int>, pos: int, maxl: nat, bl: nat, bd: int)
    ensures
        ({
            let (rl, rd) = scan(data, cands, pos, maxl, bl, bd);
            &&& rl >= bl
            &&& (rl <= maxl || rl == bl)
            &&& ((rl, rd) == (bl, bd) || exists|i: int|
                0 <= i < cands.len() && #[trigger] cands[i] != pos && rl == common_len(
                    data,
                    cands[i],
                    pos,
                    maxl,
                ) && rd == pos - cands[i])
        }),
    decreases cands.len(),
{
    if cands.len() > 0 {
        let c = cands[0];
        let rest = cands.drop_first();
        lemma_common_len_bound(data, c, pos, maxl);
        let l = common_len(data, c, pos, maxl);
        if c == pos {
            lemma_scan_result(data, rest, pos, maxl, bl, bd);
        } else if l > bl {
            lemma_scan_result(data, rest, pos, maxl, l, pos - c);
        } else {
            lemma_scan_result(data, rest, pos, maxl, bl, bd);
        }
        let (rl, rd) = scan(data, cands, pos, maxl, bl, bd);
        if (rl, rd) != (bl, bd) {
            if c != pos && l > bl && (rl, rd) == (l, pos - c) {
                assert(cands[0] != pos);
            } else {
                let (b2, d2) = if c != pos && l > bl {
                    (l, pos - c)
                } else {
                    (bl, bd)
                };
                let i = choose|i: int|
                    0 <= i < rest.len() && #[trigger] rest[i] != pos && rl == common_len(
                        data,
                        rest[i],
                        pos,
                        maxl,
                    ) && rd == pos - rest[i];
                assert(cands[i + 1] == rest[i]);
            }
        }
    }
}

/// A match reported by the chain search is a genuine earlier copy.
pub proof fn lemma_find_sound(data: Seq<u8>, heads: Seq<u32>, links: Seq<u32>, depth: nat, pos: int)
    requires
        0 <= pos,
        heads.len() == 65536,
        slots_below(heads, pos + 1),
        slots_below(links, pos + 1),
        pos + 1 <= links.len(),
    ensures
        spec_find(data, heads, links, depth, pos) matches Some((d, l)) ==> {
            &&& MIN_MATCH <= l <= MAX_MATCH
            &&& 1 <= d <= MAX_DIST
            &&& d <= pos
            &&& pos + l <= data.len()
            &&& forall|i: int| 0 <= i < l ==> #[trigger] data[pos - d + i] == data[pos + i]
        },
{
    if pos + MIN_MATCH <= data.len() {
        let h = spec_hash4(data, pos);
        let limit = dist_limit(pos);
        let maxl = max_len_at(data, pos);
        let start = heads[h];
        let m = spec_u32_from_le_bytes(data.subrange(pos, pos + 4)).wrapping_mul(0x9E37_79B9u32);
        assert((m >> 16u32) & 0xFFFFu32 <= 0xFFFFu32) by (bit_vector);
        let w = chain_walk(links, start, depth, limit);
        lemma_chain_walk(links, start, depth, limit, pos + 1);
        lemma_scan_result(data, w, pos, maxl, 3, 0);
        let (bl, bd) = scan(data, w, pos, maxl, 3, 0);
        if bl >= MIN_MATCH {
            let i = choose|i: int|
                0 <= i < w.len() && #[trigger] w[i] != pos && bl == common_len(data, w[i], pos, maxl)
                    && bd == pos - w[i];
            let c = w[i];
            assert(limit <= c < pos + 1);
            assert forall|j: int| 0 <= j < bl implies #[trigger] data[pos - (bd as u16) + j] == data[pos + j] by {
                lemma_common_len_at(data, c, pos, maxl, j);
            }
        }
    }
}

/// The scan keeps a greatest run, and of the candidates with that run the first one.
proof fn lemma_scan_best(data: Seq<u8>, cands: Seq<int>, pos: int, maxl: nat, bl: nat, bd: int)
    ensures
        ({
            let (rl, rd) = scan(data, cands, pos, maxl, bl, bd);
            &&& rl >= bl
            &&& forall|i: int|
                0 <= i < cands.len() && #[trigger] cands[i] != pos ==> common_len(data, cands[i], pos, maxl)
                    <= rl
            &&& rl == bl ==> rd == bd
            &&& rl > bl ==> exists|k: int|
                0 <= k < cands.len() && #[trigger] cands[k] != pos && common_len(data, cands[k], pos, maxl)
                    == rl && rd == pos - cands[k] && forall|j: int|
                    0 <= j < k && cands[j] != pos ==> common_len(data, cands[j], pos, maxl) < rl
        }),
    decreases cands.len(),
{
    if cands.len() > 0 {
        let c = cands[0];
        let rest = cands.drop_first();
        let l = common_len(data, c, pos, maxl);
        let (nb, nd) = if c == pos {
            (bl, bd)
        } else if l > bl {
            (l, pos - c)
        } else {
            (bl, bd)
        };
        lemma_scan_best(data, rest, pos, maxl, nb, nd);
        let (rl, rd) = scan(data, cands, pos, maxl, bl, bd);
        assert((rl, rd) == scan(data, rest, pos, maxl, nb, nd));
        assert forall|i: int| 0 <= i < cands.len() && #[trigger] cands[i] != pos implies common_len(
            data,
            cands[i],
            pos,
            maxl,
        ) <= rl by {
            if i > 0 {
                assert(cands[i] == rest[i - 1]);
            }
        }
        if rl > bl {
            if c != pos && l > bl && rl == l {
                assert(rd == pos - c);
                assert(cands[0] != pos);
            } else {
                let k = choose|k: int|
                    0 <= k < rest.len() && #[trigger] rest[k] != pos && common_len(data, rest[k], pos, maxl)
                        == rl && rd == pos - rest[k] && forall|j: int|
                        0 <= j < k && rest[j] != pos ==> common_len(data, rest[j], pos, maxl) < rl;
                assert(cands[k + 1] == rest[k]);
                assert forall|j: int| 0 <= j < k + 1 && cands[j] != pos implies common_len(
                    data,
                    cands[j],
                    pos,
                    maxl,
                ) < rl by {
                    if j > 0 {
                        assert(cands[j] == rest[j - 1]);
                    }
                }
            }
        }
    }
}

/// Every link of the chain points to an earlier position (or nowhere).
pub open spec fn chain_ordered(links: Seq<u32>) -> bool {
    forall|p: int| 0 <= p < links.len() ==> #[trigger] links[p] == no_pos() || (links[p] as int) < p
}

/// Inserting a position above every slot keeps the chain ordered.
pub proof fn lemma_insert_ordered(heads: Seq<u32>, links: Seq<u32>, data: Seq<u8>, pos: int)
    requires
        heads.len() == 65536,
        0 <= pos < links.len(),
        slots_below(heads, pos),
        chain_ordered(links),
    ensures
        chain_ordered(spec_insert(heads, links, data, pos).1),
{
    let h = spec_hash4(data, pos);
    let m = spec_u32_from_le_bytes(data.subrange(pos, pos + 4)).wrapping_mul(0x9E37_79B9u32);
    assert((m >> 16u32) & 0xFFFFu32 <= 0xFFFFu32) by (bit_vector);
    let l2 = spec_insert(heads, links, data, pos).1;
    assert forall|p: int| 0 <= p < l2.len() implies #[trigger] l2[p] == no_pos() || (l2[p] as int) < p by {
        if p == pos {
            assert(l2[p] == heads[h]);
        }
    }
}

proof fn lemma_walk_decreasing(links: Seq<u32>, cur: u32, steps: nat, limit: int)
    requires
        chain_ordered(links),
        cur == no_pos() || (cur as int) < links.len(),
        slots_below(links, links.len() as int),
    ensures
        ({
            let w = chain_walk(links, cur, steps, limit);
            &&& forall|i: int| 0 <= i < w.len() ==> #[trigger] w[i] <= cur as int
            &&& forall|i: int, j: int| 0 <= i < j < w.len() ==> #[trigger] w[i] > #[trigger] w[j]
        }),
    decreases steps,
{
    if !(steps == 0 || cur == no_pos() || (cur as int) < limit) {
        let nxt = links[cur as int];
        lemma_walk_decreasing(links, nxt, (steps - 1) as nat, limit);
        let w = chain_walk(links, cur, steps, limit);
        let r = chain_walk(links, nxt, (steps - 1) as nat, limit);
        assert(nxt == no_pos() || (nxt as int) < cur as int);
        assert forall|i: int| 0 <= i < w.len() implies #[trigger] w[i] <= cur as int by {
            if i > 0 {
                assert(w[i] == r[i - 1]);
            }
        }
        assert forall|i: int, j: int| 0 <= i < j < w.len() implies #[trigger] w[i] > #[trigger] w[j] by {
            assert(w[j] == r[j - 1]);
            if i > 0 {
                assert(w[i] == r[i - 1]);
            } else {
                assert(r.len() > 0 ==> nxt != no_pos());
            }
        }
    }
}

/// On an ordered chain, the search reports, of the candidates it visits, one
/// with the longest run, and of those the nearest; it reports nothing only when
/// no visited candidate has a run of `MIN_MATCH` bytes.
pub proof fn lemma_find_longest_nearest(data: Seq<u8>, heads: Seq<u32>, links: Seq<u32>, depth: nat, pos: int)
    requires
        0 <= pos,
        pos + MIN_MATCH <= data.len(),
        heads.len() == 65536,
        slots_below(heads, pos + 1),
        slots_below(links, pos + 1),
        pos + 1 <= links.len(),
        chain_ordered(links),
    ensures
        ({
            let w = chain_walk(links, heads[spec_hash4(data, pos)], depth, dist_limit(pos));
            let maxl = max_len_at(data, pos);
            &&& spec_find(data, heads, links, depth, pos) matches Some((d, l)) ==> {
                &&& forall|i: int|
                    0 <= i < w.len() && #[trigger] w[i] != pos ==> common_len(data, w[i], pos, maxl) <= l
                &&& forall|i: int|
                    0 <= i < w.len() && #[trigger] w[i] != pos && common_len(data, w[i], pos, maxl) == l
                        ==> pos - w[i] >= d
            }
            &&& spec_find(data, heads, links, depth, pos) is None ==> forall|i: int|
                0 <= i < w.len() && #[trigger] w[i] != pos ==> common_len(data, w[i], pos, maxl) < MIN_MATCH
        }),
{
    let h = spec_hash4(data, pos);
    let m = spec_u32_from_le_bytes(data.subrange(pos, pos + 4)).wrapping_mul(0x9E37_79B9u32);
    assert((m >> 16u32) & 0xFFFFu32 <= 0xFFFFu32) by (bit_vector);
    let limit = dist_limit(pos);
    let maxl = max_len_at(data, pos);
    let start = heads[h];
    let w = chain_walk(links, start, depth, limit);
    assert(slots_below(links, links.len() as int)) by {
        assert forall|i: int| 0 <= i < links.len() implies #[trigger] links[i] == no_pos() || (links[i] as int)
            < links.len() by {}
    }
    lemma_chain_walk(links, start, depth, limit, pos + 1);
    lemma_walk_decreasing(links, start, depth, limit);
    lemma_scan_best(data, w, pos, maxl, 3, 0);
    let (bl, bd) = scan(data, w, pos, maxl, 3, 0);
    if bl >= MIN_MATCH {
        let k = choose|k: int|
            0 <= k < w.len() && #[trigger] w[k] != pos && common_len(data, w[k], pos, maxl) == bl && bd
                == pos - w[k] && forall|j: int| 0 <= j < k && w[j] != pos ==> common_len(data, w[j], pos, maxl)
                < bl;
        lemma_common_len_bound(data, w[k], pos, maxl);
        assert(limit <= w[k] < pos + 1);
        assert(0 <= bd <= MAX_DIST);
        assert((bd as u16) as int == bd);
        assert((bl as u16) as nat == bl);
        assert forall|i: int|
            0 <= i < w.len() && #[trigger] w[i] != pos && common_len(data, w[i], pos, maxl) == bl implies pos
                - w[i] >= bd by {
            if i < k {
            } else if i > k {
                assert(w[k] > w[i]);
            }
        }
    }
}

proof fn lemma_common_len_min(data: Seq<u8>, a: int, b: int, maxl: nat, n: nat)
    requires
        n <= maxl,
        0 <= a,
        0 <= b,
        a + n <= data.len(),
        b + n <= data.len(),
        data.subrange(a, a + n) == data.subrange(b, b + n),
    ensures
        common_len(data, a, b, maxl) >= n,
    decreases n,
{
    if n > 0 {
        assert(data[a] == data.subrange(a, a + n)[0]);
        assert(data[b] == data.subrange(b, b + n)[0]);
        assert(data.subrange(a + 1, a + n) == data.subrange(a, a + n).drop_first());
        assert(data.subrange(b + 1, b + n) == data.subrange(b, b + n).drop_first());
        lemma_common_len_min(data, a + 1, b + 1, (maxl - 1) as nat, (n - 1) as nat);
    }
}

/// Insert then search: on a fresh chain, after inserting `q` and then `p`,
/// where the four bytes at `q` and at `p` agree and `q` lies within the match
/// distance, the search at `p` finds `q`, with the whole common run (at most
/// `MAX_MATCH` bytes and the bytes left from `p`).
pub proof fn lemma_insert_then_find(data: Seq<u8>, n: nat, depth: nat, q: int, p: int)
    requires
        depth >= 2,
        n >= 1,
        0 <= q < p < n,
        p < 0xFFFF_FFFF,
        p - q <= MAX_DIST,
        p + MIN_MATCH <= data.len(),
        data.subrange(q, q + 4) == data.subrange(p, p + 4),
    ensures
        ({
            let (h1, l1) = spec_insert(
                Seq::new(65536, |i: int| no_pos()),
                Seq::new(n, |i: int| no_pos()),
                data,
                q,
            );
            let (h2, l2) = spec_insert(h1, l1, data, p);
            spec_find(data, h2, l2, depth, p) == Some(
                ((p - q) as u16, common_len(data, q, p, max_len_at(data, p)) as u16),
            )
        }),
{
    let heads0 = Seq::new(65536, |i: int| no_pos());
    let links0 = Seq::new(n, |i: int| no_pos());
    let (h1, l1) = spec_insert(heads0, links0, data, q);
    let (h2, l2) = spec_insert(h1, l1, data, p);
    let hq = spec_hash4(data, q);
    let hp = spec_hash4(data, p);
    assert(hq == hp);
    let m = spec_u32_from_le_bytes(data.subrange(p, p + 4)).wrapping_mul(0x9E37_79B9u32);
    assert((m >> 16u32) & 0xFFFFu32 <= 0xFFFFu32) by (bit_vector);
    assert(h1[hp] == q as u32);
    assert(h2[hp] == p as u32);
    assert(l1[q] == no_pos());
    assert(l2[p] == q as u32);
    assert(l2[q] == no_pos());
    let limit = dist_limit(p);
    assert(limit <= q);
    let w = chain_walk(l2, h2[hp], depth, limit);
    assert(chain_walk(l2, no_pos(), (depth - 2) as nat, limit) == Seq::<int>::empty());
    assert(chain_walk(l2, q as u32, (depth - 1) as nat, limit) == seq![q]);
    assert(w == seq![p, q]);
    let maxl = max_len_at(data, p);
    lemma_common_len_min(data, q, p, maxl, 4);
    lemma_common_len_bound(data, q, p, maxl);
    let l = common_len(data, q, p, maxl);
    assert(w.drop_first() == seq![q]);
    assert(seq![q].drop_first() == Seq::<int>::empty());
    assert(scan(data, Seq::<int>::empty(), p, maxl, l, p - q) == (l, p - q));
    assert(scan(data, seq![q], p, maxl, 3, 0) == (l, p - q));
    assert(scan(data, w, p, maxl, 3, 0) == (l, p - q));
}

pub proof fn lemma_find_len(data: Seq<u8>, heads: Seq<u32>, links: Seq<u32>, depth: nat, pos: int)
    ensures
        spec_find(data, heads, links, depth, pos) matches Some((d, l)) ==> l >= MIN_MATCH && pos
            + l <= data.len(),
{
    if pos + MIN_MATCH <= data.len() {
        let h = spec_hash4(data, pos);
        let w = chain_walk(links, heads[h], depth, dist_limit(pos));
        lemma_scan_result(data, w, pos, max_len_at(data, pos), 3, 0);
    }
}

/// The tokens greedy matching emits from `pos` on, given the chain state.
pub open spec fn tok_run(data: Seq<u8>, depth: nat, heads: Seq<u32>, links: Seq<u32>, pos: int) -> Seq<
    Token,
>
    decreases data.len() - pos,
{
    if pos < 0 || pos >= data.len() {
        Seq::empty()
    } else {
        let (h1, l1) = spec_insert(heads, links, data, pos);
        match spec_find(data, h1, l1, depth, pos) {
            Some((d, l)) => {
                proof {
                    lemma_find_len(data, h1, l1, depth, pos);
                }
                let (h2, l2) = insert_run(h1, l1, data, pos + 1, pos + l);
                seq![Token::Match { distance: d, length: l }] + tok_run(data, depth, h2, l2, pos + l)
            },
            None => seq![Token::Literal(data[pos])] + tok_run(data, depth, h1, l1, pos + 1),
        }
    }
}

/// The tokens of greedy LZ77 over `data` with hash-chain search depth `depth`.
pub open spec fn spec_tokenise(data: Seq<u8>, depth: nat) -> Seq<Token> {
    let n = if data.len() > 1 {
        data.len()
    } else {
        1
    };
    tok_run(data, depth, Seq::new(65536, |i: int| no_pos()), Seq::new(n, |i: int| no_pos()), 0)
}

/// Matches have lengths in `MIN_MATCH..=MAX_MATCH` and distances in `1..=MAX_DIST`.
pub open spec fn tokens_well_formed(tokens: Seq<Token>) -> bool {
    forall|k: int|
        0 <= k < tokens.len() ==> match #[trigger] tokens[k] {
            Token::Literal(_) => true,
            Token::Match { distance, length } => MIN_MATCH <= length <= MAX_MATCH && 1 <= distance
                <= MAX_DIST,
        }
}

/// A back-reference to an earlier copy of the next `l` bytes reproduces them.
proof fn lemma_match_bytes(data: Seq<u8>, pos: int, d: u16, l: u16)
    requires
        1 <= d <= pos,
        pos + l <= data.len(),
        forall|i: int| 0 <= i < l ==> #[trigger] data[pos - d + i] == data[pos + i],
    ensures
        data.subrange(0, pos) + match_bytes(data.subrange(0, pos), d, l) == data.subrange(
            0,
            pos + l,
        ),
{
    let pre = data.subrange(0, pos);
    let mb = match_bytes(pre, d, l);
    assert forall|i: int| 0 <= i < l implies mb[i] == data[pos + i] by {
        lemma_periodic(data, pos, d as int, l as int, i);
    }
    assert(pre + mb == data.subrange(0, pos + l));
}

proof fn lemma_periodic(data: Seq<u8>, pos: int, d: int, l: int, i: int)
    requires
        1 <= d <= pos,
        pos + l <= data.len(),
        0 <= i < l,
        forall|j: int| 0 <= j < l ==> #[trigger] data[pos - d + j] == data[pos + j],
    ensures
        data[pos - d + i % d] == data[pos + i],
    decreases i,
{
    if i >= d {
        lemma_periodic(data, pos, d, l, i - d);
        assert((i - d) % d == i % d) by (nonlinear_arith)
            requires
                d >= 1,
                i >= d,
        ;
        assert(data[pos - d + i] == data[pos + i]);
        assert(pos - d + i == pos + (i - d));
    } else {
        assert(i % d == i) by (nonlinear_arith)
            requires
                0 <= i < d,
        ;
    }
}

proof fn lemma_insert_run_step(heads: Seq<u32>, links: Seq<u32>, data: Seq<u8>, from: int, to: int)
    requires
        from <= to,
    ensures
        insert_run(heads, links, data, from, to + 1) == ({
            let (h, l) = insert_run(heads, links, data, from, to);
            if to < data.len() {
                spec_insert(h, l, data, to)
            } else {
                (h, l)
            }
        }),
    decreases to - from,
{
    reveal_with_fuel(insert_run, 2);
    let (h, l) = if from < data.len() {
        spec_insert(heads, links, data, from)
    } else {
        (heads, links)
    };
    if from < to {
        lemma_insert_run_step(h, l, data, from + 1, to);
    } else {
        assert(insert_run(heads, links, data, from, to) == (heads, links));
        assert(insert_run(heads, links, data, from, to + 1) == insert_run(h, l, data, from + 1, to + 1));
        assert(insert_run(h, l, data, from + 1, to + 1) == (h, l));
    }
}

/// Hash chain over a slice of bytes.
pub struct HashChain {
    head: Vec<u32>,
    next: Vec<u32>,
    max_depth: usize,
}

impl HashChain {
    /// `head[hash]`: the most recent position with that hash.
    pub closed spec fn heads(&self) -> Seq<u32> {
        self.head@
    }

    /// `next[pos]`: the previous position with the same hash as `pos`.
    pub closed spec fn links(&self) -> Seq<u32> {
        self.next@
    }

    /// How many chain positions a search examines.
    pub closed spec fn depth(&self) -> nat {
        self.max_depth as nat
    }

    pub open spec fn wf(&self) -> bool {
        &&& self.heads().len() == 65536
        &&& self.links().len() >= 1
        &&& slots_below(self.heads(), self.links().len() as int)
        &&& slots_below(self.links(), self.links().len() as int)
    }

    pub fn new(data_len: usize, max_depth: usize) -> (c: Self)
        ensures
            c.wf(),
            c.heads() == Seq::new(65536, |i: int| no_pos()),
            c.links() == Seq::new(if data_len > 1 { data_len as nat } else { 1 }, |i: int| no_pos()),
            c.depth() == max_depth,
    {
        let head: Vec<u32> = vec![u32::MAX; HASH_SIZE];
        assert(head@ =~= Seq::new(65536, |j: int| no_pos()));
        let n = if data_len > 1 { data_len } else { 1 };
        let next: Vec<u32> = vec![u32::MAX; n];
        assert(next@ =~= Seq::new(n as nat, |j: int| no_pos()));
        HashChain { head, next, max_depth }
    }

    fn hash4(data: &[u8], pos: usize) -> (h: usize)
        ensures
            h as int == spec_hash4(data@, pos as int),
            h < HASH_SIZE,
    {
        if data.len() < 4 || pos > data.len() - 4 {
            return 0;
        }
        let v = u32_from_le_bytes(slice_subrange(data, pos, pos + 4));
        let m = v.wrapping_mul(0x9E37_79B9);
        assert((m >> 16u32) & 0xFFFFu32 == ((m >> 16u32) as usize) & 0xFFFFusize) by (bit_vector);
        assert(((m >> 16u32) as usize) & 0xFFFFusize < 65536) by (bit_vector);
        ((m >> 16) as usize) & (HASH_SIZE - 1)
    }

    /// Insert position `pos` into the chain.
    pub fn insert(&mut self, data: &[u8], pos: usize)
        requires
            old(self).wf(),
            pos < old(self).links().len(),
        ensures
            final(self).wf(),
            (final(self).heads(), final(self).links()) == spec_insert(
                old(self).heads(),
                old(self).links(),
                data@,
                pos as int,
            ),
            final(self).depth() == old(self).depth(),
    {
        let h = Self::hash4(data, pos);
        let prev = self.head[h];
        self.next.set(pos, prev);
        self.head.set(h, pos as u32);
    }

    /// Find the longest match starting at `pos` going **forward** (pos < end).
    /// Returns `(distance, length)` if a match ≥ MIN_MATCH is found.
    pub fn find_longest_match_forward(&self, data: &[u8], pos: usize) -> (r: Option<(u16, u16)>)
        requires
            self.wf(),
            slots_below(self.heads(), pos + 1),
            slots_below(self.links(), pos + 1),
        ensures
            r == spec_find(data@, self.heads(), self.links(), self.depth(), pos as int),
    {
        if data.len() < MIN_MATCH || pos > data.len() - MIN_MATCH {
            return None;
        }
        let h = Self::hash4(data, pos);
        let mut best_len: usize = MIN_MATCH - 1;
        let mut best_dist: u16 = 0;
        let limit = if pos > MAX_DIST { pos - MAX_DIST } else { 0 };
        let max_len = if data.len() - pos < MAX_MATCH { data.len() - pos } else { MAX_MATCH };
        let ghost links = self.links();
        let ghost maxl = max_len_at(data@, pos as int);
        let ghost target = best_match(data@, self.heads(), links, self.depth(), pos as int);

        let mut cur = self.head[h];
        let mut depth: usize = 0;
        let mut done = false;
        while !done && cur != u32::MAX && depth < self.max_depth
            invariant
                self.wf(),
                links == self.links(),
                slots_below(links, pos + 1),
                max_len == maxl,
                limit as int == dist_limit(pos as int),
                pos + max_len <= data@.len(),
                max_len <= MAX_MATCH,
                depth <= self.max_depth,
                cur == no_pos() || (cur as int) < pos + 1,
                cur == no_pos() || (cur as int) < links.len(),
                MIN_MATCH - 1 <= best_len <= MAX_MATCH,
                !done ==> scan(
                    data@,
                    chain_walk(links, cur, (self.max_depth - depth) as nat, limit as int),
                    pos as int,
                    maxl,
                    best_len as nat,
                    best_dist as int,
                ) == target,
                done ==> (best_len as nat, best_dist as int) == target,
            decreases 2 * (self.max_depth - depth) + if done { 0int } else { 1int },
        {
            let cur_pos = cur as usize;
            let ghost steps = (self.max_depth - depth) as nat;
            let ghost w = chain_walk(links, cur, steps, limit as int);
            let ghost rest = chain_walk(links, links[cur as int], (steps - 1) as nat, limit as int);
            if cur_pos < limit {
                assert(w == Seq::<int>::empty());
                done = true;
            } else {
                assert(w == seq![cur as int] + rest);
                assert(w[0] == cur as int);
                assert(w.drop_first() == rest);
                let dist = pos - cur_pos;
                if dist == 0 {
                    cur = self.next[cur_pos];
                    depth += 1;
                } else {
                    let mut len: usize = 0;
                    while len < max_len && data[pos + len] == data[cur_pos + len]
                        invariant
                            len <= max_len,
                            cur_pos < pos,
                            pos + max_len <= data.len(),
                            common_len(data@, cur_pos as int, pos as int, max_len as nat) == len
                                + common_len(
                                data@,
                                cur_pos + len,
                                pos + len,
                                (max_len - len) as nat,
                            ),
                        decreases max_len - len,
                    {
                        len += 1;
                    }
                    assert(common_len(data@, cur_pos + len, pos + len, (max_len - len) as nat) == 0);
                    proof {
                        lemma_common_len_bound(data@, cur_pos as int, pos as int, max_len as nat);
                    }
                    if len > best_len {
                        best_len = len;
                        best_dist = dist as u16;
                    }
                    if best_len == MAX_MATCH {
                        proof {
                            lemma_scan_saturated(
                                data@,
                                chain_walk(
                                    links,
                                    links[cur as int],
                                    (self.max_depth - depth - 1) as nat,
                                    limit as int,
                                ),
                                pos as int,
                                maxl,
                                best_len as nat,
                                best_dist as int,
                            );
                        }
                        done = true;
                    } else {
                        cur = self.next[cur_pos];
                        depth += 1;
                    }
                }
            }
        }
        if best_len >= MIN_MATCH {
            Some((best_dist, best_len as u16))
        } else {
            None
        }
    }

    /// Find the longest match at `pos` within data that was already reversed; the
    /// search is the forward one.
    pub fn find_longest_match_backward(&self, data: &[u8], pos: usize) -> (r: Option<(u16, u16)>)
        requires
            self.wf(),
            slots_below(self.heads(), pos + 1),
            slots_below(self.links(), pos + 1),
        ensures
            r == spec_find(data@, self.heads(), self.links(), self.depth(), pos as int),
    {
        self.find_longest_match_forward(data, pos)
    }
}


pub(crate) proof fn lemma_insert_slots(heads: Seq<u32>, links: Seq<u32>, data: Seq<u8>, pos: int, bound: int)
    requires
        heads.len() == 65536,
        0 <= pos < links.len(),
        pos < bound,
        pos < 0xFFFF_FFFF,
        slots_below(heads, bound),
        slots_below(links, bound),
    ensures
        ({
            let (h, l) = spec_insert(heads, links, data, pos);
            &&& h.len() == 65536
            &&& l.len() == links.len()
            &&& slots_below(h, bound)
            &&& slots_below(l, bound)
        }),
{
    let hh = spec_hash4(data, pos);
    if pos + 4 <= data.len() {
        let m = spec_u32_from_le_bytes(data.subrange(pos, pos + 4)).wrapping_mul(0x9E37_79B9u32);
        assert((m >> 16u32) & 0xFFFFu32 <= 0xFFFFu32) by (bit_vector);
    }
    let (h, l) = spec_insert(heads, links, data, pos);
    assert forall|i: int| 0 <= i < h.len() implies #[trigger] h[i] == no_pos() || (h[i] as int) < bound by {
        if i != hh {
            assert(h[i] == heads[i]);
        }
    }
    assert forall|i: int| 0 <= i < l.len() implies #[trigger] l[i] == no_pos() || (l[i] as int) < bound by {
        if i != pos {
            assert(l[i] == links[i]);
        }
    }
}

pub(crate) proof fn lemma_slots_grow(s: Seq<u32>, a: int, b: int)
    requires
        slots_below(s, a),
        a <= b,
    ensures
        slots_below(s, b),
{
}

/// Tokenise `data` using the hash chain.  Returns a Vec of `Token`.
/// Greedy LZ77 (no lazy matching — avoids chain corruption from early insertions).
pub fn tokenise(data: &[u8], max_depth: usize) -> (tokens: Vec<Token>)
    requires
        data@.len() <= 0xFFFF_FFFF,
    ensures
        tokens@ == spec_tokenise(data@, max_depth as nat),
        spec_detokenise(tokens@) == data@,
        tokens_well_formed(tokens@),
{
    let mut chain = HashChain::new(data.len(), max_depth);
    let mut tokens: Vec<Token> = Vec::new();
    let mut pos: usize = 0;
    let ghost d = data@;
    let ghost depth = max_depth as nat;

    while pos < data.len()
        invariant
            d == data@,
            d.len() <= 0xFFFF_FFFF,
            depth == max_depth,
            chain.wf(),
            chain.depth() == depth,
            chain.links().len() >= d.len(),
            pos <= d.len(),
            slots_below(chain.heads(), pos as int),
            slots_below(chain.links(), pos as int),
            tokens@ + tok_run(d, depth, chain.heads(), chain.links(), pos as int) == spec_tokenise(
                d,
                depth,
            ),
            spec_detokenise(tokens@) == d.subrange(0, pos as int),
            tokens_well_formed(tokens@),
        decreases d.len() - pos,
    {
        let ghost h0 = chain.heads();
        let ghost l0 = chain.links();
        let ghost p0 = pos as int;
        proof {
            lemma_slots_grow(h0, pos as int, pos + 1);
            lemma_slots_grow(l0, pos as int, pos + 1);
            lemma_insert_slots(h0, l0, d, pos as int, pos + 1);
        }
        chain.insert(data, pos);
        let ghost h1 = chain.heads();
        let ghost l1 = chain.links();
        let found = chain.find_longest_match_forward(data, pos);
        proof {
            lemma_find_sound(d, h1, l1, depth, pos as int);
            lemma_find_len(d, h1, l1, depth, pos as int);
        }
        let ghost before = tokens@;
        match found {
            Some((dist, len)) => {
                tokens.push(Token::Match { distance: dist, length: len });
                let mut i: usize = 1;
                while i < len as usize
                    invariant
                        d == data@,
                        d.len() <= 0xFFFF_FFFF,
                        chain.wf(),
                        chain.depth() == depth,
                        chain.links().len() >= d.len(),
                        1 <= i <= len,
                        pos + len <= d.len(),
                        (chain.heads(), chain.links()) == insert_run(h1, l1, d, pos + 1, pos + i),
                        slots_below(chain.heads(), pos + i),
                        slots_below(chain.links(), pos + i),
                    decreases len - i,
                {
                    proof {
                        lemma_insert_run_step(h1, l1, d, pos + 1, pos + i);
                    }
                    if pos + i < data.len() {
                        proof {
                            lemma_slots_grow(chain.heads(), pos + i, pos + i + 1);
                            lemma_slots_grow(chain.links(), pos + i, pos + i + 1);
                            lemma_insert_slots(chain.heads(), chain.links(), d, pos + i, pos + i + 1);
                        }
                        chain.insert(data, pos + i);
                    }
                    i += 1;
                }
                proof {
                    assert(i == len);
                    assert(tok_run(d, depth, h0, l0, pos as int) == seq![
                        Token::Match { distance: dist, length: len },
                    ] + tok_run(d, depth, chain.heads(), chain.links(), pos + len));
                    assert(tokens@ == before.push(Token::Match { distance: dist, length: len }));
                    assert(tokens@.drop_last() == before);
                    lemma_match_bytes(d, pos as int, dist, len);
                    assert(d.subrange(0, pos + len).len() == pos + len);
                }
                pos += len as usize;
            },
            None => {
                tokens.push(Token::Literal(data[pos]));
                proof {
                    assert(tokens@.drop_last() == before);
                    assert(d.subrange(0, pos as int).push(d[pos as int]) == d.subrange(0, pos + 1));
                    assert(tok_run(d, depth, h0, l0, pos as int) == seq![Token::Literal(d[pos as int])]
                        + tok_run(d, depth, h1, l1, pos + 1));
                }
                pos += 1;
            },
        }
        proof {
            assert(tokens@ + tok_run(d, depth, chain.heads(), chain.links(), pos as int)
                == before + tok_run(d, depth, h0, l0, p0));
        }
    }
    proof {
        assert(d.subrange(0, d.len() as int) == d);
        assert(tok_run(d, depth, chain.heads(), chain.links(), pos as int) == Seq::<Token>::empty());
        assert(tokens@ + Seq::<Token>::empty() == tokens@);
    }
    tokens
}


// ───────────────────────────── round trip ─────────────────────────────

/// Inserting the positions `from..to` keeps the chain's sizes and its slots
/// below `to`.
proof fn lemma_insert_run_slots(heads: Seq<u32>, links: Seq<u32>, data: Seq<u8>, from: int, to: int)
    requires
        heads.len() == 65536,
        0 <= from <= to,
        data.len() <= links.len(),
        data.len() <= 0xFFFF_FFFF,
        slots_below(heads, from),
        slots_below(links, from),
    ensures
        ({
            let (h, l) = insert_run(heads, links, data, from, to);
            &&& h.len() == 65536
            &&& l.len() == links.len()
            &&& slots_below(h, to)
            &&& slots_below(l, to)
        }),
    decreases to - from,
{
    if from < to {
        lemma_slots_grow(heads, from, from + 1);
        lemma_slots_grow(links, from, from + 1);
        if from < data.len() {
            lemma_insert_slots(heads, links, data, from, from + 1);
            let (h1, l1) = spec_insert(heads, links, data, from);
            lemma_insert_run_slots(h1, l1, data, from + 1, to);
        } else {
            lemma_insert_run_slots(heads, links, data, from + 1, to);
        }
    }
}

proof fn lemma_tok_run(
    d: Seq<u8>,
    depth: nat,
    h: Seq<u32>,
    l: Seq<u32>,
    pos: int,
    prefix: Seq<Token>,
)
    requires
        d.len() <= 0xFFFF_FFFF,
        0 <= pos <= d.len(),
        h.len() == 65536,
        l.len() >= d.len(),
        slots_below(h, pos),
        slots_below(l, pos),
        spec_detokenise(prefix) == d.subrange(0, pos),
        tokens_well_formed(prefix),
    ensures
        spec_detokenise(prefix + tok_run(d, depth, h, l, pos)) == d,
        tokens_well_formed(prefix + tok_run(d, depth, h, l, pos)),
    decreases d.len() - pos,
{
    if pos >= d.len() {
        assert(prefix + tok_run(d, depth, h, l, pos) == prefix);
        assert(d.subrange(0, pos) == d);
    } else {
        lemma_slots_grow(h, pos, pos + 1);
        lemma_slots_grow(l, pos, pos + 1);
        lemma_insert_slots(h, l, d, pos, pos + 1);
        let (h1, l1) = spec_insert(h, l, d, pos);
        lemma_find_sound(d, h1, l1, depth, pos);
        lemma_find_len(d, h1, l1, depth, pos);
        match spec_find(d, h1, l1, depth, pos) {
            Some((dist, len)) => {
                let t = Token::Match { distance: dist, length: len };
                let p2 = prefix.push(t);
                lemma_match_bytes(d, pos, dist, len);
                assert(p2.drop_last() == prefix);
                assert(spec_detokenise(p2) == d.subrange(0, pos + len));
                assert forall|k: int| 0 <= k < p2.len() implies match #[trigger] p2[k] {
                    Token::Literal(_) => true,
                    Token::Match { distance, length } => MIN_MATCH <= length <= MAX_MATCH && 1 <= distance
                        <= MAX_DIST,
                } by {
                    if k < prefix.len() {
                        assert(p2[k] == prefix[k]);
                    }
                }
                lemma_insert_run_slots(h1, l1, d, pos + 1, pos + len);
                let (h2, l2) = insert_run(h1, l1, d, pos + 1, pos + len);
                lemma_tok_run(d, depth, h2, l2, pos + len, p2);
                assert(prefix + tok_run(d, depth, h, l, pos) == p2 + tok_run(d, depth, h2, l2, pos + len));
            },
            None => {
                let t = Token::Literal(d[pos]);
                let p2 = prefix.push(t);
                assert(p2.drop_last() == prefix);
                assert(d.subrange(0, pos).push(d[pos]) == d.subrange(0, pos + 1));
                assert forall|k: int| 0 <= k < p2.len() implies match #[trigger] p2[k] {
                    Token::Literal(_) => true,
                    Token::Match { distance, length } => MIN_MATCH <= length <= MAX_MATCH && 1 <= distance
                        <= MAX_DIST,
                } by {
                    if k < prefix.len() {
                        assert(p2[k] == prefix[k]);
                    }
                }
                lemma_tok_run(d, depth, h1, l1, pos + 1, p2);
                assert(prefix + tok_run(d, depth, h, l, pos) == p2 + tok_run(d, depth, h1, l1, pos + 1));
            },
        }
    }
}

/// Detokenising the tokens of `data` gives `data` back, and the tokens are well formed.
pub proof fn lemma_tokenise_round_trip(data: Seq<u8>, depth: nat)
    requires
        data.len() <= 0xFFFF_FFFF,
    ensures
        spec_detokenise(spec_tokenise(data, depth)) == data,
        tokens_well_formed(spec_tokenise(data, depth)),
{
    let n = if data.len() > 1 {
        data.len()
    } else {
        1
    };
    let h = Seq::new(65536, |i: int| no_pos());
    let l = Seq::new(n, |i: int| no_pos());
    let empty = Seq::<Token>::empty();
    assert(spec_detokenise(empty) == data.subrange(0, 0));
    lemma_tok_run(data, depth, h, l, 0, empty);
    assert(empty + spec_tokenise(data, depth) == spec_tokenise(data, depth));
}

/// Every well-formed token yields at least one byte.
pub proof fn lemma_tokens_count(ts: Seq<Token>)
    requires
        tokens_well_formed(ts),
    ensures
        ts.len() <= spec_detokenise(ts).len(),
    decreases ts.len(),
{
    if ts.len() > 0 {
        let p = ts.drop_last();
        assert forall|k: int| 0 <= k < p.len() implies match #[trigger] p[k] {
            Token::Literal(_) => true,
            Token::Match { distance, length } => MIN_MATCH <= length <= MAX_MATCH && 1 <= distance <= MAX_DIST,
        } by {
            assert(p[k] == ts[k]);
        }
        lemma_tokens_count(p);
        assert(ts[ts.len() - 1] == ts.last());
    }
}

// ─────────────────────── tokenising as a greedy parse ───────────────────────

/// The nearest position before `below` whose four-byte hash is `hv`, or -1.
pub open spec fn prev_same(data: Seq<u8>, hv: int, below: int) -> int
    decreases below,
{
    if below <= 0 {
        -1
    } else if spec_hash4(data, below - 1) == hv {
        below - 1
    } else {
        prev_same(data, hv, below - 1)
    }
}

/// Position `c` and the positions before it with hash `hv`, nearest first: at
/// most `k` of them, stopping below `limit`.
pub open spec fn same_hash_run(data: Seq<u8>, hv: int, c: int, k: nat, limit: int) -> Seq<int>
    decreases k,
{
    if k == 0 || c < 0 || c < limit {
        Seq::empty()
    } else {
        seq![c] + same_hash_run(data, hv, prev_same(data, hv, c), (k - 1) as nat, limit)
    }
}

/// The earlier positions a search of depth `depth` at `pos` looks at: the
/// `depth - 1` nearest earlier positions with the same hash, within the
/// match distance.
pub open spec fn visible(data: Seq<u8>, depth: nat, pos: int) -> Seq<int> {
    if depth == 0 {
        Seq::empty()
    } else {
        let hv = spec_hash4(data, pos);
        same_hash_run(data, hv, prev_same(data, hv, pos), (depth - 1) as nat, dist_limit(pos))
    }
}

/// The token greedy matching must emit at `pos`: a literal when no visible
/// position starts a run of `MIN_MATCH` bytes, else a match with the longest
/// visible run, taken from the nearest position that has it.
pub open spec fn token_ok(data: Seq<u8>, depth: nat, pos: int, t: Token) -> bool {
    let cands = visible(data, depth, pos);
    let maxl = max_len_at(data, pos);
    match t {
        Token::Literal(b) => b == data[pos] && (pos + MIN_MATCH > data.len() || forall|i: int|
            0 <= i < cands.len() ==> common_len(data, #[trigger] cands[i], pos, maxl) < MIN_MATCH),
        Token::Match { distance, length } => {
            &&& pos + MIN_MATCH <= data.len()
            &&& length >= MIN_MATCH
            &&& exists|i: int|
                0 <= i < cands.len() && #[trigger] cands[i] == pos - distance && common_len(
                    data,
                    cands[i],
                    pos,
                    maxl,
                ) == length
            &&& forall|j: int| 0 <= j < cands.len() ==> common_len(data, #[trigger] cands[j], pos, maxl) <= length
            &&& forall|j: int|
                0 <= j < cands.len() && common_len(data, #[trigger] cands[j], pos, maxl) == length ==> pos
                    - cands[j] >= distance
        },
    }
}

/// How many bytes a token stands for.
pub open spec fn token_len(t: Token) -> int {
    match t {
        Token::Literal(_) => 1,
        Token::Match { length, .. } => length as int,
    }
}

/// `ts` is the greedy parse of `data` from `pos` on: each token is the one
/// `token_ok` asks for at its place, and the tokens cover the rest of `data`.
pub open spec fn greedy_parse(data: Seq<u8>, depth: nat, pos: int, ts: Seq<Token>) -> bool
    decreases ts.len(),
{
    if ts.len() == 0 {
        pos >= data.len()
    } else {
        &&& 0 <= pos < data.len()
        &&& token_ok(data, depth, pos, ts[0])
        &&& greedy_parse(data, depth, pos + token_len(ts[0]), ts.drop_first())
    }
}

/// The chain slot of a position, or the empty slot for -1.
pub open spec fn slot(c: int) -> u32 {
    if c < 0 {
        no_pos()
    } else {
        c as u32
    }
}

/// The chain holds every position below `t`: each head is the latest such
/// position of its hash and each link the previous one.
pub open spec fn chain_complete(data: Seq<u8>, heads: Seq<u32>, links: Seq<u32>, t: int) -> bool {
    &&& heads.len() == 65536
    &&& forall|hv: int| 0 <= hv < 65536 ==> #[trigger] heads[hv] == slot(prev_same(data, hv, t))
    &&& forall|q: int| 0 <= q < t ==> #[trigger] links[q] == slot(prev_same(data, spec_hash4(data, q), q))
}

proof fn lemma_hash_range(data: Seq<u8>, p: int)
    ensures
        0 <= spec_hash4(data, p) < 65536,
{
    if p + 4 <= data.len() {
        let m = spec_u32_from_le_bytes(data.subrange(p, p + 4)).wrapping_mul(0x9E37_79B9u32);
        assert((m >> 16u32) & 0xFFFFu32 <= 0xFFFFu32) by (bit_vector);
    }
}

proof fn lemma_prev_same(data: Seq<u8>, hv: int, below: int)
    ensures
        prev_same(data, hv, below) == -1 || (0 <= prev_same(data, hv, below) < below && spec_hash4(
            data,
            prev_same(data, hv, below),
        ) == hv),
    decreases below,
{
    if below > 0 && spec_hash4(data, below - 1) != hv {
        lemma_prev_same(data, hv, below - 1);
    }
}

proof fn lemma_complete_insert(data: Seq<u8>, heads: Seq<u32>, links: Seq<u32>, t: int)
    requires
        chain_complete(data, heads, links, t),
        0 <= t < links.len(),
    ensures
        chain_complete(data, spec_insert(heads, links, data, t).0, spec_insert(heads, links, data, t).1, t + 1),
        spec_insert(heads, links, data, t).1.len() == links.len(),
{
    let hv0 = spec_hash4(data, t);
    lemma_hash_range(data, t);
    let (h1, l1) = spec_insert(heads, links, data, t);
    assert forall|hv: int| 0 <= hv < 65536 implies #[trigger] h1[hv] == slot(prev_same(data, hv, t + 1)) by {
        if hv == hv0 {
            assert(prev_same(data, hv, t + 1) == t);
        }
    }
    assert forall|q: int| 0 <= q < t + 1 implies #[trigger] l1[q] == slot(
        prev_same(data, spec_hash4(data, q), q),
    ) by {
        if q == t {
            assert(l1[q] == heads[hv0]);
        }
    }
}

proof fn lemma_complete_run(data: Seq<u8>, heads: Seq<u32>, links: Seq<u32>, from: int, to: int)
    requires
        chain_complete(data, heads, links, from),
        0 <= from <= to <= data.len(),
        data.len() <= links.len(),
    ensures
        chain_complete(data, insert_run(heads, links, data, from, to).0, insert_run(heads, links, data, from, to).1, to),
        insert_run(heads, links, data, from, to).1.len() == links.len(),
    decreases to - from,
{
    if from < to {
        lemma_complete_insert(data, heads, links, from);
        let (h, l) = spec_insert(heads, links, data, from);
        lemma_complete_run(data, h, l, from + 1, to);
    }
}

proof fn lemma_run_shape(data: Seq<u8>, hv: int, c: int, k: nat, limit: int)
    requires
        c == -1 || (0 <= c && spec_hash4(data, c) == hv),
    ensures
        ({
            let r = same_hash_run(data, hv, c, k, limit);
            &&& forall|i: int| 0 <= i < r.len() ==> limit <= #[trigger] r[i] <= c
            &&& forall|i: int, j: int| 0 <= i < j < r.len() ==> #[trigger] r[i] > #[trigger] r[j]
        }),
    decreases k,
{
    if !(k == 0 || c < 0 || c < limit) {
        let n = prev_same(data, hv, c);
        lemma_prev_same(data, hv, c);
        lemma_run_shape(data, hv, n, (k - 1) as nat, limit);
        let r = same_hash_run(data, hv, c, k, limit);
        let r2 = same_hash_run(data, hv, n, (k - 1) as nat, limit);
        assert forall|i: int| 0 <= i < r.len() implies limit <= #[trigger] r[i] <= c by {
            if i > 0 {
                assert(r[i] == r2[i - 1]);
            }
        }
        assert forall|i: int, j: int| 0 <= i < j < r.len() implies #[trigger] r[i] > #[trigger] r[j] by {
            assert(r[j] == r2[j - 1]);
            if i > 0 {
                assert(r[i] == r2[i - 1]);
            }
        }
    }
}

proof fn lemma_walk_is_run(data: Seq<u8>, links: Seq<u32>, hv: int, c: int, steps: nat, limit: int, t: int)
    requires
        forall|q: int| 0 <= q < t ==> #[trigger] links[q] == slot(prev_same(data, spec_hash4(data, q), q)),
        t <= links.len(),
        t <= 0xFFFF_FFFF,
        c == -1 || (0 <= c < t && spec_hash4(data, c) == hv),
    ensures
        chain_walk(links, slot(c), steps, limit) == same_hash_run(data, hv, c, steps, limit),
    decreases steps,
{
    if !(steps == 0 || c < 0 || c < limit) {
        let n = prev_same(data, hv, c);
        lemma_prev_same(data, hv, c);
        assert(links[c] == slot(n));
        assert(slot(c) != no_pos());
        assert(slot(c) as int == c);
        lemma_walk_is_run(data, links, hv, n, (steps - 1) as nat, limit, t);
    } else if c >= 0 {
        assert(slot(c) as int == c);
    }
}

proof fn lemma_walk_at(data: Seq<u8>, depth: nat, h: Seq<u32>, l: Seq<u32>, pos: int)
    requires
        0 <= pos < data.len(),
        data.len() <= 0xFFFF_FFFF,
        data.len() <= l.len(),
        chain_complete(data, h, l, pos),
    ensures
        ({
            let (h1, l1) = spec_insert(h, l, data, pos);
            best_match(data, h1, l1, depth, pos) == scan(
                data,
                visible(data, depth, pos),
                pos,
                max_len_at(data, pos),
                3,
                0,
            )
        }),
{
    lemma_complete_insert(data, h, l, pos);
    let (h1, l1) = spec_insert(h, l, data, pos);
    let hv = spec_hash4(data, pos);
    lemma_hash_range(data, pos);
    let limit = dist_limit(pos);
    let maxl = max_len_at(data, pos);
    let cands = visible(data, depth, pos);
    assert(prev_same(data, hv, pos + 1) == pos);
    assert(h1[hv] == slot(pos));
    lemma_walk_is_run(data, l1, hv, pos, depth, limit, pos + 1);
    let w = chain_walk(l1, h1[hv], depth, limit);
    if depth > 0 {
        assert(w == seq![pos] + cands);
        assert(w.drop_first() == cands);
        assert(scan(data, w, pos, maxl, 3, 0) == scan(data, cands, pos, maxl, 3, 0));
    } else {
        assert(w == Seq::<int>::empty());
        assert(cands == Seq::<int>::empty());
    }
}

proof fn lemma_scan_token_ok(data: Seq<u8>, depth: nat, pos: int)
    requires
        0 <= pos < data.len(),
    ensures
        ({
            let (bl, bd) = scan(data, visible(data, depth, pos), pos, max_len_at(data, pos), 3, 0);
            if pos + MIN_MATCH <= data.len() && bl >= MIN_MATCH {
                token_ok(data, depth, pos, Token::Match { distance: bd as u16, length: bl as u16 })
            } else {
                token_ok(data, depth, pos, Token::Literal(data[pos]))
            }
        }),
{
    let hv = spec_hash4(data, pos);
    let limit = dist_limit(pos);
    let maxl = max_len_at(data, pos);
    let cands = visible(data, depth, pos);
    let p0 = prev_same(data, hv, pos);
    lemma_prev_same(data, hv, pos);
    lemma_run_shape(data, hv, p0, (depth - 1) as nat, limit);
    lemma_scan_best(data, cands, pos, maxl, 3, 0);
    let (bl, bd) = scan(data, cands, pos, maxl, 3, 0);
    assert forall|i: int| 0 <= i < cands.len() implies #[trigger] cands[i] != pos && limit <= cands[i] < pos by {}
    if pos + MIN_MATCH <= data.len() && bl >= MIN_MATCH {
        let k = choose|k: int|
            0 <= k < cands.len() && #[trigger] cands[k] != pos && common_len(data, cands[k], pos, maxl) == bl
                && bd == pos - cands[k] && forall|j: int|
                0 <= j < k && cands[j] != pos ==> common_len(data, cands[j], pos, maxl) < bl;
        lemma_common_len_bound(data, cands[k], pos, maxl);
        assert(limit <= cands[k] < pos);
        assert((bd as u16) as int == bd);
        assert((bl as u16) as nat == bl);
        assert forall|j: int|
            0 <= j < cands.len() && common_len(data, #[trigger] cands[j], pos, maxl) == bl implies pos - cands[j]
                >= bd by {
            if j > k {
                assert(cands[k] > cands[j]);
            }
        }
        assert(cands[k] == pos - (bd as u16));
    }
}

proof fn lemma_token_ok_at(data: Seq<u8>, depth: nat, h: Seq<u32>, l: Seq<u32>, pos: int)
    requires
        0 <= pos < data.len(),
        data.len() <= 0xFFFF_FFFF,
        data.len() <= l.len(),
        chain_complete(data, h, l, pos),
    ensures
        ({
            let (h1, l1) = spec_insert(h, l, data, pos);
            match spec_find(data, h1, l1, depth, pos) {
                Some((d, len)) => token_ok(data, depth, pos, Token::Match { distance: d, length: len }),
                None => token_ok(data, depth, pos, Token::Literal(data[pos])),
            }
        }),
{
    lemma_walk_at(data, depth, h, l, pos);
    lemma_scan_token_ok(data, depth, pos);
}

proof fn lemma_tok_run_greedy(data: Seq<u8>, depth: nat, h: Seq<u32>, l: Seq<u32>, pos: int)
    requires
        0 <= pos <= data.len(),
        data.len() <= 0xFFFF_FFFF,
        data.len() <= l.len(),
        chain_complete(data, h, l, pos),
    ensures
        greedy_parse(data, depth, pos, tok_run(data, depth, h, l, pos)),
    decreases data.len() - pos,
{
    if pos < data.len() {
        lemma_token_ok_at(data, depth, h, l, pos);
        lemma_complete_insert(data, h, l, pos);
        let (h1, l1) = spec_insert(h, l, data, pos);
        lemma_find_len(data, h1, l1, depth, pos);
        let ts = tok_run(data, depth, h, l, pos);
        match spec_find(data, h1, l1, depth, pos) {
            Some((d, len)) => {
                lemma_complete_run(data, h1, l1, pos + 1, pos + len);
                let (h2, l2) = insert_run(h1, l1, data, pos + 1, pos + len);
                lemma_tok_run_greedy(data, depth, h2, l2, pos + len);
                assert(ts.drop_first() == tok_run(data, depth, h2, l2, pos + len));
            },
            None => {
                lemma_tok_run_greedy(data, depth, h1, l1, pos + 1);
                assert(ts.drop_first() == tok_run(data, depth, h1, l1, pos + 1));
            },
        }
    }
}

/// Tokenising is greedy LZ77 with a search of depth `max_depth`: at each place
/// it emits a match with the longest run among the `max_depth - 1` nearest
/// earlier positions of the same hash within the match distance (the nearest
/// of them on ties), or a literal when none of them starts `MIN_MATCH` equal
/// bytes, and it goes on after the bytes the token stands for.
pub proof fn lemma_tokenise_greedy(data: Seq<u8>, depth: nat)
    requires
        data.len() <= 0xFFFF_FFFF,
    ensures
        greedy_parse(data, depth, 0, spec_tokenise(data, depth)),
{
    let n = if data.len() > 1 {
        data.len()
    } else {
        1
    };
    let h = Seq::new(65536, |i: int| no_pos());
    let l = Seq::new(n, |i: int| no_pos());
    assert(chain_complete(data, h, l, 0));
    lemma_tok_run_greedy(data, depth, h, l, 0);
}

} // verus!
