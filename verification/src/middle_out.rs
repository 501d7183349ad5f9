//! Middle-Out LZ (MOLZ): pivot finding and bidirectional encoding.
//!
//!  1. `find_pivot`: candidates every 64 bytes, each scored over the 512-byte
//!     window around it by the total length of the matches a greedy scan finds.
//!     The first candidate with the highest positive score wins; otherwise the
//!     middle of the block. The pivot is clamped to keep 4 bytes on each side.
//!  2. `encode_bidirectional`: the bytes before the pivot and the bytes from the
//!     pivot on are tokenised separately.
use vstd::prelude::*;
use vstd::slice::slice_subrange;
use crate::lz::{
    tokenise, detokenise, HashChain, Token, MIN_MATCH, no_pos, spec_insert, spec_find, slots_below,
    spec_tokenise, spec_detokenise, tokens_well_formed, lemma_find_len, lemma_insert_slots,
    lemma_slots_grow, lemma_tokenise_round_trip,
};
use crate::format::append_bytes;

verus! {

const STRIDE: usize = 64;

const WINDOW: usize = 512;

const SCORE_DEPTH: usize = 8;

/// The total length of the matches a greedy scan of `data` finds from `pos` on,
/// given the chain state. Positions inside a match are not inserted.
pub open spec fn score_run(data: Seq<u8>, heads: Seq<u32>, links: Seq<u32>, pos: int) -> nat
    decreases data.len() - pos,
{
    if pos < 0 || pos >= data.len() {
        0
    } else {
        let (h1, l1) = spec_insert(heads, links, data, pos);
        match spec_find(data, h1, l1, 8, pos) {
            Some((d, l)) => {
                proof {
                    lemma_find_len(data, h1, l1, 8, pos);
                }
                l as nat + score_run(data, h1, l1, pos + l)
            },
            None => score_run(data, h1, l1, pos + 1),
        }
    }
}

/// The score of a window: the greedy scan from an empty chain of depth 8.
pub open spec fn spec_score(window: Seq<u8>) -> nat {
    let n = if window.len() > 1 {
        window.len()
    } else {
        1
    };
    score_run(window, Seq::new(65536, |i: int| no_pos()), Seq::new(n, |i: int| no_pos()), 0)
}

/// The window of up to 256 bytes on each side of candidate `c`.
pub open spec fn window_of(block: Seq<u8>, c: int) -> Seq<u8> {
    let start = if c > 256 {
        c - 256
    } else {
        0
    };
    let end = if c + 256 < block.len() {
        c + 256
    } else {
        block.len() as int
    };
    block.subrange(start, end)
}

/// The best candidate from `c` on, given the best score and candidate so far;
/// a later candidate must score strictly higher to win.
pub open spec fn pivot_scan(block: Seq<u8>, c: nat, best_score: nat, best: nat) -> nat
    decreases block.len() + 64 - c,
{
    if c >= block.len() {
        best
    } else {
        let s = spec_score(window_of(block, c as int));
        if s > best_score {
            pivot_scan(block, c + 64, s, c)
        } else {
            pivot_scan(block, c + 64, best_score, best)
        }
    }
}

/// The pivot of `block`: the middle of a block of at most 8 bytes, otherwise
/// the best candidate clamped into `4..=len - 4`.
pub open spec fn spec_find_pivot(block: Seq<u8>) -> nat {
    let b = block.len();
    if b <= 8 {
        b / 2
    } else {
        let p = pivot_scan(block, 0, 0, b / 2);
        if p < 4 {
            4
        } else if p > b - 4 {
            (b - 4) as nat
        } else {
            p
        }
    }
}

proof fn lemma_score_bound(data: Seq<u8>, heads: Seq<u32>, links: Seq<u32>, pos: int)
    requires
        0 <= pos <= data.len(),
    ensures
        score_run(data, heads, links, pos) <= data.len() - pos,
    decreases data.len() - pos,
{
    if pos < data.len() {
        let (h1, l1) = spec_insert(heads, links, data, pos);
        lemma_find_len(data, h1, l1, 8, pos);
        match spec_find(data, h1, l1, 8, pos) {
            Some((d, l)) => {
                lemma_score_bound(data, h1, l1, pos + l);
            },
            None => {
                lemma_score_bound(data, h1, l1, pos + 1);
            },
        }
    }
}

proof fn lemma_pivot_scan_bound(block: Seq<u8>, c: nat, best_score: nat, best: nat)
    requires
        best <= block.len(),
    ensures
        pivot_scan(block, c, best_score, best) <= block.len(),
    decreases block.len() + 64 - c,
{
    if c < block.len() {
        let s = spec_score(window_of(block, c as int));
        if s > best_score {
            lemma_pivot_scan_bound(block, c + 64, s, c);
        } else {
            lemma_pivot_scan_bound(block, c + 64, best_score, best);
        }
    }
}

/// `c` is a candidate pivot of `block`: a multiple of 64 inside the block.
pub open spec fn is_candidate(block: Seq<u8>, c: int) -> bool {
    0 <= c < block.len() && c % 64 == 0
}

/// The score of the window around candidate `c`.
pub open spec fn candidate_score(block: Seq<u8>, c: int) -> nat {
    spec_score(window_of(block, c))
}

/// `c` is the densest candidate: its window scores above zero, no candidate
/// scores more, and every earlier candidate scores less.
pub open spec fn densest_candidate(block: Seq<u8>, c: int) -> bool {
    &&& is_candidate(block, c)
    &&& candidate_score(block, c) > 0
    &&& forall|k: int| #[trigger] is_candidate(block, k) ==> candidate_score(block, k) <= candidate_score(block, c)
    &&& forall|k: int| #[trigger] is_candidate(block, k) && k < c ==> candidate_score(block, k) < candidate_score(block, c)
}

proof fn lemma_pivot_scan_densest(block: Seq<u8>, c: nat, bs: nat, best: nat)
    requires
        c % 64 == 0,
        forall|k: int| #[trigger] is_candidate(block, k) && k < c ==> candidate_score(block, k) <= bs,
        bs == 0 ==> best == block.len() / 2,
        bs > 0 ==> {
            &&& is_candidate(block, best as int)
            &&& best < c
            &&& candidate_score(block, best as int) == bs
            &&& forall|k: int| #[trigger] is_candidate(block, k) && k < best ==> candidate_score(block, k) < bs
        },
    ensures
        (exists|k: int| #[trigger] is_candidate(block, k) && candidate_score(block, k) > 0) ==> densest_candidate(
            block,
            pivot_scan(block, c, bs, best) as int,
        ),
        (forall|k: int| #[trigger] is_candidate(block, k) ==> candidate_score(block, k) == 0) ==> pivot_scan(
            block,
            c,
            bs,
            best,
        ) == block.len() / 2,
    decreases block.len() + 64 - c,
{
    if c < block.len() {
        let s = spec_score(window_of(block, c as int));
        assert(candidate_score(block, c as int) == s);
        if s > bs {
            assert forall|k: int| #[trigger] is_candidate(block, k) && k < c + 64 implies candidate_score(block, k)
                <= s by {
                if k >= c {
                    assert(k == c);
                }
            }
            lemma_pivot_scan_densest(block, c + 64, s, c);
        } else {
            assert forall|k: int| #[trigger] is_candidate(block, k) && k < c + 64 implies candidate_score(block, k)
                <= bs by {
                if k >= c {
                    assert(k == c);
                }
            }
            lemma_pivot_scan_densest(block, c + 64, bs, best);
        }
    } else {
        if exists|k: int| #[trigger] is_candidate(block, k) && candidate_score(block, k) > 0 {
            let k = choose|k: int| #[trigger] is_candidate(block, k) && candidate_score(block, k) > 0;
            assert(k < c);
        }
        if bs > 0 {
            assert(is_candidate(block, best as int));
        }
    }
}

/// The pivot sits at the densest region: when some candidate window scores
/// above zero, the pivot is the first candidate of highest score, moved in to
/// leave four bytes on each side; otherwise it is the middle of the block.
pub proof fn lemma_pivot_densest(block: Seq<u8>)
    requires
        block.len() > 8,
    ensures
        (forall|k: int| #[trigger] is_candidate(block, k) ==> candidate_score(block, k) == 0)
            ==> spec_find_pivot(block) == block.len() / 2,
        (exists|k: int| #[trigger] is_candidate(block, k) && candidate_score(block, k) > 0) ==> exists|c: int|
            densest_candidate(block, c) && spec_find_pivot(block) == if c < 4 {
                4
            } else if c > block.len() - 4 {
                block.len() - 4
            } else {
                c
            },
{
    lemma_pivot_scan_densest(block, 0, 0, block.len() / 2);
    let p = pivot_scan(block, 0, 0, block.len() / 2);
    if exists|k: int| #[trigger] is_candidate(block, k) && candidate_score(block, k) > 0 {
        assert(densest_candidate(block, p as int));
    }
}

/// The pivot lies inside the block.
pub proof fn lemma_pivot_in_block(block: Seq<u8>)
    ensures
        spec_find_pivot(block) <= block.len(),
{
    lemma_pivot_scan_bound(block, 0, 0, block.len() / 2);
}

fn score_window(window: &[u8]) -> (score: u64)
    requires
        window@.len() <= 0xFFFF_FFFF,
    ensures
        score == spec_score(window@),
        score <= window@.len(),
{
    let mut chain = HashChain::new(window.len(), SCORE_DEPTH);
    let mut score: u64 = 0;
    let mut pos: usize = 0;
    let ghost d = window@;
    proof {
        lemma_score_bound(d, chain.heads(), chain.links(), 0);
    }
    while pos < window.len()
        invariant
            d == window@,
            d.len() <= 0xFFFF_FFFF,
            chain.wf(),
            chain.depth() == 8,
            chain.links().len() >= d.len(),
            pos <= d.len(),
            slots_below(chain.heads(), pos as int),
            slots_below(chain.links(), pos as int),
            score + score_run(d, chain.heads(), chain.links(), pos as int) == spec_score(d),
            spec_score(d) <= d.len(),
        decreases d.len() - pos,
    {
        let ghost h0 = chain.heads();
        let ghost l0 = chain.links();
        proof {
            lemma_slots_grow(h0, pos as int, pos + 1);
            lemma_slots_grow(l0, pos as int, pos + 1);
            lemma_insert_slots(h0, l0, d, pos as int, pos + 1);
        }
        chain.insert(window, pos);
        let ghost h1 = chain.heads();
        let ghost l1 = chain.links();
        let found = chain.find_longest_match_forward(window, pos);
        proof {
            lemma_find_len(d, h1, l1, 8, pos as int);
            lemma_score_bound(d, h0, l0, pos as int);
        }
        match found {
            Some((_dist, l)) => {
                proof {
                    lemma_slots_grow(h1, pos + 1, pos + l);
                    lemma_slots_grow(l1, pos + 1, pos + l);
                    lemma_score_bound(d, h1, l1, pos + l);
                }
                score = score + l as u64;
                pos = pos + l as usize;
            },
            None => {
                pos = pos + 1;
            },
        }
    }
    score
}

/// Find the pivot position in `block` using a density scan.
pub fn find_pivot(block: &[u8]) -> (p: usize)
    ensures
        p == spec_find_pivot(block@),
        p <= block@.len(),
{
    proof {
        lemma_pivot_in_block(block@);
    }
    let b = block.len();
    if b <= MIN_MATCH * 2 {
        return b / 2;
    }
    let mut best_score: u64 = 0;
    let mut best_pivot = b / 2;
    let mut candidate: usize = 0;
    loop
        invariant
            b == block@.len(),
            candidate < b,
            best_score <= WINDOW,
            pivot_scan(block@, candidate as nat, best_score as nat, best_pivot as nat) == pivot_scan(
                block@,
                0,
                0,
                b as nat / 2,
            ),
        ensures
            pivot_scan(block@, 0, 0, b as nat / 2) == best_pivot,
        decreases b - candidate,
    {
        let win_start = if candidate > WINDOW / 2 { candidate - WINDOW / 2 } else { 0 };
        let win_end = if b - candidate > WINDOW / 2 { candidate + WINDOW / 2 } else { b };
        let window = slice_subrange(block, win_start, win_end);
        assert(window@ == window_of(block@, candidate as int));
        assert(window@.len() <= WINDOW);
        let score = score_window(window);
        let ghost c = candidate as nat;
        let ghost (s0, p0) = (best_score as nat, best_pivot as nat);
        if score > best_score {
            best_score = score;
            best_pivot = candidate;
        }
        assert(pivot_scan(block@, c, s0, p0) == pivot_scan(
            block@,
            c + 64,
            best_score as nat,
            best_pivot as nat,
        ));
        if b - candidate <= STRIDE {
            assert(pivot_scan(block@, c + 64, best_score as nat, best_pivot as nat) == best_pivot);
            break;
        }
        candidate += STRIDE;
    }
    let lo = if MIN_MATCH < b { MIN_MATCH } else { b };
    let hi0 = if b > MIN_MATCH { b - MIN_MATCH } else { 0 };
    let hi = if hi0 > lo { hi0 } else { lo };
    if best_pivot < lo {
        lo
    } else if best_pivot > hi {
        hi
    } else {
        best_pivot
    }
}

/// Encode `block` bidirectionally.
/// Returns `(pivot, left_tokens, right_tokens)`.
///
/// `left_tokens`  covers `block[..pivot]` (forward LZ).
/// `right_tokens` covers `block[pivot..]` (forward LZ).
pub fn encode_bidirectional(block: &[u8], max_depth: usize) -> (r: (usize, Vec<Token>, Vec<Token>))
    requires
        block@.len() <= 0xFFFF_FFFF,
    ensures
        r.0 == spec_find_pivot(block@),
        r.0 <= block@.len(),
        r.1@ == spec_tokenise(block@.take(r.0 as int), max_depth as nat),
        r.2@ == spec_tokenise(block@.skip(r.0 as int), max_depth as nat),
        tokens_well_formed(r.1@),
        tokens_well_formed(r.2@),
        spec_detokenise(r.1@) + spec_detokenise(r.2@) == block@,
{
    let pivot = find_pivot(block);
    let left = slice_subrange(block, 0, pivot);
    let right = slice_subrange(block, pivot, block.len());
    let left_tokens = tokenise(left, max_depth);
    let right_tokens = tokenise(right, max_depth);
    assert(left@ == block@.take(pivot as int));
    assert(right@ == block@.skip(pivot as int));
    assert(block@.take(pivot as int) + block@.skip(pivot as int) == block@);
    (pivot, left_tokens, right_tokens)
}

/// Decode back into the original block.
pub fn decode_bidirectional(
    pivot: usize,
    left_tokens: &[Token],
    right_tokens: &[Token],
    original_len: usize,
) -> (out: Vec<u8>)
    requires
        pivot <= original_len,
    ensures
        out@ == spec_detokenise(left_tokens@) + spec_detokenise(right_tokens@),
{
    let left = detokenise(left_tokens, pivot);
    let right = detokenise(right_tokens, original_len - pivot);
    let mut out: Vec<u8> = Vec::new();
    append_bytes(&mut out, &left);
    append_bytes(&mut out, &right);
    out
}

/// Tokenising the two sides of the pivot separately and decoding both gives
/// the block back.
pub proof fn lemma_middle_out_round_trip(block: Seq<u8>, depth: nat)
    requires
        block.len() <= 0xFFFF_FFFF,
    ensures
        ({
            let p = spec_find_pivot(block) as int;
            spec_detokenise(spec_tokenise(block.take(p), depth)) + spec_detokenise(
                spec_tokenise(block.skip(p), depth),
            ) == block
        }),
{
    lemma_pivot_in_block(block);
    let p = spec_find_pivot(block) as int;
    lemma_tokenise_round_trip(block.take(p), depth);
    lemma_tokenise_round_trip(block.skip(p), depth);
    assert(block.take(p) + block.skip(p) == block);
}

} // verus!
