//! Bit strings: the mathematical model behind the MSB-first bit streams.
use vstd::prelude::*;
use vstd::arithmetic::power2::{pow2, lemma_pow2_unfold, lemma_pow2_pos, lemma2_to64};
use vstd::arithmetic::div_mod::{lemma_div_denominator, lemma_mod_breakdown};
use vstd::bits::{lemma_u64_shr_is_div, lemma_u32_shr_is_div};

verus! {

/// The low `n` bits of `v`, most significant first.
pub open spec fn bits_of(v: nat, n: nat) -> Seq<bool>
    decreases n,
{
    if n == 0 {
        Seq::empty()
    } else {
        bits_of(v / 2, (n - 1) as nat).push(v % 2 == 1)
    }
}

/// The number whose binary digits, most significant first, are `s`.
pub open spec fn bits_value(s: Seq<bool>) -> nat
    decreases s.len(),
{
    if s.len() == 0 {
        0
    } else {
        2 * bits_value(s.drop_last()) + if s.last() {
            1nat
        } else {
            0nat
        }
    }
}

/// The bits of a byte string, each byte most significant bit first.
pub open spec fn bytes_bits(s: Seq<u8>) -> Seq<bool>
    decreases s.len(),
{
    if s.len() == 0 {
        Seq::empty()
    } else {
        bytes_bits(s.drop_last()) + bits_of(s.last() as nat, 8)
    }
}

/// `n` zero bits.
pub open spec fn zeros(n: nat) -> Seq<bool> {
    Seq::new(n, |i: int| false)
}

pub proof fn lemma_pow2_small()
    ensures
        pow2(0) == 1,
        pow2(1) == 2,
        pow2(8) == 256,
        pow2(15) == 32768,
        pow2(16) == 65536,
        pow2(32) == 0x1_0000_0000,
{
    lemma2_to64();
}

pub proof fn lemma_bits_of_len(v: nat, n: nat)
    ensures
        #[trigger] bits_of(v, n).len() == n,
    decreases n,
{
    if n > 0 {
        lemma_bits_of_len(v / 2, (n - 1) as nat);
    }
}

pub proof fn lemma_bits_of_index(v: nat, n: nat, i: int)
    requires
        0 <= i < n,
    ensures
        bits_of(v, n)[i] == ((v / pow2((n - 1 - i) as nat)) % 2 == 1),
    decreases n,
{
    lemma_bits_of_len(v, n);
    lemma_pow2_small();
    assert(bits_of(v, n) == bits_of(v / 2, (n - 1) as nat).push(v % 2 == 1));
    lemma_bits_of_len(v / 2, (n - 1) as nat);
    if i == n - 1 {
        assert(v / pow2(0) == v);
    } else {
        assert(bits_of(v, n)[i] == bits_of(v / 2, (n - 1) as nat)[i]);
        lemma_bits_of_len(v / 2, (n - 1) as nat);
        lemma_bits_of_index(v / 2, (n - 1) as nat, i);
        let k = (n - 2 - i) as nat;
        lemma_pow2_pos(k);
        lemma_div_denominator(v as int, 2, pow2(k) as int);
        lemma_pow2_unfold(k + 1);
        assert(v / 2 / pow2(k) == v / pow2(k + 1));
        assert((n - 1 - i) as nat == k + 1);
    }
}

pub proof fn lemma_bits_value_bound(s: Seq<bool>)
    ensures
        bits_value(s) < pow2(s.len()),
    decreases s.len(),
{
    lemma_pow2_small();
    if s.len() > 0 {
        lemma_bits_value_bound(s.drop_last());
        lemma_pow2_unfold(s.len());
    }
}

pub proof fn lemma_bits_value_of(v: nat, n: nat)
    ensures
        bits_value(bits_of(v, n)) == v % pow2(n),
    decreases n,
{
    lemma_pow2_small();
    lemma_bits_of_len(v, n);
    if n > 0 {
        let s = bits_of(v, n);
        assert(s.drop_last() == bits_of(v / 2, (n - 1) as nat));
        lemma_bits_value_of(v / 2, (n - 1) as nat);
        lemma_pow2_unfold(n);
        lemma_pow2_pos((n - 1) as nat);
        lemma_mod_breakdown(v as int, 2, pow2((n - 1) as nat) as int);
    }
}

pub proof fn lemma_bits_of_value(s: Seq<bool>)
    ensures
        bits_of(bits_value(s), s.len()) == s,
    decreases s.len(),
{
    if s.len() > 0 {
        let p = s.drop_last();
        lemma_bits_of_value(p);
        let v = bits_value(s);
        assert(v / 2 == bits_value(p));
        assert((v % 2 == 1) == s.last());
        assert(bits_of(v, s.len()) == bits_of(bits_value(p), p.len()).push(s.last()));
        assert(p.push(s.last()) == s);
    }
}

pub proof fn lemma_bits_value_concat(a: Seq<bool>, b: Seq<bool>)
    ensures
        bits_value(a + b) == bits_value(a) * pow2(b.len()) + bits_value(b),
    decreases b.len(),
{
    lemma_pow2_small();
    if b.len() == 0 {
        assert(a + b == a);
    } else {
        let bp = b.drop_last();
        assert((a + b).drop_last() == a + bp);
        assert((a + b).last() == b.last());
        lemma_bits_value_concat(a, bp);
        lemma_pow2_unfold(b.len());
        let x = bits_value(a);
        let p = pow2(bp.len());
        assert(2 * (x * p) == x * (2 * p)) by (nonlinear_arith);
    }
}

pub proof fn lemma_bytes_bits_len(s: Seq<u8>)
    ensures
        #[trigger] bytes_bits(s).len() == 8 * s.len(),
    decreases s.len(),
{
    if s.len() > 0 {
        lemma_bytes_bits_len(s.drop_last());
        lemma_bits_of_len(s.last() as nat, 8);
    }
}

pub proof fn lemma_bytes_bits_concat(a: Seq<u8>, b: Seq<u8>)
    ensures
        bytes_bits(a + b) == bytes_bits(a) + bytes_bits(b),
    decreases b.len(),
{
    if b.len() == 0 {
        assert(a + b == a);
        assert(bytes_bits(a) + bytes_bits(b) == bytes_bits(a));
    } else {
        lemma_bytes_bits_concat(a, b.drop_last());
        assert((a + b).drop_last() == a + b.drop_last());
        assert((a + b).last() == b.last());
    }
}

pub proof fn lemma_bytes_bits_push(a: Seq<u8>, x: u8)
    ensures
        bytes_bits(a.push(x)) == bytes_bits(a) + bits_of(x as nat, 8),
{
    assert(a.push(x).drop_last() == a);
}

pub proof fn lemma_bytes_bits_first(s: Seq<u8>)
    requires
        s.len() > 0,
    ensures
        bytes_bits(s) == bits_of(s[0] as nat, 8) + bytes_bits(s.drop_first()),
{
    let one = seq![s[0]];
    assert(s == one + s.drop_first());
    lemma_bytes_bits_concat(one, s.drop_first());
    assert(one.drop_last() == Seq::<u8>::empty());
    assert(one.last() == s[0]);
    assert(bytes_bits(one) == bytes_bits(Seq::<u8>::empty()) + bits_of(s[0] as nat, 8));
    assert(bytes_bits(Seq::<u8>::empty()) + bits_of(s[0] as nat, 8) == bits_of(s[0] as nat, 8));
}

/// Bit `k` (counted from the least significant) of a `u64`.
pub open spec fn bit64(x: u64, k: nat) -> bool {
    (x >> (k as u64)) & 1u64 == 1u64
}

/// Bit `k` (counted from the least significant) of a `u32`.
pub open spec fn bit32(x: u32, k: nat) -> bool {
    (x >> (k as u32)) & 1u32 == 1u32
}

pub proof fn lemma_bits_of_u64_index(x: u64, n: nat, i: int)
    requires
        0 <= i < n,
        n <= 64,
    ensures
        bits_of(x as nat, n)[i] == bit64(x, (n - 1 - i) as nat),
{
    lemma_bits_of_index(x as nat, n, i);
    let k = (n - 1 - i) as u64;
    lemma_u64_shr_is_div(x, k);
    let y = x >> k;
    assert((y & 1u64 == 1u64) == (y % 2 == 1)) by (bit_vector);
}

pub proof fn lemma_bits_of_u32_index(x: u32, n: nat, i: int)
    requires
        0 <= i < n,
        n <= 32,
    ensures
        bits_of(x as nat, n)[i] == bit32(x, (n - 1 - i) as nat),
{
    lemma_bits_of_index(x as nat, n, i);
    let k = (n - 1 - i) as u32;
    lemma_u32_shr_is_div(x, k);
    let y = x >> k;
    assert((y & 1u32 == 1u32) == (y % 2 == 1)) by (bit_vector);
}

pub proof fn lemma_bits_of_u8_index(x: u8, i: int)
    requires
        0 <= i < 8,
    ensures
        bits_of(x as nat, 8)[i] == bit64(x as u64, (7 - i) as nat),
{
    lemma_bits_of_u64_index(x as u64, 8, i);
}

} // verus!
