//! MSB-first bit writer and bit reader.
use vstd::prelude::*;
use crate::bitseq::{
    bits_of, bits_value, bytes_bits, zeros, lemma_bits_of_len, lemma_bits_of_u64_index,
    lemma_bits_of_u32_index, lemma_bits_of_u8_index, lemma_bytes_bits_push, lemma_bytes_bits_len,
    lemma_bytes_bits_first, lemma_bits_value_of, lemma_pow2_small,
};
use crate::{EngineError, ErrorView};

verus! {

// ─────────────────────── bit-level facts about the accumulators ───────────────────────

proof fn lemma_shift_in_high(a: u64, c: u64, l: u64, k: u64)
    by (bit_vector)
    requires
        1 <= l <= 63,
        l <= k < 64,
    ensures
        (((a << l) | (c & (((1u64 << l) - 1u64) as u64))) >> k) & 1u64 == (a >> ((k - l) as u64)) & 1u64,
{
}

proof fn lemma_shift_in_low(a: u64, c: u64, l: u64, k: u64)
    by (bit_vector)
    requires
        1 <= l <= 63,
        k < l,
    ensures
        (((a << l) | (c & (((1u64 << l) - 1u64) as u64))) >> k) & 1u64 == (c >> k) & 1u64,
{
}

/// Shifting `l` low bits of `c` into an accumulator appends them to its bit string.
proof fn lemma_acc_append(a: u64, b: nat, c: u32, l: nat)
    requires
        1 <= l <= 63,
        b + l <= 64,
    ensures
        bits_of(((a << (l as u64)) | ((c as u64) & (((1u64 << (l as u64)) - 1u64) as u64))) as nat, b + l)
            == bits_of(a as nat, b) + bits_of(c as nat, l),
{
    let a2 = (a << (l as u64)) | ((c as u64) & (((1u64 << (l as u64)) - 1u64) as u64));
    let lhs = bits_of(a2 as nat, b + l);
    let rhs = bits_of(a as nat, b) + bits_of(c as nat, l);
    lemma_bits_of_len(a2 as nat, b + l);
    lemma_bits_of_len(a as nat, b);
    lemma_bits_of_len(c as nat, l);
    assert forall|i: int| 0 <= i < b + l implies lhs[i] == rhs[i] by {
        lemma_bits_of_u64_index(a2, b + l, i);
        let k = (b + l - 1 - i) as nat;
        if i < b {
            lemma_bits_of_u64_index(a, b, i);
            lemma_shift_in_high(a, c as u64, l as u64, k as u64);
            assert((k - l) as nat == (b - 1 - i) as nat);
        } else {
            lemma_bits_of_u64_index(c as u64, l, i - b);
            lemma_shift_in_low(a, c as u64, l as u64, k as u64);
            assert((l - 1 - (i - b)) as nat == k);
        }
    }
    assert(lhs == rhs);
}

proof fn lemma_byte_out(a: u64, s: u64, j: u64)
    by (bit_vector)
    requires
        s + 8 <= 64,
        j < 8,
    ensures
        ((((a >> s) as u8) as u64) >> j) & 1u64 == (a >> ((s + j) as u64)) & 1u64,
{
}

/// The top byte of the low `s + 8` bits of an accumulator, then its low `s` bits.
proof fn lemma_acc_take_byte(a: u64, s: nat)
    requires
        s + 8 <= 64,
    ensures
        bits_of(a as nat, s + 8) == bits_of(((a >> (s as u64)) as u8) as nat, 8) + bits_of(a as nat, s),
{
    let byte = (a >> (s as u64)) as u8;
    let lhs = bits_of(a as nat, s + 8);
    let rhs = bits_of(byte as nat, 8) + bits_of(a as nat, s);
    lemma_bits_of_len(a as nat, s + 8);
    lemma_bits_of_len(a as nat, s);
    lemma_bits_of_len(byte as nat, 8);
    assert forall|i: int| 0 <= i < s + 8 implies lhs[i] == rhs[i] by {
        lemma_bits_of_u64_index(a, s + 8, i);
        if i < 8 {
            lemma_bits_of_u8_index(byte, i);
            lemma_byte_out(a, s as u64, (7 - i) as u64);
        } else {
            lemma_bits_of_u64_index(a, s, i - 8);
        }
    }
    assert(lhs == rhs);
}

proof fn lemma_pad_byte(a: u64, b: u64, j: u64)
    by (bit_vector)
    requires
        1 <= b <= 7,
        j < 8,
    ensures
        ((((a << ((8u64 - b) as u64)) as u8) as u64) >> j) & 1u64 == if j >= (8u64 - b) as u64 {
            (a >> ((j - (8u64 - b)) as u64)) & 1u64
        } else {
            0u64
        },
{
}

/// The last, zero-padded byte of the writer.
proof fn lemma_acc_pad(a: u64, b: nat)
    requires
        1 <= b <= 7,
    ensures
        bits_of(((a << ((8 - b) as u64)) as u8) as nat, 8) == bits_of(a as nat, b) + zeros(
            (8 - b) as nat,
        ),
{
    let byte = (a << ((8 - b) as u64)) as u8;
    let lhs = bits_of(byte as nat, 8);
    let rhs = bits_of(a as nat, b) + zeros((8 - b) as nat);
    lemma_bits_of_len(byte as nat, 8);
    lemma_bits_of_len(a as nat, b);
    assert forall|i: int| 0 <= i < 8 implies lhs[i] == rhs[i] by {
        lemma_bits_of_u8_index(byte, i);
        lemma_pad_byte(a, b as u64, (7 - i) as u64);
        if i < b {
            lemma_bits_of_u64_index(a, b, i);
        }
    }
    assert(lhs == rhs);
}

proof fn lemma_mask_keep(a: u64, n: u64, k: u64)
    by (bit_vector)
    requires
        k < n < 64,
    ensures
        ((a & (((1u64 << n) - 1u64) as u64)) >> k) & 1u64 == (a >> k) & 1u64,
{
}

/// Masking an accumulator to its low `n` bits drops the leading bits of its bit string.
proof fn lemma_acc_drop(a: u64, b: nat, n: nat)
    requires
        n < b <= 64,
    ensures
        bits_of((a & (((1u64 << (n as u64)) - 1u64) as u64)) as nat, n) == bits_of(a as nat, b).skip(
            b - n,
        ),
{
    let a2 = a & (((1u64 << (n as u64)) - 1u64) as u64);
    let lhs = bits_of(a2 as nat, n);
    let rhs = bits_of(a as nat, b).skip(b - n);
    lemma_bits_of_len(a2 as nat, n);
    lemma_bits_of_len(a as nat, b);
    assert forall|i: int| 0 <= i < n implies lhs[i] == rhs[i] by {
        lemma_bits_of_u64_index(a2, n, i);
        lemma_bits_of_u64_index(a, b, i + (b - n));
        lemma_mask_keep(a, n as u64, (n - 1 - i) as u64);
    }
    assert(lhs == rhs);
}

proof fn lemma_peek_high(a: u64, s: u64, j: u64)
    by (bit_vector)
    requires
        s + 32 <= 64,
        j < 32,
    ensures
        ((((a >> s) as u32) >> (j as u32)) & 1u32 == 1u32) == ((a >> ((s + j) as u64)) & 1u64 == 1u64),
{
}

proof fn lemma_peek_low(a: u64, b: u64, j: u64)
    by (bit_vector)
    requires
        b < 32,
        j < 32,
    ensures
        ((((a << ((32u64 - b) as u64)) as u32) >> (j as u32)) & 1u32 == 1u32) == if j >= (32u64 - b) as u64 {
            (a >> ((j - (32u64 - b)) as u64)) & 1u64 == 1u64
        } else {
            false
        },
{
}

proof fn lemma_take_bits(a: u64, s: u64, n: u64, j: u64)
    by (bit_vector)
    requires
        1 <= n <= 31,
        s + n <= 64,
        j < n,
    ensures
        (((((a >> s) as u32) & (((1u32 << (n as u32)) - 1u32) as u32)) >> (j as u32)) & 1u32 == 1u32) == ((a
            >> ((s + j) as u64)) & 1u64 == 1u64),
        (((a >> s) as u32) & (((1u32 << (n as u32)) - 1u32) as u32)) < (1u32 << (n as u32)),
{
}

// ───────────────────────────── BitWriter ─────────────────────────────

/// MSB-first bit writer.
pub struct BitWriter {
    buf: Vec<u8>,
    acc: u64,
    bits: u32,
}

/// Zero bits that pad `n` bits up to a whole number of bytes.
pub open spec fn padding(n: nat) -> nat {
    ((8 - n % 8) % 8) as nat
}

/// The bytes of a bit string, most significant bit first, zero-padded to a whole byte.
pub open spec fn pack_bits(bits: Seq<bool>) -> Seq<u8> {
    let padded = bits + zeros(padding(bits.len()));
    Seq::new(padded.len() / 8, |i: int| bits_value(padded.subrange(8 * i, 8 * i + 8)) as u8)
}

pub(crate) proof fn lemma_bytes_bits_at(s: Seq<u8>, i: int)
    requires
        0 <= i < s.len(),
    ensures
        bytes_bits(s).subrange(8 * i, 8 * i + 8) == bits_of(s[i] as nat, 8),
    decreases s.len(),
{
    let p = s.drop_last();
    lemma_bytes_bits_len(p);
    lemma_bits_of_len(s.last() as nat, 8);
    if i < p.len() {
        lemma_bytes_bits_at(p, i);
        assert(bytes_bits(s).subrange(8 * i, 8 * i + 8) == bytes_bits(p).subrange(8 * i, 8 * i + 8));
        assert(p[i] == s[i]);
    } else {
        assert(bytes_bits(s).subrange(8 * i, 8 * i + 8) == bits_of(s.last() as nat, 8));
    }
}

/// A byte string is determined by its bits: the bytes whose bits are `bits`
/// followed by the padding are `pack_bits(bits)`.
pub proof fn lemma_pack_bits(bytes: Seq<u8>, bits: Seq<bool>)
    requires
        bytes_bits(bytes) == bits + zeros(padding(bits.len())),
    ensures
        bytes == pack_bits(bits),
{
    lemma_bytes_bits_len(bytes);
    let padded = bits + zeros(padding(bits.len()));
    let pb = pack_bits(bits);
    assert(pb.len() == bytes.len());
    assert forall|i: int| 0 <= i < bytes.len() implies pb[i] == bytes[i] by {
        lemma_bytes_bits_at(bytes, i);
        lemma_bits_value_of(bytes[i] as nat, 8);
        lemma_pow2_small();
        assert(padded.subrange(8 * i, 8 * i + 8) == bits_of(bytes[i] as nat, 8));
    }
    assert(bytes == pb);
}

impl BitWriter {
    pub closed spec fn wf(&self) -> bool {
        self.bits < 8
    }

    /// The bits written so far.
    pub closed spec fn written(&self) -> Seq<bool> {
        bytes_bits(self.buf@) + bits_of(self.acc as nat, self.bits as nat)
    }

    pub fn new() -> (w: Self)
        ensures
            w.wf(),
            w.written() == Seq::<bool>::empty(),
    {
        let w = BitWriter { buf: Vec::new(), acc: 0, bits: 0 };
        assert(w.written() == Seq::<bool>::empty());
        w
    }

    /// Write `len` bits from `code` (MSB-first, code stored in low bits).
    pub fn write_bits(&mut self, code: u32, len: u8)
        requires
            old(self).wf(),
            len <= 57,
        ensures
            final(self).wf(),
            final(self).written() == old(self).written() + bits_of(code as nat, len as nat),
    {
        if len == 0 {
            assert(bits_of(code as nat, 0) == Seq::<bool>::empty());
            assert(self.written() == self.written() + bits_of(code as nat, 0));
            return;
        }
        let ghost before = self.written();
        proof {
            lemma_acc_append(self.acc, self.bits as nat, code, len as nat);
        }
        assert(1u64 << len >= 1u64) by (bit_vector)
            requires
                len <= 57,
        ;
        self.acc = (self.acc << len) | (code as u64 & ((1u64 << len) - 1));
        self.bits += len as u32;
        assert(self.written() == before + bits_of(code as nat, len as nat));
        while self.bits >= 8
            invariant
                self.bits <= 64,
                self.written() == before + bits_of(code as nat, len as nat),
            decreases self.bits,
        {
            self.bits -= 8;
            proof {
                lemma_acc_take_byte(self.acc, self.bits as nat);
                lemma_bytes_bits_push(self.buf@, (self.acc >> self.bits) as u8);
            }
            self.buf.push((self.acc >> self.bits) as u8);
        }
    }

    /// Flush remaining bits (zero-padded to byte boundary).
    pub fn finish(self) -> (out: Vec<u8>)
        requires
            self.wf(),
        ensures
            bytes_bits(out@) == self.written() + zeros(padding(self.written().len())),
    {
        let mut buf = self.buf;
        proof {
            lemma_bytes_bits_len(buf@);
            lemma_bits_of_len(self.acc as nat, self.bits as nat);
            assert(self.written().len() % 8 == self.bits as nat) by (nonlinear_arith)
                requires
                    self.written().len() == 8 * buf@.len() + self.bits,
                    self.bits < 8,
            ;
        }
        if self.bits > 0 {
            proof {
                lemma_acc_pad(self.acc, self.bits as nat);
                lemma_bytes_bits_push(buf@, (self.acc << (8 - self.bits) as u64) as u8);
            }
            buf.push((self.acc << (8 - self.bits)) as u8);
        } else {
            assert(bits_of(self.acc as nat, 0) == Seq::<bool>::empty());
            assert(self.written() + zeros(0) == bytes_bits(buf@));
        }
        buf
    }
}

// ───────────────────────────── BitReader ─────────────────────────────

/// MSB-first bit reader.
pub struct BitReader<'a> {
    data: &'a [u8],
    pos: usize,
    acc: u64,
    bits: u32,
}

/// The first 32 bits of `s`, padded with zeros where `s` is shorter.
pub open spec fn window32(s: Seq<bool>) -> Seq<bool> {
    (s + zeros(32)).take(32)
}

impl<'a> BitReader<'a> {
    pub closed spec fn wf(&self) -> bool {
        &&& self.pos <= self.data@.len()
        &&& self.bits <= 64
    }

    /// The bits not read yet.
    pub closed spec fn remaining(&self) -> Seq<bool> {
        bits_of(self.acc as nat, self.bits as nat) + bytes_bits(
            self.data@.subrange(self.pos as int, self.data@.len() as int),
        )
    }

    /// How many of the remaining bits are already held in the accumulator.
    pub closed spec fn buffered(&self) -> nat {
        self.bits as nat
    }

    proof fn lemma_remaining_len(&self)
        requires
            self.wf(),
        ensures
            self.remaining().len() == self.bits + 8 * (self.data@.len() - self.pos),
            self.buffered() <= self.remaining().len(),
    {
        lemma_bits_of_len(self.acc as nat, self.bits as nat);
        lemma_bytes_bits_len(self.data@.subrange(self.pos as int, self.data@.len() as int));
    }

    /// Whether every bit has been read.
    pub(crate) fn is_exhausted(&self) -> (b: bool)
        requires
            self.wf(),
        ensures
            b == (self.remaining().len() == 0),
    {
        proof {
            self.lemma_remaining_len();
        }
        self.bits == 0 && self.pos >= self.data.len()
    }

    pub fn new(data: &'a [u8]) -> (r: Self)
        ensures
            r.wf(),
            r.remaining() == bytes_bits(data@),
            r.buffered() == 0,
    {
        let r = BitReader { data, pos: 0, acc: 0, bits: 0 };
        assert(data@.subrange(0, data@.len() as int) == data@);
        assert(bits_of(0, 0) + bytes_bits(data@) == bytes_bits(data@));
        r
    }

    fn refill(&mut self)
        requires
            old(self).wf(),
        ensures
            final(self).wf(),
            final(self).remaining() == old(self).remaining(),
            final(self).data@ == old(self).data@,
            final(self).bits >= old(self).bits,
            final(self).bits > 56 || final(self).pos == final(self).data@.len(),
    {
        while self.bits <= 56 && self.pos < self.data.len()
            invariant
                self.wf(),
                self.remaining() == old(self).remaining(),
                self.data@ == old(self).data@,
                self.bits >= old(self).bits,
            decreases self.data@.len() - self.pos,
        {
            let byte = self.data[self.pos];
            proof {
                lemma_acc_append(self.acc, self.bits as nat, byte as u32, 8);
                let rest = self.data@.subrange(self.pos as int, self.data@.len() as int);
                lemma_bytes_bits_first(rest);
                assert(rest.drop_first() == self.data@.subrange(
                    self.pos + 1,
                    self.data@.len() as int,
                ));
                assert(((byte as u32) as u64) == byte as u64);
                assert(((1u64 << 8u64) - 1u64) as u64 == 255u64) by (bit_vector);
                assert((byte as u64) & 255u64 == byte as u64) by (bit_vector);
            }
            self.acc = (self.acc << 8) | byte as u64;
            self.pos += 1;
            self.bits += 8;
        }
    }

    /// Peek at the next 32 bits (MSB-aligned u32, zero-padded past the end) without consuming.
    pub fn peek32(&mut self) -> (r: u32)
        requires
            old(self).wf(),
        ensures
            final(self).wf(),
            final(self).remaining() == old(self).remaining(),
            final(self).buffered() > 56 || final(self).buffered() == final(self).remaining().len(),
            final(self).buffered() <= final(self).remaining().len(),
            bits_of(r as nat, 32) == window32(old(self).remaining()),
    {
        self.refill();
        proof {
            self.lemma_remaining_len();
        }
        let r: u32 = if self.bits >= 32 {
            (self.acc >> (self.bits - 32)) as u32
        } else {
            (self.acc << (32 - self.bits)) as u32
        };
        proof {
            let rem = self.remaining();
            let w = window32(rem);
            let b = self.bits as nat;
            lemma_bits_of_len(r as nat, 32);
            lemma_bits_of_len(self.acc as nat, b);
            assert forall|i: int| 0 <= i < 32 implies bits_of(r as nat, 32)[i] == w[i] by {
                lemma_bits_of_u32_index(r, 32, i);
                if self.bits >= 32 {
                    lemma_peek_high(self.acc, (self.bits - 32) as u64, (31 - i) as u64);
                    lemma_bits_of_u64_index(self.acc, b, i);
                    assert(rem[i] == bits_of(self.acc as nat, b)[i]);
                } else {
                    lemma_peek_low(self.acc, self.bits as u64, (31 - i) as u64);
                    assert(self.data@.subrange(self.pos as int, self.data@.len() as int)
                        == Seq::<u8>::empty());
                    assert(rem == bits_of(self.acc as nat, b));
                    if i < b {
                        lemma_bits_of_u64_index(self.acc, b, i);
                    }
                }
            }
            assert(bits_of(r as nat, 32) == w);
        }
        r
    }

    /// Drop `n` of the bits already held in the accumulator.
    fn drop_buffered(&mut self, n: u32)
        requires
            old(self).wf(),
            n <= old(self).buffered(),
        ensures
            final(self).wf(),
            final(self).data@ == old(self).data@,
            final(self).remaining() == old(self).remaining().skip(n as int),
            final(self).buffered() == old(self).buffered() - n,
    {
        let ghost old_acc = self.acc;
        let ghost old_bits = self.bits;
        let ghost rest = bytes_bits(self.data@.subrange(self.pos as int, self.data@.len() as int));
        proof {
            lemma_bits_of_len(self.acc as nat, self.bits as nat);
        }
        self.bits = self.bits - n;
        if self.bits < 64 {
            proof {
                if self.bits < old_bits {
                    lemma_acc_drop(old_acc, old_bits as nat, self.bits as nat);
                } else {
                    assert(bits_of(old_acc as nat, old_bits as nat).skip(0) == bits_of(
                        old_acc as nat,
                        old_bits as nat,
                    ));
                    assert(self.bits == old_bits);
                }
            }
            let b = self.bits;
            assert(1u64 << b >= 1u64) by (bit_vector)
                requires
                    b < 64,
            ;
            self.acc &= (1u64 << self.bits) - 1;
            proof {
                if self.bits == old_bits {
                    lemma_bits_of_len(self.acc as nat, self.bits as nat);
                    lemma_bits_of_len(old_acc as nat, old_bits as nat);
                    assert(self.bits == 0 || self.bits > 0);
                    if self.bits > 0 {
                        assert forall|i: int| 0 <= i < self.bits implies bits_of(
                            self.acc as nat,
                            self.bits as nat,
                        )[i] == bits_of(old_acc as nat, old_bits as nat)[i] by {
                            lemma_bits_of_u64_index(self.acc, self.bits as nat, i);
                            lemma_bits_of_u64_index(old_acc, old_bits as nat, i);
                            lemma_mask_keep(
                                old_acc,
                                self.bits as u64,
                                (self.bits - 1 - i) as u64,
                            );
                        }
                    }
                    assert(bits_of(self.acc as nat, self.bits as nat) == bits_of(
                        old_acc as nat,
                        old_bits as nat,
                    ));
                }
            }
        }
        proof {
            let old_bits_seq = bits_of(old_acc as nat, old_bits as nat);
            assert((old_bits_seq + rest).skip(n as int) == old_bits_seq.skip(n as int) + rest);
        }
    }

    /// Consume `n` bits: the next `n` bits, or all that are left when fewer remain.
    pub fn consume(&mut self, n: u8)
        requires
            old(self).wf(),
        ensures
            final(self).wf(),
            final(self).remaining() == old(self).remaining().skip(
                if n as nat <= old(self).remaining().len() {
                    n as int
                } else {
                    old(self).remaining().len() as int
                },
            ),
    {
        let ghost start = self.remaining();
        let mut left: u32 = n as u32;
        loop
            invariant
                self.wf(),
                left <= n,
                n - left <= start.len(),
                self.remaining() == start.skip(n - left),
            ensures
                self.wf(),
                self.remaining() == start.skip(
                    if n as nat <= start.len() {
                        n as int
                    } else {
                        start.len() as int
                    },
                ),
            decreases left,
        {
            if left == 0 {
                break;
            }
            self.refill();
            proof {
                self.lemma_remaining_len();
            }
            if self.bits == 0 {
                assert(self.remaining().len() == 0);
                break;
            }
            let take = if left < self.bits {
                left
            } else {
                self.bits
            };
            proof {
                assert(start.skip(n - left).skip(take as int) == start.skip(n - left + take));
            }
            self.drop_buffered(take);
            left = left - take;
        }
    }

    /// Read exactly `n` bits as a u32.
    pub fn read_bits(&mut self, n: u8) -> (res: Result<u32, EngineError>)
        requires
            old(self).wf(),
            n <= 31,
        ensures
            final(self).wf(),
            old(self).remaining().len() < n ==> {
                &&& final(self).remaining() == old(self).remaining()
                &&& res matches Err(e) && e@ == ErrorView::DecompressError(
                    "unexpected end of bitstream"@,
                )
            },
            old(self).remaining().len() >= n ==> {
                &&& final(self).remaining() == old(self).remaining().skip(n as int)
                &&& res matches Ok(v) && v as nat == bits_value(
                    old(self).remaining().take(n as int),
                )
            },
    {
        self.refill();
        proof {
            self.lemma_remaining_len();
        }
        if self.bits < n as u32 {
            return Err(EngineError::DecompressError("unexpected end of bitstream".to_owned()));
        }
        if n == 0 {
            assert(self.remaining().skip(0) == self.remaining());
            assert(bits_value(self.remaining().take(0)) == 0) by {
                assert(self.remaining().take(0) == Seq::<bool>::empty());
            }
            return Ok(0);
        }
        let ghost old_acc = self.acc;
        let ghost old_bits = self.bits;
        let ghost rest = bytes_bits(self.data@.subrange(self.pos as int, self.data@.len() as int));
        self.bits -= n as u32;
        let val = (self.acc >> self.bits) as u32;
        assert(1u32 << n >= 1u32) by (bit_vector)
            requires
                n <= 31,
        ;
        let out = val & ((1u32 << n) - 1);
        proof {
            let head = bits_of(old_acc as nat, old_bits as nat);
            lemma_bits_of_len(old_acc as nat, old_bits as nat);
            lemma_bits_of_len(out as nat, n as nat);
            assert forall|i: int| 0 <= i < n implies bits_of(out as nat, n as nat)[i] == head[i] by {
                lemma_bits_of_u32_index(out, n as nat, i);
                lemma_bits_of_u64_index(old_acc, old_bits as nat, i);
                lemma_take_bits(old_acc, self.bits as u64, n as u64, (n - 1 - i) as u64);
            }
            lemma_take_bits(old_acc, self.bits as u64, n as u64, 0);
            assert(bits_of(out as nat, n as nat) == head.take(n as int));
            assert((head + rest).take(n as int) == head.take(n as int));
            vstd::bits::lemma_u32_pow2_no_overflow(n as nat);
            vstd::bits::lemma_u32_shl_is_mul(1u32, n as u32);
            vstd::arithmetic::div_mod::lemma_small_mod(out as nat, vstd::arithmetic::power2::pow2(n as nat));
            lemma_bits_value_of(out as nat, n as nat);
            assert(out as nat % vstd::arithmetic::power2::pow2(n as nat) == out as nat);
            if self.bits < old_bits {
                lemma_acc_drop(old_acc, old_bits as nat, self.bits as nat);
            }
        }
        let b = self.bits;
        assert(1u64 << b >= 1u64) by (bit_vector)
            requires
                b < 64,
        ;
        self.acc &= (1u64 << self.bits) - 1;
        proof {
            let head = bits_of(old_acc as nat, old_bits as nat);
            assert((head + rest).skip(n as int) == head.skip(n as int) + rest);
        }
        Ok(out)
    }
}

} // verus!
