//! A byte buffer with a bit cursor. Bits inside a byte are handed out
//! least-significant first. Multi-bit reads come in two orderings: LSB-packed
//! (bit `i` of the result is the `i`-th bit read) and MSB-first (each new bit
//! is shifted in from the right, so the first bit read lands highest).

use vstd::arithmetic::power2::pow2;
use vstd::prelude::*;

use crate::zlib_errors::InflateError;

verus! {

/// The bit at absolute bit position `i` of the buffer: position `i` lies in
/// byte `i / 8`, and bits inside a byte are numbered from the least
/// significant end.
pub open spec fn bit_at(data: Seq<u8>, i: nat) -> u8 {
    (data[(i / 8) as int] >> ((i % 8) as u8)) & 1
}

/// The MSB-first value of the `n` bits starting at position `pos`: the first
/// bit read occupies the most significant position of the result.
pub open spec fn bits_msb(data: Seq<u8>, pos: nat, n: nat) -> nat
    decreases n,
{
    if n == 0 {
        0
    } else {
        (bits_msb(data, pos, (n - 1) as nat) * 2 + bit_at(data, (pos + n - 1) as nat)) as nat
    }
}

/// The LSB-packed value of the `n` bits starting at position `pos`: the
/// `i`-th bit read contributes `2^i`.
pub open spec fn bits_lsb(data: Seq<u8>, pos: nat, n: nat) -> nat
    decreases n,
{
    if n == 0 {
        0
    } else {
        (bits_lsb(data, pos, (n - 1) as nat) + bit_at(data, (pos + n - 1) as nat) * pow2((n - 1) as nat)) as nat
    }
}

/// The next byte-aligned position at or after `pos`.
pub open spec fn align8(pos: nat) -> nat {
    if pos % 8 == 0 {
        pos
    } else {
        (pos + 8 - pos % 8) as nat
    }
}

/// A bit is always 0 or 1.
pub proof fn lemma_bit_at_bound(data: Seq<u8>, i: nat)
    ensures
        bit_at(data, i) < 2,
{
    let b = data[(i / 8) as int];
    let s = (i % 8) as u8;
    assert((b >> s) & 1 < 2) by (bit_vector);
}

proof fn lemma_pos_parts(index: nat, bit: nat)
    by (nonlinear_arith)
    requires
        bit < 8,
    ensures
        (index * 8 + bit) / 8 == index,
        (index * 8 + bit) % 8 == bit,
{
}

/// `bits_msb` stays below `2^n`.
pub proof fn lemma_bits_msb_bound(data: Seq<u8>, pos: nat, n: nat)
    ensures
        bits_msb(data, pos, n) < pow2(n),
    decreases n,
{
    if n == 0 {
        assert(pow2(0) == 1) by {
            vstd::arithmetic::power2::lemma2_to64();
        }
    } else {
        vstd::arithmetic::power2::lemma_pow2_unfold(n);
        lemma_bits_msb_bound(data, pos, (n - 1) as nat);
        lemma_bit_at_bound(data, (pos + n - 1) as nat);
    }
}

/// `bits_lsb` stays below `2^n`.
pub proof fn lemma_bits_lsb_bound(data: Seq<u8>, pos: nat, n: nat)
    ensures
        bits_lsb(data, pos, n) < pow2(n),
    decreases n,
{
    if n == 0 {
        assert(pow2(0) == 1) by {
            vstd::arithmetic::power2::lemma2_to64();
        }
    } else {
        vstd::arithmetic::power2::lemma_pow2_unfold(n);
        lemma_bits_lsb_bound(data, pos, (n - 1) as nat);
        lemma_bit_at_bound(data, (pos + n - 1) as nat);
        assert(pow2((n - 1) as nat) * 2 == pow2(n));
        let b = bit_at(data, (pos + n - 1) as nat);
        assert(b == 0 || b == 1);
        vstd::arithmetic::mul::lemma_mul_inequality(b as int, 1, pow2((n - 1) as nat) as int);
        assert(b * pow2((n - 1) as nat) <= pow2((n - 1) as nat));
        assert(bits_lsb(data, pos, n) < pow2((n - 1) as nat) + pow2((n - 1) as nat));
    }
}

pub struct BitReader {
    data: Vec<u8>,
    index: usize,
    bit: u8,
}

impl BitReader {
    /// The buffer the reader walks over.
    pub closed spec fn buf(self) -> Seq<u8> {
        self.data@
    }

    /// The cursor as an absolute bit position.
    pub closed spec fn pos(self) -> nat {
        (self.index * 8 + self.bit) as nat
    }

    /// The cursor stays inside the buffer (one past its end at most), and a
    /// partial byte is never left behind at the very end.
    pub closed spec fn wf(self) -> bool {
        &&& self.bit < 8
        &&& self.index <= self.data@.len()
        &&& (self.bit != 0 ==> self.index < self.data@.len())
    }

    /// Total number of bits in the buffer.
    pub open spec fn total_bits(self) -> nat {
        self.buf().len() * 8
    }

    /// A well-formed cursor never stands past the end of the buffer.
    pub proof fn lemma_pos_in_bounds(self)
        requires
            self.wf(),
        ensures
            self.pos() <= self.total_bits(),
    {
        self.lemma_wf_pos();
    }

    proof fn lemma_wf_pos(self)
        requires
            self.wf(),
        ensures
            self.pos() <= self.total_bits(),
            self.pos() % 8 == self.bit,
            self.pos() / 8 == self.index,
            self.pos() < self.total_bits() <==> self.index < self.buf().len(),
    {
        lemma_pos_parts(self.index as nat, self.bit as nat);
        assert(self.index * 8 + self.bit <= self.data@.len() * 8) by (nonlinear_arith)
            requires
                self.bit < 8,
                self.index <= self.data@.len(),
                self.bit != 0 ==> self.index < self.data@.len(),
        ;
        assert(self.index * 8 + self.bit < self.data@.len() * 8 <==> self.index < self.data@.len())
            by (nonlinear_arith)
            requires
                self.bit < 8,
                self.index <= self.data@.len(),
                self.bit != 0 ==> self.index < self.data@.len(),
        ;
    }

    pub fn from_data(data: Vec<u8>) -> (r: BitReader)
        ensures
            r.wf(),
            r.buf() == data@,
            r.pos() == 0,
    {
        BitReader { data, index: 0, bit: 0 }
    }

    /// Bytes remaining from the current byte position; a partly consumed
    /// byte counts as one.
    pub fn available(&self) -> (r: usize)
        requires
            self.wf(),
        ensures
            r == self.buf().len() - self.pos() / 8,
    {
        proof {
            self.lemma_wf_pos();
        }
        self.data.len() - self.index
    }

    pub fn read_bit(&mut self) -> (r: Result<u8, InflateError>)
        requires
            old(self).wf(),
        ensures
            final(self).wf(),
            final(self).buf() == old(self).buf(),
            if old(self).pos() < old(self).total_bits() {
                &&& r == Ok::<u8, InflateError>(bit_at(old(self).buf(), old(self).pos()))
                &&& final(self).pos() == old(self).pos() + 1
            } else {
                &&& r == Err::<u8, InflateError>(InflateError::UnexpectedEof)
                &&& *final(self) == *old(self)
            },
    {
        proof {
            old(self).lemma_wf_pos();
        }
        if self.index < self.data.len() {
            let b = self.data[self.index];
            let r = (b >> self.bit) & 1;
            self.bit = self.bit + 1;
            if self.bit == 8 {
                self.bit = 0;
                self.index = self.index + 1;
            }
            proof {
                self.lemma_wf_pos();
            }
            Ok(r)
        } else {
            Err(InflateError::UnexpectedEof)
        }
    }

    /// Reads `amount` bits MSB-first: each bit is shifted in from the right,
    /// exactly as if `amount` single-bit reads were folded as
    /// `acc = acc * 2 + bit`.
    pub fn read_bits(&mut self, amount: u8) -> (r: Result<u16, InflateError>)
        requires
            old(self).wf(),
            amount <= 16,
        ensures
            final(self).wf(),
            final(self).buf() == old(self).buf(),
            if old(self).pos() + amount <= old(self).total_bits() {
                &&& r == Ok::<u16, InflateError>(
                    bits_msb(old(self).buf(), old(self).pos(), amount as nat) as u16,
                )
                &&& final(self).pos() == old(self).pos() + amount
            } else {
                &&& r == Err::<u16, InflateError>(InflateError::UnexpectedEof)
                &&& old(self).pos() <= final(self).pos() <= old(self).total_bits()
            },
    {
        let mut acc: u32 = 0;
        let mut i: u8 = 0;
        let ghost data = old(self).buf();
        let ghost pos0 = old(self).pos();
        proof {
            assert(pow2(0) == 1) by {
                vstd::arithmetic::power2::lemma2_to64();
            }
        }
        while i < amount
            invariant
                self.wf(),
                self.buf() == data,
                i <= amount <= 16,
                self.pos() == pos0 + i,
                pos0 + i <= self.total_bits(),
                acc == bits_msb(data, pos0, i as nat),
                acc < pow2(i as nat),
            decreases amount - i,
        {
            match self.read_bit() {
                Ok(b) => {
                    proof {
                        vstd::arithmetic::power2::lemma_pow2_unfold((i + 1) as nat);
                        assert(pow2(i as nat) <= pow2(16)) by {
                            if (i as nat) < 16 {
                                vstd::arithmetic::power2::lemma_pow2_strictly_increases(
                                    i as nat,
                                    16,
                                );
                            }
                        }
                        assert(pow2(16) == 0x10000) by {
                            vstd::arithmetic::power2::lemma2_to64();
                        }
                        lemma_bit_at_bound(data, pos0 + i as nat);
                    }
                    acc = acc * 2 + (b as u32);
                    i = i + 1;
                },
                Err(e) => {
                    proof {
                        self.lemma_wf_pos();
                    }
                    return Err(e);
                },
            }
        }
        proof {
            lemma_bits_msb_bound(data, pos0, amount as nat);
            assert(pow2(16) == 0x10000) by {
                vstd::arithmetic::power2::lemma2_to64();
            }
            if (amount as nat) < 16 {
                vstd::arithmetic::power2::lemma_pow2_strictly_increases(amount as nat, 16);
            }
        }
        Ok(acc as u16)
    }

    /// Reads `amount` bits as an LSB-packed integer: the `i`-th bit read
    /// lands in bit `i` of the result.
    pub fn read_bits_lsb(&mut self, amount: u8) -> (r: Result<u16, InflateError>)
        requires
            old(self).wf(),
            amount <= 16,
        ensures
            final(self).wf(),
            final(self).buf() == old(self).buf(),
            if old(self).pos() + amount <= old(self).total_bits() {
                &&& r == Ok::<u16, InflateError>(
                    bits_lsb(old(self).buf(), old(self).pos(), amount as nat) as u16,
                )
                &&& final(self).pos() == old(self).pos() + amount
            } else {
                &&& r == Err::<u16, InflateError>(InflateError::UnexpectedEof)
                &&& old(self).pos() <= final(self).pos() <= old(self).total_bits()
            },
    {
        let mut acc: u32 = 0;
        let mut place: u32 = 1;
        let mut i: u8 = 0;
        let ghost data = old(self).buf();
        let ghost pos0 = old(self).pos();
        proof {
            assert(pow2(0) == 1) by {
                vstd::arithmetic::power2::lemma2_to64();
            }
        }
        while i < amount
            invariant
                self.wf(),
                self.buf() == data,
                i <= amount <= 16,
                self.pos() == pos0 + i,
                pos0 + i <= self.total_bits(),
                acc == bits_lsb(data, pos0, i as nat),
                place == pow2(i as nat),
                acc < pow2(i as nat),
            decreases amount - i,
        {
            match self.read_bit() {
                Ok(b) => {
                    proof {
                        vstd::arithmetic::power2::lemma_pow2_unfold((i + 1) as nat);
                        assert(pow2(i as nat) <= pow2(16)) by {
                            if (i as nat) < 16 {
                                vstd::arithmetic::power2::lemma_pow2_strictly_increases(
                                    i as nat,
                                    16,
                                );
                            }
                        }
                        assert(pow2(16) == 0x10000) by {
                            vstd::arithmetic::power2::lemma2_to64();
                        }
                        lemma_bit_at_bound(data, pos0 + i as nat);
                        assert(b == 0 || b == 1);
                        vstd::arithmetic::mul::lemma_mul_inequality(b as int, 1, place as int);
                        assert((b as u32) * place <= place);
                    }
                    acc = acc + (b as u32) * place;
                    place = place * 2;
                    i = i + 1;
                },
                Err(e) => {
                    proof {
                        self.lemma_wf_pos();
                    }
                    return Err(e);
                },
            }
        }
        proof {
            lemma_bits_lsb_bound(data, pos0, amount as nat);
            assert(pow2(16) == 0x10000) by {
                vstd::arithmetic::power2::lemma2_to64();
            }
            if (amount as nat) < 16 {
                vstd::arithmetic::power2::lemma_pow2_strictly_increases(amount as nat, 16);
            }
        }
        Ok(acc as u16)
    }

    /// Reads the byte under the cursor whole. The cursor must be
    /// byte-aligned.
    pub fn read_byte(&mut self) -> (r: Result<u8, InflateError>)
        requires
            old(self).wf(),
            old(self).pos() % 8 == 0,
        ensures
            final(self).wf(),
            final(self).buf() == old(self).buf(),
            final(self).pos() % 8 == 0,
            if old(self).pos() < old(self).total_bits() {
                &&& r == Ok::<u8, InflateError>(old(self).buf()[(old(self).pos() / 8) as int])
                &&& final(self).pos() == old(self).pos() + 8
            } else {
                &&& r == Err::<u8, InflateError>(InflateError::UnexpectedEof)
                &&& *final(self) == *old(self)
            },
    {
        proof {
            old(self).lemma_wf_pos();
        }
        if self.index < self.data.len() {
            let r = self.data[self.index];
            self.index = self.index + 1;
            proof {
                self.lemma_wf_pos();
            }
            Ok(r)
        } else {
            Err(InflateError::UnexpectedEof)
        }
    }

    /// Reads two bytes, little-endian. The cursor must be byte-aligned.
    pub fn read_u16_lsb(&mut self) -> (r: Result<u16, InflateError>)
        requires
            old(self).wf(),
            old(self).pos() % 8 == 0,
        ensures
            final(self).wf(),
            final(self).buf() == old(self).buf(),
            final(self).pos() % 8 == 0,
            if old(self).pos() + 16 <= old(self).total_bits() {
                &&& r == Ok::<u16, InflateError>(
                    (old(self).buf()[(old(self).pos() / 8) as int] + old(self).buf()[(old(
                        self,
                    ).pos() / 8 + 1) as int] * 0x100) as u16,
                )
                &&& final(self).pos() == old(self).pos() + 16
            } else {
                &&& r == Err::<u16, InflateError>(InflateError::UnexpectedEof)
                &&& old(self).pos() <= final(self).pos() <= old(self).total_bits()
            },
    {
        proof {
            old(self).lemma_wf_pos();
        }
        let lo = match self.read_byte() {
            Ok(b) => b,
            Err(e) => {
                proof {
                    self.lemma_wf_pos();
                }
                return Err(e);
            },
        };
        let hi = match self.read_byte() {
            Ok(b) => b,
            Err(e) => {
                proof {
                    self.lemma_wf_pos();
                }
                return Err(e);
            },
        };
        proof {
            assert(((lo as u16) | ((hi as u16) << 8)) == lo as u16 + hi as u16 * 0x100)
                by (bit_vector);
        }
        Ok((lo as u16) | ((hi as u16) << 8))
    }

    /// Reads four bytes, big-endian. The cursor must be byte-aligned.
    pub fn read_u32_msb(&mut self) -> (r: Result<u32, InflateError>)
        requires
            old(self).wf(),
            old(self).pos() % 8 == 0,
        ensures
            final(self).wf(),
            final(self).buf() == old(self).buf(),
            final(self).pos() % 8 == 0,
            if old(self).pos() + 32 <= old(self).total_bits() {
                &&& r == Ok::<u32, InflateError>(
                    spec_be_acc(old(self).buf(), old(self).pos() / 8, 4) as u32,
                )
                &&& final(self).pos() == old(self).pos() + 32
            } else {
                &&& r == Err::<u32, InflateError>(InflateError::UnexpectedEof)
                &&& old(self).pos() <= final(self).pos() <= old(self).total_bits()
            },
    {
        proof {
            old(self).lemma_wf_pos();
        }
        let mut acc: u32 = 0;
        let mut k: u8 = 0;
        let ghost data = old(self).buf();
        let ghost pos0 = old(self).pos();
        proof {
            assert(pow2(0) == 1) by {
                vstd::arithmetic::power2::lemma2_to64();
            }
        }
        while k < 4
            invariant
                self.wf(),
                self.buf() == data,
                self.pos() % 8 == 0,
                k <= 4,
                self.pos() == pos0 + 8 * k,
                pos0 + 8 * k <= self.total_bits(),
                pos0 % 8 == 0,
                acc == spec_be_acc(data, pos0 / 8, k as nat),
                acc < pow2((8 * k) as nat),
            decreases 4 - k,
        {
            match self.read_byte() {
                Ok(b) => {
                    proof {
                        self.lemma_wf_pos();
                        lemma_be_step(data, pos0 / 8, k as nat, b);
                        vstd::arithmetic::power2::lemma2_to64();
                        assert(acc < 0x1000000);
                    }
                    acc = acc * 0x100 + (b as u32);
                    k = k + 1;
                },
                Err(e) => {
                    proof {
                        self.lemma_wf_pos();
                    }
                    return Err(e);
                },
            }
        }
        Ok(acc)
    }

    /// Advances the cursor to the next byte boundary; on an aligned cursor
    /// it does nothing.
    pub fn discard_bits(&mut self)
        requires
            old(self).wf(),
        ensures
            final(self).wf(),
            final(self).buf() == old(self).buf(),
            final(self).pos() == align8(old(self).pos()),
    {
        proof {
            old(self).lemma_wf_pos();
        }
        let n = self.data.len();
        if self.bit > 0 {
            proof {
                assert(self.index < n);
            }
            self.index = self.index + 1;
            self.bit = 0;
        }
        proof {
            self.lemma_wf_pos();
        }
    }

    /// Appends `count` bytes from the buffer at the cursor to `dest` and
    /// advances past them; on a short buffer it leaves `dest` alone. The
    /// cursor must be byte-aligned.
    pub fn copy_to(&mut self, dest: &mut Vec<u8>, count: usize) -> (r: Result<
        (),
        InflateError,
    >)
        requires
            old(self).wf(),
            old(self).pos() % 8 == 0,
        ensures
            final(self).wf(),
            final(self).buf() == old(self).buf(),
            final(self).pos() % 8 == 0,
            if old(self).pos() + count * 8 <= old(self).total_bits() {
                &&& r == Ok::<(), InflateError>(())
                &&& final(dest)@ == old(dest)@ + old(self).buf().subrange(
                    (old(self).pos() / 8) as int,
                    (old(self).pos() / 8 + count) as int,
                )
                &&& final(self).pos() == old(self).pos() + count * 8
            } else {
                &&& r == Err::<(), InflateError>(InflateError::UnexpectedEof)
                &&& *final(self) == *old(self)
                &&& final(dest)@ == old(dest)@
            },
    {
        proof {
            old(self).lemma_wf_pos();
            let idx = self.index as nat;
            let dlen = self.data@.len();
            assert(idx + count <= dlen <==> idx * 8 + count * 8 <= dlen * 8) by (nonlinear_arith);
        }
        if count > self.data.len() - self.index {
            return Err(InflateError::UnexpectedEof);
        }
        let ghost start = self.index as int;
        let dlen = self.data.len();
        let mut j: usize = 0;
        while j < count
            invariant
                self.data@ == old(self).data@,
                self.bit == 0,
                self.index == start + j,
                start + count <= dlen,
                j <= count,
                dest@ == old(dest)@ + self.data@.subrange(start, start + j),
            decreases count - j,
        {
            dest.push(self.data[self.index]);
            self.index = self.index + 1;
            j = j + 1;
            proof {
                assert(dest@ =~= old(dest)@ + self.data@.subrange(start, start + j));
            }
        }
        proof {
            self.lemma_wf_pos();
        }
        Ok(())
    }
}

/// The big-endian value of the `k` bytes starting at byte `idx`.
pub open spec fn spec_be_acc(data: Seq<u8>, idx: nat, k: nat) -> nat
    decreases k,
{
    if k == 0 {
        0
    } else {
        (spec_be_acc(data, idx, (k - 1) as nat) * 0x100 + data[(idx + k - 1) as int]) as nat
    }
}

/// The big-endian value of `k` bytes fits in `8 * k` bits.
pub proof fn lemma_be_acc_bound(data: Seq<u8>, idx: nat, k: nat)
    ensures
        spec_be_acc(data, idx, k) < pow2((8 * k) as nat),
    decreases k,
{
    vstd::arithmetic::power2::lemma2_to64();
    if k > 0 {
        lemma_be_acc_bound(data, idx, (k - 1) as nat);
        vstd::arithmetic::power2::lemma_pow2_adds((8 * (k - 1)) as nat, 8);
        assert(spec_be_acc(data, idx, (k - 1) as nat) * 0x100 + data[(idx + k - 1) as int]
            < pow2((8 * (k - 1)) as nat) * 0x100) by (nonlinear_arith)
            requires
                spec_be_acc(data, idx, (k - 1) as nat) < pow2((8 * (k - 1)) as nat),
                data[(idx + k - 1) as int] < 0x100,
        ;
    }
}

proof fn lemma_be_step(data: Seq<u8>, idx: nat, k: nat, b: u8)
    requires
        k < 4,
        spec_be_acc(data, idx, k) < pow2((8 * k) as nat),
    ensures
        spec_be_acc(data, idx, k) * 0x100 + b < pow2((8 * (k + 1)) as nat),
{
    vstd::arithmetic::power2::lemma2_to64();
    assert(pow2(8) == 0x100);
    vstd::arithmetic::power2::lemma_pow2_adds((8 * k) as nat, 8);
    assert(spec_be_acc(data, idx, k) * 0x100 + b < pow2((8 * k) as nat) * 0x100)
        by (nonlinear_arith)
        requires
            spec_be_acc(data, idx, k) < pow2((8 * k) as nat),
            b < 0x100,
    ;
}

/// The bit sequence a reader yields over a buffer `data` is exactly
/// `data[0] & 1`, `(data[0] >> 1) & 1`, ..., `(data[n-1] >> 7) & 1`: the
/// `i`-th bit read comes from byte `i / 8`, shifted down by `i % 8`.
pub proof fn lemma_bit_stream(data: Seq<u8>, i: nat)
    requires
        i < data.len() * 8,
    ensures
        bit_at(data, i) == (data[(i / 8) as int] >> ((i % 8) as u8)) & 1,
{
}

/// An MSB-first read of `n` bits equals `n` single-bit reads folded as
/// `acc = acc * 2 + bit`, the fold running over the bits first to last.
pub proof fn lemma_msb_is_bit_fold(data: Seq<u8>, pos: nat, n: nat)
    ensures
        bits_msb(data, pos, n) == fold_msb(bit_run(data, pos, n)),
    decreases n,
{
    if n == 0 {
        assert(bit_run(data, pos, n) =~= Seq::<u8>::empty());
    } else {
        lemma_msb_is_bit_fold(data, pos, (n - 1) as nat);
        let run = bit_run(data, pos, n);
        assert(run.drop_last() =~= bit_run(data, pos, (n - 1) as nat));
        assert(run.last() == bit_at(data, (pos + n - 1) as nat));
    }
}

/// The bits at positions `pos`, `pos + 1`, ..., `pos + n - 1`, in the order
/// they are read.
pub open spec fn bit_run(data: Seq<u8>, pos: nat, n: nat) -> Seq<u8> {
    Seq::new(n, |i: int| bit_at(data, (pos + i) as nat))
}

/// The left fold `acc = acc * 2 + bit` over a sequence of bits.
pub open spec fn fold_msb(bits: Seq<u8>) -> nat
    decreases bits.len(),
{
    if bits.len() == 0 {
        0
    } else {
        (fold_msb(bits.drop_last()) * 2 + bits.last()) as nat
    }
}

/// An MSB-first read of `n` bits at `pos`, as a step of the stream model:
/// the value and the next position, or the end-of-input error.
pub open spec fn spec_take_msb(data: Seq<u8>, pos: nat, n: nat) -> Result<
    (nat, nat),
    crate::zlib_errors::InflateError,
> {
    if pos + n <= data.len() * 8 {
        Ok((bits_msb(data, pos, n), pos + n))
    } else {
        Err(crate::zlib_errors::InflateError::UnexpectedEof)
    }
}

/// An LSB-packed read of `n` bits at `pos`, as a step of the stream model.
pub open spec fn spec_take_lsb(data: Seq<u8>, pos: nat, n: nat) -> Result<
    (nat, nat),
    crate::zlib_errors::InflateError,
> {
    if pos + n <= data.len() * 8 {
        Ok((bits_lsb(data, pos, n), pos + n))
    } else {
        Err(crate::zlib_errors::InflateError::UnexpectedEof)
    }
}

/// Byte alignment moves forward less than a byte, lands on a byte boundary,
/// and stays inside the buffer when `pos` was inside it.
pub proof fn lemma_align8(pos: nat)
    ensures
        pos <= align8(pos) <= pos + 7,
        align8(pos) % 8 == 0,
        align8(pos) == 8 * (align8(pos) / 8),
{
    if pos % 8 != 0 {
        let q = pos / 8;
        vstd::arithmetic::div_mod::lemma_fundamental_div_mod(pos as int, 8);
        assert(align8(pos) == 8 * q + 8);
        assert((8 * (q + 1)) % 8 == 0) by (nonlinear_arith);
        assert((8 * (q + 1)) / 8 == q + 1) by (nonlinear_arith);
    } else {
        vstd::arithmetic::div_mod::lemma_fundamental_div_mod(pos as int, 8);
    }
}

/// An aligned position below a byte count's bit total stays below it after
/// rounding: alignment never crosses a byte boundary it has not yet passed.
pub proof fn lemma_align8_in_bounds(pos: nat, len: nat)
    requires
        pos <= len * 8,
    ensures
        align8(pos) <= len * 8,
        align8(pos) / 8 <= len,
{
    lemma_align8(pos);
    if pos % 8 != 0 {
        vstd::arithmetic::div_mod::lemma_fundamental_div_mod(pos as int, 8);
        assert((len * 8) % 8 == 0) by (nonlinear_arith);
        assert(pos < len * 8);
        assert(align8(pos) == 8 * (pos / 8) + 8);
        assert(pos / 8 < len) by (nonlinear_arith)
            requires
                pos < len * 8,
        ;
    }
    assert(8 * (align8(pos) / 8) <= 8 * len ==> align8(pos) / 8 <= len) by (nonlinear_arith);
}

/// Aligning to a byte boundary is idempotent: an already aligned cursor is
/// left where it is.
pub proof fn lemma_discard_idempotent(pos: nat)
    ensures
        align8(align8(pos)) == align8(pos),
{
    lemma_align8(pos);
}

} // verus!
