//! Bit sequences and their packing into bytes, MSB-first.
//!
//! The mathematical model of a bit stream is `Seq<bool>`. The executable
//! carrier is [`BitBuf`], a thin shell around `bitvec`'s `BitVec<u8, Msb0>`;
//! its contents are named by the uninterpreted function [`bit_buf_bits`], and
//! the packing of bits into bytes is pinned down by [`unpack_msb0`]: bit `i`
//! of the stream is bit `i % 8` (counting from the most significant side) of
//! byte `i / 8`.

use vstd::prelude::*;
use vstd::arithmetic::power2::{pow2, lemma_pow2_unfold, lemma2_to64};
use bitvec::order::Msb0;
use bitvec::vec::BitVec;

verus! {

/// Bit `j` of byte `b`, where bit 0 is the most significant bit.
pub open spec fn byte_bit(b: u8, j: int) -> bool
    recommends
        0 <= j < 8,
{
    (b >> ((7 - j) as u8)) & 1u8 == 1u8
}

/// The bit stream held by a byte sequence, MSB-first within each byte.
pub open spec fn unpack_msb0(bytes: Seq<u8>) -> Seq<bool> {
    Seq::new(bytes.len() * 8, |i: int| byte_bit(bytes[i / 8], i % 8))
}

/// A growable bit buffer, packed MSB-first over bytes.
///
/// Holds a `bitvec` bit-vector whose storage order places bit 0 of the
/// buffer at the most significant bit of byte 0. The buffer is only ever
/// built by [`BitBuf::new`], [`BitBuf::push`] and [`BitBuf::from_bytes`],
/// so its live region always starts at the front edge of its storage.
#[verifier::external_body]
pub struct BitBuf {
    inner: BitVec<u8, Msb0>,
}

/// The sequence of bits a [`BitBuf`] holds, front to back.
pub uninterp spec fn bit_buf_bits(b: BitBuf) -> Seq<bool>;

impl BitBuf {
    /// Relies on bitvec's `BitVec::new`: a freshly created bit-vector is empty.
    #[verifier::external_body]
    pub(crate) fn new() -> (r: BitBuf)
        ensures
            bit_buf_bits(r) == Seq::<bool>::empty(),
    {
        BitBuf { inner: BitVec::new() }
    }

    /// Relies on bitvec's `BitVec::push`: appends one bit at the back.
    /// `push` panics only when the length reaches the encoding limit of the
    /// bit-span (`usize::MAX >> 3` bits), which the precondition keeps far away.
    #[verifier::external_body]
    pub(crate) fn push(&mut self, bit: bool)
        requires
            bit_buf_bits(*old(self)).len() < 0x0fff_ffff,
        ensures
            bit_buf_bits(*final(self)) == bit_buf_bits(*old(self)).push(bit),
    {
        self.inner.push(bit);
    }

    /// Relies on bitvec's `BitSlice::len`: the number of live bits.
    #[verifier::external_body]
    pub(crate) fn len(&self) -> (r: usize)
        ensures
            r == bit_buf_bits(*self).len(),
    {
        self.inner.len()
    }

    /// Relies on bitvec's `BitSlice` indexing: bit `i` in semantic (Msb0) order.
    #[verifier::external_body]
    pub(crate) fn bit_at(&self, i: usize) -> (r: bool)
        requires
            i < bit_buf_bits(*self).len(),
        ensures
            r == bit_buf_bits(*self)[i as int],
    {
        self.inner[i]
    }

    /// Relies on bitvec's `BitVec::into_vec` over `u8` storage in `Msb0`
    /// order: the produced bytes carry the live bits MSB-first. The length
    /// must be a whole number of bytes so that the conversion exposes no
    /// dead bits (whose value `into_vec` leaves unspecified).
    #[verifier::external_body]
    pub(crate) fn into_bytes(self) -> (r: Vec<u8>)
        requires
            bit_buf_bits(self).len() % 8 == 0,
        ensures
            r@.len() * 8 == bit_buf_bits(self).len(),
            unpack_msb0(r@) == bit_buf_bits(self),
    {
        self.inner.into_vec()
    }

    /// Relies on bitvec's `BitVec::from_slice` over `u8` storage in `Msb0`
    /// order: the new bit-vector spans the bytes entirely, MSB-first.
    /// `from_slice` panics when the slice exceeds the bit-span encoding
    /// limit; the precondition keeps the length below that limit on both
    /// 32-bit and 64-bit hosts.
    #[verifier::external_body]
    pub(crate) fn from_bytes(bytes: &Vec<u8>) -> (r: BitBuf)
        requires
            bytes@.len() <= 0x03ff_ffff,
        ensures
            bit_buf_bits(r) == unpack_msb0(bytes@),
    {
        BitBuf { inner: BitVec::from_slice(bytes.as_slice()) }
    }
}

/// The number a bit sequence denotes when read MSB-first.
pub open spec fn bits_value(s: Seq<bool>) -> nat
    decreases s.len(),
{
    if s.len() == 0 {
        0
    } else {
        2 * bits_value(s.drop_last()) + (if s.last() {
            1nat
        } else {
            0nat
        })
    }
}

/// True when every bit of the sequence is set.
pub open spec fn all_true(s: Seq<bool>) -> bool {
    forall|i: int| 0 <= i < s.len() ==> s[i]
}

/// True when no bit of the sequence is set.
pub open spec fn all_false(s: Seq<bool>) -> bool {
    forall|i: int| 0 <= i < s.len() ==> !s[i]
}

/// A bit sequence of length `n` denotes a number below `pow2(n)`.
pub proof fn lemma_bits_value_bound(s: Seq<bool>)
    ensures
        bits_value(s) < pow2(s.len()),
    decreases s.len(),
{
    if s.len() == 0 {
        lemma2_to64();
    } else {
        lemma_bits_value_bound(s.drop_last());
        lemma_pow2_unfold(s.len());
    }
}

/// An all-zero bit sequence denotes zero.
pub proof fn lemma_bits_value_all_false(s: Seq<bool>)
    requires
        all_false(s),
    ensures
        bits_value(s) == 0,
    decreases s.len(),
{
    if s.len() > 0 {
        lemma_bits_value_all_false(s.drop_last());
    }
}

/// An all-one bit sequence of length `n` denotes `pow2(n) - 1`.
pub proof fn lemma_bits_value_all_true(s: Seq<bool>)
    requires
        all_true(s),
    ensures
        bits_value(s) == pow2(s.len()) - 1,
    decreases s.len(),
{
    if s.len() == 0 {
        lemma2_to64();
    } else {
        lemma_bits_value_all_true(s.drop_last());
        lemma_pow2_unfold(s.len());
    }
}

/// Two bit sequences of one length denoting the same number are equal.
pub proof fn lemma_bits_value_injective(a: Seq<bool>, b: Seq<bool>)
    requires
        a.len() == b.len(),
        bits_value(a) == bits_value(b),
    ensures
        a == b,
    decreases a.len(),
{
    if a.len() == 0 {
        assert(a =~= b);
    } else {
        assert(bits_value(a) == 2 * bits_value(a.drop_last()) + (if a.last() {
            1nat
        } else {
            0nat
        }));
        assert(bits_value(b) == 2 * bits_value(b.drop_last()) + (if b.last() {
            1nat
        } else {
            0nat
        }));
        assert(a.last() == b.last());
        lemma_bits_value_injective(a.drop_last(), b.drop_last());
        assert(a =~= a.drop_last().push(a.last()));
        assert(b =~= b.drop_last().push(b.last()));
    }
}

/// Splitting a bit sequence at `k` splits its value at the scale `pow2(len - k)`.
pub proof fn lemma_bits_value_split(s: Seq<bool>, k: int)
    requires
        0 <= k <= s.len(),
    ensures
        bits_value(s) == bits_value(s.take(k)) * pow2((s.len() - k) as nat) + bits_value(
            s.skip(k),
        ),
    decreases s.len() - k,
{
    if k == s.len() {
        assert(s.take(k) =~= s);
        assert(s.skip(k) =~= Seq::<bool>::empty());
        lemma2_to64();
        assert(bits_value(s.skip(k)) == 0);
        assert(s.take(k) == s);
        assert(pow2((s.len() - k) as nat) == 1);
        assert(bits_value(s.take(k)) * pow2((s.len() - k) as nat) == bits_value(s));
    } else {
        let d = s.drop_last();
        lemma_bits_value_split(d, k);
        assert(d.take(k) =~= s.take(k));
        assert(d.skip(k) =~= s.skip(k).drop_last());
        assert(s.skip(k).len() > 0);
        lemma_pow2_unfold((s.len() - k) as nat);
        let b: nat = if s.last() {
            1nat
        } else {
            0nat
        };
        let t = bits_value(s.take(k));
        let p = pow2((d.len() - k) as nat);
        let v = bits_value(d.skip(k));
        assert(bits_value(d) == t * p + v);
        assert(bits_value(s) == 2 * bits_value(d) + b);
        assert(s.skip(k).last() == s.last());
        assert(bits_value(s.skip(k)) == 2 * v + b);
        assert(pow2((s.len() - k) as nat) == 2 * p);
        assert(2 * (t * p + v) + b == t * (2 * p) + (2 * v + b)) by (nonlinear_arith);
        assert(bits_value(s) == t * pow2((s.len() - k) as nat) + bits_value(s.skip(k)));
    }
}

} // verus!
