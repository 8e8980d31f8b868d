//! The bit buffer that backs every posit: a `bitvec` vector of bits, most
//! significant first, behind contracts over the bits it holds.

use crate::bitmath::diff_bits;
use crate::bitmath::from_value;
use crate::bitmath::lex_greater;
use crate::bitmath::repeated;
use crate::bitmath::sum_bits;
use bitvec::order::Msb0;
use bitvec::slice::AsBits;
use bitvec::vec::BitVec;
use vstd::prelude::*;

verus! {

/// The largest number of bits that a buffer can hold.
pub const MAX_BITS: usize = usize::MAX / 8;

/// A growable string of bits, held in a `bitvec::vec::BitVec`.
#[verifier::external_body]
#[derive(Debug)]
pub struct BitBuf {
    inner: BitVec<Msb0, u8>,
}

/// The bits that a buffer holds, in order.
pub uninterp spec fn held_bits(buf: BitBuf) -> Seq<bool>;

impl View for BitBuf {
    type V = Seq<bool>;

    open spec fn view(&self) -> Seq<bool> {
        held_bits(*self)
    }
}

impl BitBuf {
    /// `BitVec::new`: a buffer that holds no bit.
    #[verifier::external_body]
    pub(crate) fn new() -> (buf: BitBuf)
        ensures
            held_bits(buf) == Seq::<bool>::empty(),
    {
        BitBuf { inner: BitVec::new() }
    }

    /// `BitVec::repeat`: `len` copies of `bit`.
    #[verifier::external_body]
    pub(crate) fn repeat(bit: bool, len: usize) -> (buf: BitBuf)
        requires
            len <= MAX_BITS,
        ensures
            held_bits(buf) == repeated(bit, len as nat),
    {
        BitBuf { inner: BitVec::repeat(bit, len) }
    }

    /// `AsBits::bits` on a `u64`, collected into a vector: the 64 bits of
    /// `word`, most significant first.
    #[verifier::external_body]
    pub(crate) fn from_word(word: u64) -> (buf: BitBuf)
        ensures
            held_bits(buf) == from_value(word as nat, 64),
    {
        BitBuf { inner: word.bits::<Msb0>().iter().copied().collect() }
    }

    /// `Clone::clone` of the vector: a buffer that holds the same bits.
    #[verifier::external_body]
    pub(crate) fn duplicate(&self) -> (buf: BitBuf)
        ensures
            held_bits(buf) == held_bits(*self),
    {
        BitBuf { inner: self.inner.clone() }
    }

    /// `BitSlice::len`: the number of bits held. The vector keeps it in all
    /// but three bits of a machine word, so it never exceeds `MAX_BITS`.
    #[verifier::external_body]
    pub(crate) fn len(&self) -> (n: usize)
        ensures
            n == held_bits(*self).len(),
            n <= MAX_BITS,
    {
        self.inner.len()
    }

    /// `BitSlice::get` with one index: the bit at `index`, or `None` past the end.
    #[verifier::external_body]
    pub(crate) fn get(&self, index: usize) -> (bit: Option<bool>)
        ensures
            bit == if index < held_bits(*self).len() {
                Some(held_bits(*self)[index as int])
            } else {
                None
            },
    {
        self.inner.get(index).copied()
    }

    /// `Index<usize>`: the bit at `index`, which must be in range.
    #[verifier::external_body]
    pub(crate) fn at(&self, index: usize) -> (bit: bool)
        requires
            index < held_bits(*self).len(),
        ensures
            bit == held_bits(*self)[index as int],
    {
        self.inner[index]
    }

    /// `BitSlice::last`: the last bit, or `None` when the buffer is empty.
    #[verifier::external_body]
    pub(crate) fn last(&self) -> (bit: Option<bool>)
        ensures
            bit == if held_bits(*self).len() > 0 {
                Some(held_bits(*self).last())
            } else {
                None
            },
    {
        self.inner.last().copied()
    }

    /// `BitSlice::set`: overwrites the bit at `index`, which must be in range.
    #[verifier::external_body]
    pub(crate) fn set(&mut self, index: usize, bit: bool)
        requires
            index < held_bits(*old(self)).len(),
        ensures
            held_bits(*final(self)) == held_bits(*old(self)).update(index as int, bit),
    {
        self.inner.set(index, bit)
    }

    /// `BitVec::push`: appends one bit. A full vector would panic.
    #[verifier::external_body]
    pub(crate) fn push(&mut self, bit: bool)
        requires
            held_bits(*old(self)).len() < MAX_BITS,
        ensures
            held_bits(*final(self)) == held_bits(*old(self)).push(bit),
    {
        self.inner.push(bit)
    }

    /// `BitVec::pop`: removes and returns the last bit, if there is one.
    #[verifier::external_body]
    pub(crate) fn pop(&mut self) -> (bit: Option<bool>)
        ensures
            held_bits(*old(self)).len() == 0 ==> bit.is_none() && held_bits(*final(self))
                == held_bits(*old(self)),
            held_bits(*old(self)).len() > 0 ==> bit == Some(held_bits(*old(self)).last())
                && held_bits(*final(self)) == held_bits(*old(self)).drop_last(),
    {
        self.inner.pop()
    }

    /// `Extend::extend` with the bits of another vector: appends them in
    /// order. It reserves room first and panics beyond the largest length.
    #[verifier::external_body]
    pub(crate) fn extend(&mut self, tail: &BitBuf)
        requires
            held_bits(*old(self)).len() + held_bits(*tail).len() <= MAX_BITS,
        ensures
            held_bits(*final(self)) == held_bits(*old(self)) + held_bits(*tail),
    {
        self.inner.extend(tail.inner.iter().copied())
    }

    /// `AddAssign`: longhand addition with the shorter operand extended by
    /// zeros on the left; the result is one bit longer when the sum carries.
    #[verifier::external_body]
    pub(crate) fn add_assign(&mut self, addend: BitBuf)
        requires
            held_bits(*old(self)).len() < MAX_BITS,
            held_bits(addend).len() < MAX_BITS,
        ensures
            held_bits(*final(self)) == sum_bits(held_bits(*old(self)), held_bits(addend)),
    {
        self.inner += addend.inner
    }

    /// `SubAssign`: nothing when the subtrahend has no set bit; else the sum
    /// with its two's complement, taken at the subtrahend's width and
    /// sign-extended to a wider minuend (a narrower minuend is extended by
    /// zeros), with the carry out removed.
    #[verifier::external_body]
    pub(crate) fn sub_assign(&mut self, subtrahend: BitBuf)
        requires
            held_bits(*old(self)).len() < MAX_BITS,
            held_bits(subtrahend).len() < MAX_BITS,
        ensures
            held_bits(*final(self)) == diff_bits(held_bits(*old(self)), held_bits(subtrahend)),
    {
        self.inner -= subtrahend.inner
    }

    /// `ShlAssign<usize>`: moves every bit `count` places towards the front;
    /// the first `count` bits are lost and the vector shortens by as many.
    #[verifier::external_body]
    pub(crate) fn shl_assign(&mut self, count: usize)
        ensures
            held_bits(*final(self)) == if count < held_bits(*old(self)).len() {
                held_bits(*old(self)).skip(count as int)
            } else {
                Seq::<bool>::empty()
            },
    {
        self.inner <<= count
    }

    /// `ShrAssign<usize>`: moves every bit `count` places towards the back;
    /// the vector grows by `count` zero bits at the front.
    #[verifier::external_body]
    pub(crate) fn shr_assign(&mut self, count: usize)
        requires
            held_bits(*old(self)).len() + count <= MAX_BITS,
        ensures
            held_bits(*final(self)) == repeated(false, count as nat) + held_bits(*old(self)),
    {
        self.inner >>= count
    }

    /// `PartialOrd::gt`: dictionary order on the bits, a longer vector being
    /// greater than each of its prefixes.
    #[verifier::external_body]
    pub(crate) fn exceeds(&self, other: &BitBuf) -> (greater: bool)
        ensures
            greater == lex_greater(held_bits(*self), held_bits(*other)),
    {
        self.inner > other.inner
    }
}

impl BitBuf {
    /// The buffer that holds exactly the given bits.
    pub fn from_bools(bits: &[bool]) -> (buf: BitBuf)
        requires
            bits@.len() <= MAX_BITS,
        ensures
            buf@ == bits@,
    {
        let mut buf = BitBuf::new();
        let mut i: usize = 0;
        while i < bits.len()
            invariant
                i <= bits@.len() <= MAX_BITS,
                buf@ == bits@.take(i as int),
            decreases bits@.len() - i,
        {
            buf.push(bits[i]);
            i += 1;
            proof {
                assert(buf@ =~= bits@.take(i as int));
            }
        }
        proof {
            assert(bits@.take(i as int) =~= bits@);
        }
        buf
    }

    /// The bits of the buffer, in order.
    pub fn to_bools(&self) -> (bits: Vec<bool>)
        ensures
            bits@ == self@,
    {
        let n = self.len();
        let mut out: Vec<bool> = Vec::new();
        let mut i: usize = 0;
        while i < n
            invariant
                i <= n == self@.len(),
                out@ == self@.take(i as int),
            decreases n - i,
        {
            out.push(self.at(i));
            i += 1;
            proof {
                assert(out@ =~= self@.take(i as int));
            }
        }
        proof {
            assert(self@.take(i as int) =~= self@);
        }
        out
    }
}

} // verus!
