//! The posit value: a bit buffer that carries the whole encoding.

use crate::buffer::BitBuf;
use crate::buffer::MAX_BITS;
use crate::encoding::absolute;
use crate::encoding::exponent_start;
use crate::encoding::nar_bits;
use crate::encoding::negated;
use crate::encoding::one_bits;
use crate::encoding::pruned;
use crate::encoding::regime_of;
use crate::encoding::run;
use crate::encoding::sign_of;
use crate::encoding::zero_bits;
use crate::regime::Regime;
use vstd::prelude::*;

verus! {

/// The longest operand that the arithmetic takes: short enough that every
/// intermediate of an operation on two such posits fits a bit buffer.
pub const MAX_LEN: usize = usize::MAX / 128;

/// A posit: sign, regime, exponent and fraction in one string of bits,
/// most significant first. The empty string is zero, the string `1` is NaR.
#[derive(Debug)]
pub struct Posit {
    pub bits: BitBuf,
}

impl View for Posit {
    type V = Seq<bool>;

    open spec fn view(&self) -> Seq<bool> {
        self.bits@
    }
}

impl Clone for Posit {
    fn clone(&self) -> (p: Posit)
        ensures
            p@ == self@,
    {
        Posit { bits: self.bits.duplicate() }
    }
}

impl Posit {
    /// NaR, the value of every undefined result.
    pub fn nar() -> (p: Posit)
        ensures
            p@ == nar_bits(),
    {
        let mut bits = BitBuf::new();
        bits.push(true);
        proof {
            assert(bits@ =~= nar_bits());
        }
        Posit { bits }
    }

    /// Zero.
    pub fn zero() -> (p: Posit)
        ensures
            p@ == zero_bits(),
    {
        Posit { bits: BitBuf::new() }
    }

    /// One.
    pub fn one() -> (p: Posit)
        ensures
            p@ == one_bits(),
    {
        let mut bits = BitBuf::new();
        bits.push(false);
        bits.push(true);
        proof {
            assert(bits@ =~= one_bits());
        }
        Posit { bits }
    }

    /// The posit with exactly the given bits.
    pub fn from_bools(bits: &[bool]) -> (p: Posit)
        requires
            bits@.len() <= MAX_BITS,
        ensures
            p@ == bits@,
    {
        Posit { bits: BitBuf::from_bools(bits) }
    }

    /// The bits of the posit, in order.
    pub fn to_bools(&self) -> (bits: Vec<bool>)
        ensures
            bits@ == self@,
    {
        self.bits.to_bools()
    }

    /// The number of bits of the posit.
    pub fn len(&self) -> (n: usize)
        ensures
            n == self@.len(),
            n <= MAX_BITS,
    {
        self.bits.len()
    }

    /// Removes the trailing zeros.
    pub fn prune(&mut self)
        ensures
            final(self)@ == pruned(old(self)@),
    {
        let mut last = self.bits.last();
        while last == Some(false)
            invariant
                pruned(self@) == pruned(old(self)@),
                last == if self@.len() > 0 {
                    Some(self@.last())
                } else {
                    None
                },
            decreases self@.len(),
        {
            let _ = self.bits.pop();
            last = self.bits.last();
        }
    }

    /// Whether the sign bit is set.
    pub fn is_negative(&self) -> (negative: bool)
        ensures
            negative == sign_of(self@),
    {
        self.bits.get(0).unwrap_or(false)
    }

    /// The regime of a posit that has one.
    pub fn regime(&self) -> (r: Regime)
        requires
            self@.len() >= 2,
        ensures
            r == Regime::of_power(regime_of(self@)),
            r.canonical(),
            r.width() + 1 == exponent_start(self@),
            r.width() <= self@.len(),
    {
        let first = self.bits.at(1);
        let n = self.bits.len();
        let mut i: usize = 1;
        while i < n && self.bits.at(i) == first
            invariant
                1 <= i <= n == self@.len(),
                n <= MAX_BITS,
                first == self@[1],
                run(self@, first, 1) == (i - 1) + run(self@, first, i as nat),
            decreases n - i,
        {
            i += 1;
        }
        let length = i - 1;
        proof {
            assert(run(self@, first, 1) == length);
            assert(length >= 1);
        }
        if first {
            Regime { is_negative: false, value: length - 1 }
        } else {
            Regime { is_negative: true, value: length }
        }
    }

    /// The posit with the opposite sign bit. Zero has no sign bit to flip
    /// and becomes NaR.
    pub fn neg(self) -> (p: Posit)
        ensures
            p@ == negated(self@),
    {
        let mut bits = self.bits;
        match bits.get(0) {
            Some(sign) => {
                bits.set(0, !sign);
            },
            None => {
                bits.push(true);
                proof {
                    assert(bits@ =~= seq![true]);
                }
            },
        }
        Posit { bits }
    }

    /// The posit with a cleared sign bit.
    pub fn abs(self) -> (p: Posit)
        ensures
            p@ == absolute(self@),
    {
        if self.is_negative() {
            self.neg()
        } else {
            self
        }
    }
}

} // verus!
