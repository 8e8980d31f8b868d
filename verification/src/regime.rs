//! The regime of a posit: a signed count that scales the value by a power
//! of sixteen, written in the bit string as a run of equal bits.

use crate::bitmath::repeated;
use crate::buffer::BitBuf;
use crate::buffer::MAX_BITS;
use vstd::prelude::*;

verus! {

/// A regime as sign and magnitude. The regime of magnitude zero is the
/// non-negative one.
#[derive(Clone, Copy, Debug, PartialEq, Eq, Structural)]
pub struct Regime {
    pub is_negative: bool,
    pub value: usize,
}

/// `k` kept within the magnitudes that a regime can hold.
pub open spec fn saturated(k: int) -> int {
    if k > usize::MAX {
        usize::MAX as int
    } else if k < -(usize::MAX as int) {
        -(usize::MAX as int)
    } else {
        k
    }
}

impl Regime {
    /// The power of sixteen that the regime stands for.
    pub open spec fn power(self) -> int {
        if self.is_negative {
            -(self.value as int)
        } else {
            self.value as int
        }
    }

    /// The regime that stands for `k`, for `k` within the machine's range.
    pub open spec fn of_power(k: int) -> Regime {
        Regime { is_negative: k < 0, value: (if k < 0 { -k } else { k }) as usize }
    }

    /// Whether the regime is the one that `of_power` gives for its power:
    /// magnitude zero is never negative.
    pub open spec fn canonical(self) -> bool {
        self.is_negative ==> self.value > 0
    }

    /// The length of the unary code.
    pub open spec fn width(self) -> nat {
        if self.is_negative {
            (self.value + 1) as nat
        } else {
            (self.value + 2) as nat
        }
    }

    /// The unary code: `value` zeros and a one when negative, `value + 1`
    /// ones and a zero otherwise.
    pub open spec fn code(self) -> Seq<bool> {
        if self.is_negative {
            repeated(false, self.value as nat).push(true)
        } else {
            repeated(true, (self.value + 1) as nat).push(false)
        }
    }

    /// The number of bits that the unary code takes.
    pub fn bits(&self) -> (n: usize)
        requires
            self.value <= usize::MAX - 2,
        ensures
            n == self.width(),
    {
        if self.is_negative {
            self.value + 1
        } else {
            self.value + 2
        }
    }

    /// The unary code as a bit buffer.
    pub fn to_bitvec(&self) -> (code: BitBuf)
        requires
            self.value <= MAX_BITS - 2,
        ensures
            code@ == self.code(),
    {
        if self.is_negative {
            let mut bits = BitBuf::repeat(false, self.value);
            bits.push(true);
            bits
        } else {
            let mut bits = BitBuf::repeat(true, self.value + 1);
            bits.push(false);
            bits
        }
    }

    /// The opposite regime. Magnitude zero stays non-negative.
    pub fn neg(self) -> (r: Regime)
        ensures
            r == Regime::of_power(-self.power()),
            r.canonical(),
    {
        Regime { is_negative: !self.is_negative && self.value != 0, value: self.value }
    }

    /// The sum of two regimes, saturating at the machine's integer width.
    pub fn add(self, other: Regime) -> (r: Regime)
        ensures
            r == Regime::of_power(saturated(self.power() + other.power())),
            r.canonical(),
    {
        if self.is_negative == other.is_negative {
            let value = self.value.saturating_add(other.value);
            Regime { is_negative: self.is_negative && value != 0, value }
        } else if other.value > self.value {
            Regime { is_negative: other.is_negative, value: other.value - self.value }
        } else {
            let value = self.value - other.value;
            Regime { is_negative: self.is_negative && value != 0, value }
        }
    }
}

} // verus!
