//! The arithmetic of posits under the operators `+`, `-`, `*`, `/` and
//! unary `-`.
//!
//! A posit is known by the bits it holds, and two buffers that hold the
//! same bits need not be the same buffer. What an operator returns is
//! therefore stated by a clause on the bits of the result, and not by
//! equality with a posit named in advance.

use crate::addition::add_bits;
use crate::addition::sub_bits;
use crate::division::div_bits;
use crate::encoding::negated;
use crate::multiplication::mul_bits;
use crate::posit::Posit;
use crate::posit::MAX_LEN;
use std::ops::Add;
use std::ops::Div;
use std::ops::Mul;
use std::ops::Neg;
use std::ops::Sub;
use vstd::prelude::*;
use vstd::std_specs::ops::AddSpecImpl;
use vstd::std_specs::ops::DivSpecImpl;
use vstd::std_specs::ops::MulSpecImpl;
use vstd::std_specs::ops::NegSpecImpl;
use vstd::std_specs::ops::SubSpecImpl;

verus! {

/// A posit that holds the given bits.
pub open spec fn holding(bits: Seq<bool>) -> Posit {
    choose|p: Posit| p@ == bits
}

/// Whether two operands are short enough for the arithmetic.
pub open spec fn operands_fit(a: Seq<bool>, b: Seq<bool>) -> bool {
    a.len() <= MAX_LEN && b.len() <= MAX_LEN
}

impl Neg for Posit {
    type Output = Posit;

    fn neg(self) -> (p: Posit)
        ensures
            p@ == negated(self@),
    {
        Posit::neg(self)
    }
}

impl NegSpecImpl for Posit {
    open spec fn obeys_neg_spec() -> bool {
        false
    }

    open spec fn neg_req(self) -> bool {
        true
    }

    open spec fn neg_spec(self) -> Posit {
        holding(negated(self@))
    }
}

impl Add for Posit {
    type Output = Posit;

    fn add(self, rhs: Posit) -> (p: Posit)
        ensures
            p@ == add_bits(self@, rhs@),
    {
        Posit::add(self, rhs)
    }
}

impl AddSpecImpl for Posit {
    open spec fn obeys_add_spec() -> bool {
        false
    }

    open spec fn add_req(self, rhs: Posit) -> bool {
        operands_fit(self@, rhs@)
    }

    open spec fn add_spec(self, rhs: Posit) -> Posit {
        holding(add_bits(self@, rhs@))
    }
}

impl Sub for Posit {
    type Output = Posit;

    fn sub(self, rhs: Posit) -> (p: Posit)
        ensures
            p@ == sub_bits(self@, rhs@),
    {
        Posit::sub(self, rhs)
    }
}

impl SubSpecImpl for Posit {
    open spec fn obeys_sub_spec() -> bool {
        false
    }

    open spec fn sub_req(self, rhs: Posit) -> bool {
        operands_fit(self@, rhs@)
    }

    open spec fn sub_spec(self, rhs: Posit) -> Posit {
        holding(sub_bits(self@, rhs@))
    }
}

impl Mul for Posit {
    type Output = Posit;

    fn mul(self, rhs: Posit) -> (p: Posit)
        ensures
            p@ == mul_bits(self@, rhs@),
    {
        Posit::mul(self, rhs)
    }
}

impl MulSpecImpl for Posit {
    open spec fn obeys_mul_spec() -> bool {
        false
    }

    open spec fn mul_req(self, rhs: Posit) -> bool {
        operands_fit(self@, rhs@)
    }

    open spec fn mul_spec(self, rhs: Posit) -> Posit {
        holding(mul_bits(self@, rhs@))
    }
}

impl Div for Posit {
    type Output = Posit;

    fn div(self, rhs: Posit) -> (p: Posit)
        ensures
            p@ == div_bits(self@, rhs@),
    {
        Posit::div(self, rhs)
    }
}

impl DivSpecImpl for Posit {
    open spec fn obeys_div_spec() -> bool {
        false
    }

    open spec fn div_req(self, rhs: Posit) -> bool {
        operands_fit(self@, rhs@)
    }

    open spec fn div_spec(self, rhs: Posit) -> Posit {
        holding(div_bits(self@, rhs@))
    }
}

} // verus!
