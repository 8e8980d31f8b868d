//! Division of posits.

use crate::bitmath::lemma_diff_bits_exact;
use crate::bitmath::lemma_diff_bits_wrapping;
use crate::bitmath::lemma_lex_greater_value;
use crate::bitmath::lemma_sum_bits;
use crate::bitmath::lemma_value_bound;
use crate::bitmath::lemma_value_concat;
use crate::bitmath::lemma_value_leading_zeros;
use crate::bitmath::lemma_value_single;
use crate::bitmath::lemma_value_trailing_zeros;
use crate::bitmath::lemma_value_zeros;
use crate::bitmath::repeated;
use crate::bitmath::value;
use crate::buffer::BitBuf;
use crate::encoding::fraction_of;
use crate::encoding::is_nar;
use crate::encoding::is_regular;
use crate::encoding::is_zero;
use crate::encoding::lemma_kinds;
use crate::encoding::lemma_regime_run;
use crate::encoding::nar_bits;
use crate::encoding::scale_of;
use crate::encoding::scaled;
use crate::encoding::sign_of;
use crate::encoding::zero_bits;
use crate::fields::Fields;
use crate::posit::Posit;
use crate::posit::MAX_LEN;
use crate::regime::Regime;
use vstd::arithmetic::power2::lemma_pow2_unfold;
use vstd::arithmetic::power2::pow2;
use vstd::prelude::*;

verus! {

/// The bits of a long division in `steps` steps: each step gives a one and
/// takes the divisor off the rest where the rest is above the divisor, and
/// a zero otherwise; then the divisor halves.
pub open spec fn quotient_bits(rest: nat, divisor: nat, steps: nat) -> Seq<bool>
    decreases steps,
{
    if steps == 0 {
        Seq::empty()
    } else {
        let bit = rest > divisor;
        let left = if bit { (rest - divisor) as nat } else { rest };
        seq![bit] + quotient_bits(left, divisor / 2, (steps - 1) as nat)
    }
}

/// The number of steps of the long division of a fraction of `p` bits:
/// one less than it has bits.
pub open spec fn division_steps(p: nat) -> nat {
    if p >= 1 {
        (p - 1) as nat
    } else {
        0
    }
}

/// What the long division starts from: the fraction `f` at the width of
/// both fractions, less the fraction `g` at that width; where `g` is the
/// larger, the difference wraps around.
#[verifier::opaque]
pub open spec fn first_rest(f: Seq<bool>, g: Seq<bool>) -> nat {
    let width = f.len() + g.len();
    ((value(f) * pow2(g.len()) - value(g) * pow2(f.len())) % (pow2(width) as int)) as nat
}

/// What the long division divides by: the significand `1.g`, moved left to
/// the first place of the rest.
#[verifier::opaque]
pub open spec fn first_divisor(f: Seq<bool>, g: Seq<bool>) -> nat {
    (pow2(g.len()) + value(g)) * pow2(division_steps(f.len()))
}

/// The posit of a quotient with the given sign and the given difference
/// of the scales, whose fraction comes from the long division of the
/// fraction `f` of the dividend by the fraction `g` of the divisor.
pub open spec fn quotient_of_fields(sign: bool, scale: int, f: Seq<bool>, g: Seq<bool>) -> Seq<
    bool,
> {
    scaled(
        sign,
        scale,
        quotient_bits(first_rest(f, g), first_divisor(f, g), division_steps(f.len())),
    )
}

/// The quotient of two regular posits: the sign is the exclusive or of
/// the signs, the scales subtract, and the fractions divide.
pub open spec fn quotient_of_regular(a: Seq<bool>, b: Seq<bool>) -> Seq<bool> {
    quotient_of_fields(
        sign_of(a) != sign_of(b),
        scale_of(a) - scale_of(b),
        fraction_of(a),
        fraction_of(b),
    )
}

/// What `a / b` is: zero for division by NaR and NaR for division by zero,
/// whatever `a` is; then NaR for a dividend that is NaR and zero for one
/// that is zero; and the quotient of the fields otherwise.
pub open spec fn div_bits(a: Seq<bool>, b: Seq<bool>) -> Seq<bool> {
    if is_nar(b) {
        zero_bits()
    } else if is_zero(b) {
        nar_bits()
    } else if is_nar(a) {
        nar_bits()
    } else if is_zero(a) {
        zero_bits()
    } else {
        quotient_of_regular(a, b)
    }
}

/// The scale of a quotient: the regimes subtracted, and the exponents
/// subtracted with a borrow from the regime where the second is larger.
fn scale_difference(first: &Fields, second: &Fields) -> (r: (Regime, usize))
    requires
        first.regime.value <= MAX_LEN,
        second.regime.value <= MAX_LEN,
        first.exponent < 4,
        second.exponent < 4,
    ensures
        r.0.canonical(),
        r.0.value <= 2 * MAX_LEN + 1,
        r.1 < 4,
        4 * r.0.power() + r.1 == 4 * first.regime.power() + first.exponent - (4
            * second.regime.power() + second.exponent),
{
    let regime = first.regime.add(second.regime.neg());
    if first.exponent >= second.exponent {
        (regime, first.exponent - second.exponent)
    } else {
        (
            regime.add(Regime { is_negative: true, value: 1 }),
            4 + first.exponent - second.exponent,
        )
    }
}

/// The rest that the long division starts from, at the width of both fractions.
fn starting_rest(f: &BitBuf, g: &BitBuf) -> (rest: BitBuf)
    requires
        f@.len() <= MAX_LEN,
        g@.len() <= MAX_LEN,
    ensures
        rest@.len() == f@.len() + g@.len(),
        value(rest@) == first_rest(f@, g@),
{
    let p = f.len();
    let q = g.len();
    let mut rest = f.duplicate();
    rest.extend(&BitBuf::repeat(false, q));
    let mut less = g.duplicate();
    less.extend(&BitBuf::repeat(false, p));
    proof {
        reveal(first_rest);
        lemma_value_trailing_zeros(f@, q as nat);
        lemma_value_trailing_zeros(g@, p as nat);
        lemma_diff_bits_wrapping(rest@, less@);
    }
    rest.sub_assign(less);
    rest
}

/// The divisor that the long division starts from: the hidden bit and the
/// fraction `g`, and behind them a zero for each step.
fn starting_divisor(g: &BitBuf, steps: usize) -> (divisor: BitBuf)
    requires
        g@.len() <= MAX_LEN,
        steps <= MAX_LEN,
    ensures
        divisor@.len() == g@.len() + 1 + steps,
        value(divisor@) == (pow2(g@.len()) + value(g@)) * pow2(steps as nat),
{
    let q = g.len();
    let mut divisor = BitBuf::new();
    divisor.push(true);
    divisor.extend(&BitBuf::repeat(false, q));
    proof {
        assert(divisor@ =~= seq![true] + repeated(false, q as nat));
        lemma_value_concat(seq![true], repeated(false, q as nat));
        lemma_value_single(true);
        lemma_value_zeros(q as nat);
        let w = pow2(q as nat);
        assert(1 * w == w) by (nonlinear_arith);
        lemma_value_bound(g@);
        lemma_pow2_unfold((q + 1) as nat);
        lemma_sum_bits(divisor@, g@);
    }
    divisor.add_assign(g.duplicate());
    proof {
        lemma_value_trailing_zeros(divisor@, steps as nat);
    }
    divisor.extend(&BitBuf::repeat(false, steps));
    divisor
}

/// The long division of a rest by a divisor of the same width, in `steps` steps.
fn long_division(rest: BitBuf, divisor: BitBuf, steps: usize) -> (quotient: BitBuf)
    requires
        steps <= MAX_LEN,
        steps > 0 ==> 1 <= rest@.len() == divisor@.len(),
        rest@.len() <= 2 * MAX_LEN,
    ensures
        quotient@.len() == steps,
        quotient@ == quotient_bits(value(rest@), value(divisor@), steps as nat),
{
    let ghost first_rest = value(rest@);
    let ghost first_divisor = value(divisor@);
    let mut rest = rest;
    let mut divisor = divisor;
    let mut quotient = BitBuf::new();
    let mut i: usize = 0;
    proof {
        assert(quotient@ + quotient_bits(first_rest, first_divisor, steps as nat)
            =~= quotient_bits(first_rest, first_divisor, steps as nat));
    }
    while i < steps
        invariant
            i <= steps <= MAX_LEN,
            steps > 0 ==> 1 <= rest@.len() == divisor@.len(),
            rest@.len() <= 2 * MAX_LEN,
            quotient@.len() == i,
            quotient@ + quotient_bits(value(rest@), value(divisor@), (steps - i) as nat)
                == quotient_bits(first_rest, first_divisor, steps as nat),
        decreases steps - i,
    {
        let ghost r = value(rest@);
        let ghost d = value(divisor@);
        let ghost before = quotient@;
        let ghost whole = divisor@;
        proof {
            lemma_lex_greater_value(rest@, divisor@);
        }
        if rest.exceeds(&divisor) {
            quotient.push(true);
            proof {
                lemma_diff_bits_exact(rest@, divisor@);
            }
            rest.sub_assign(divisor.duplicate());
        } else {
            quotient.push(false);
        }
        let _ = divisor.pop();
        divisor.shr_assign(1);
        i += 1;
        proof {
            lemma_value_leading_zeros(1, whole.drop_last());
            assert(value(divisor@) == d / 2);
            let tail = quotient_bits(value(rest@), value(divisor@), (steps - i) as nat);
            assert(quotient_bits(r, d, (steps - i + 1) as nat) == seq![r > d] + tail);
            assert(quotient@ + tail =~= before + (seq![r > d] + tail));
        }
    }
    proof {
        assert(quotient@ + Seq::<bool>::empty() =~= quotient@);
    }
    quotient
}

/// The posit of a quotient, from the sign, the difference of the scales
/// and the fractions of dividend and divisor.
fn divide_fields(sign: bool, regime: Regime, exponent: usize, f: &BitBuf, g: &BitBuf) -> (p:
    Posit)
    requires
        regime.canonical(),
        regime.value <= 2 * MAX_LEN + 1,
        exponent < 4,
        f@.len() <= MAX_LEN,
        g@.len() <= MAX_LEN,
    ensures
        p@ == quotient_of_fields(sign, 4 * regime.power() + exponent, f@, g@),
{
    let rest = starting_rest(f, g);
    let width = g.len() + 1;
    let steps = if rest.len() >= width { rest.len() - width } else { 0 };
    let divisor = starting_divisor(g, steps);
    proof {
        assert(steps == division_steps(f@.len()));
        assert(value(divisor@) == first_divisor(f@, g@)) by {
            reveal(first_divisor);
        }
    }
    let quotient = long_division(rest, divisor, steps);
    Posit::with_scale(sign, regime, exponent, &quotient)
}

impl Posit {
    /// The quotient of two regular posits.
    fn divide_regular(&self, rhs: &Posit) -> (p: Posit)
        requires
            is_regular(self@),
            is_regular(rhs@),
            self@.len() <= MAX_LEN,
            rhs@.len() <= MAX_LEN,
        ensures
            p@ == quotient_of_regular(self@, rhs@),
    {
        proof {
            lemma_kinds(self@);
            lemma_kinds(rhs@);
            lemma_regime_run(self@);
            lemma_regime_run(rhs@);
        }
        let fa = self.decode();
        let fb = rhs.decode();
        let (regime, exponent) = scale_difference(&fa, &fb);
        divide_fields(fa.sign != fb.sign, regime, exponent, &fa.fraction, &fb.fraction)
    }

    /// The quotient of two posits.
    pub fn div(self, rhs: Posit) -> (p: Posit)
        requires
            self@.len() <= MAX_LEN,
            rhs@.len() <= MAX_LEN,
        ensures
            p@ == div_bits(self@, rhs@),
    {
        proof {
            lemma_kinds(self@);
            lemma_kinds(rhs@);
        }
        let nar = Posit::nar();
        let zero = Posit::zero();
        if rhs.same(&nar) {
            return zero;
        }
        if rhs.same(&zero) {
            return nar;
        }
        if self.same(&nar) {
            return nar;
        }
        if self.same(&zero) {
            return zero;
        }
        self.divide_regular(&rhs)
    }
}

} // verus!
