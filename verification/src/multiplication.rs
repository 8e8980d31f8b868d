//! Multiplication of posits.

use crate::addition::carry;
use crate::bitmath::from_value;
use crate::bitmath::lemma_from_value_value;
use crate::bitmath::lemma_pow2_monotonic;
use crate::bitmath::lemma_strip;
use crate::bitmath::lemma_sum_bits;
use crate::bitmath::lemma_top_bit;
use crate::bitmath::lemma_value_bound;
use crate::bitmath::lemma_value_skip_first;
use crate::bitmath::lemma_value_trailing_zeros;
use crate::bitmath::repeated;
use crate::bitmath::value;
use crate::buffer::BitBuf;
use crate::encoding::fraction_of;
use crate::encoding::is_nar;
use crate::encoding::is_regular;
use crate::encoding::is_zero;
use crate::encoding::lemma_kinds;
use crate::encoding::lemma_regime_run;
use crate::encoding::nar_bits;
use crate::encoding::scale_of;
use crate::encoding::scaled;
use crate::encoding::sign_of;
use crate::encoding::zero_bits;
use crate::fields::Fields;
use crate::posit::Posit;
use crate::posit::MAX_LEN;
use crate::regime::Regime;
use vstd::arithmetic::power2::lemma_pow2_adds;
use vstd::arithmetic::power2::lemma_pow2_pos;
use vstd::arithmetic::power2::lemma_pow2_unfold;
use vstd::arithmetic::power2::pow2;
use vstd::prelude::*;

verus! {

/// The product of two significands `1.f` and `1.g`, less the product of
/// the two hidden bits, in units of the last place of the product: the two
/// cross terms and the product of the fractions.
#[verifier::opaque]
pub open spec fn fraction_product(f: Seq<bool>, g: Seq<bool>) -> nat {
    value(f) * pow2(g.len()) + value(g) * pow2(f.len()) + value(f) * value(g)
}

/// The posit of a product with the given sign, the given sum of the
/// scales and the fractions `f` and `g` of the factors. A fraction
/// product that fits the `n` places of the two fractions is the new
/// fraction; one that reaches `2^n` or `2^(n+1)` gives that much up, and
/// the scale gains one or two.
pub open spec fn product_of_fields(sign: bool, scale: int, f: Seq<bool>, g: Seq<bool>) -> Seq<
    bool,
> {
    let n = f.len() + g.len();
    let v = fraction_product(f, g);
    if v < pow2(n) {
        scaled(sign, scale, from_value(v, n))
    } else if v < pow2(n + 1) {
        scaled(sign, scale + 1, from_value((v - pow2(n)) as nat, n))
    } else {
        scaled(sign, scale + 2, from_value((v - pow2(n + 1)) as nat, n))
    }
}

/// The product of two regular posits: the sign is the exclusive or of the
/// signs, the scales add, and the fractions multiply.
pub open spec fn product_of_regular(a: Seq<bool>, b: Seq<bool>) -> Seq<bool> {
    product_of_fields(
        sign_of(a) != sign_of(b),
        scale_of(a) + scale_of(b),
        fraction_of(a),
        fraction_of(b),
    )
}

/// What `a * b` is: NaR with a NaR operand, zero with a zero operand, and
/// the product of the fields otherwise.
pub open spec fn mul_bits(a: Seq<bool>, b: Seq<bool>) -> Seq<bool> {
    if is_nar(a) || is_nar(b) {
        nar_bits()
    } else if is_zero(a) || is_zero(b) {
        zero_bits()
    } else {
        product_of_regular(a, b)
    }
}

/// The fraction product is below three times `2^n`.
pub proof fn lemma_fraction_product_bound(f: Seq<bool>, g: Seq<bool>)
    ensures
        fraction_product(f, g) < 3 * pow2(f.len() + g.len()),
{
    reveal(fraction_product);
    lemma_value_bound(f);
    lemma_value_bound(g);
    lemma_pow2_adds(f.len(), g.len());
    let x = value(f);
    let y = value(g);
    let p = pow2(f.len());
    let q = pow2(g.len());
    lemma_pow2_pos(f.len());
    lemma_pow2_pos(g.len());
    assert(x * q < p * q) by (nonlinear_arith)
        requires
            x < p,
            q > 0,
    ;
    assert(y * p < p * q) by (nonlinear_arith)
        requires
            y < q,
            p > 0,
    ;
    assert(x * y < p * q) by (nonlinear_arith)
        requires
            x < p,
            y < q,
    ;
}

/// The sum of the terms of a long multiplication: `f` behind `g.len()`
/// zeros, `g` behind `f.len()` zeros, and `f` once more for each set bit
/// of `g`, moved left by the place of that bit. The result has the places
/// of the two fractions, and more only when its first bit is set.
fn multiply_fractions(f: &BitBuf, g: &BitBuf) -> (product: BitBuf)
    requires
        f@.len() <= MAX_LEN,
        g@.len() <= MAX_LEN,
    ensures
        value(product@) == fraction_product(f@, g@),
        product@.len() >= f@.len() + g@.len(),
        product@.len() > f@.len() + g@.len() ==> product@[0],
        product@.len() <= f@.len() + g@.len() + 2,
{
    let p = f.len();
    let q = g.len();
    let mut acc = f.duplicate();
    acc.extend(&BitBuf::repeat(false, q));
    let mut cross = g.duplicate();
    cross.extend(&BitBuf::repeat(false, p));
    proof {
        lemma_value_trailing_zeros(f@, q as nat);
        lemma_value_trailing_zeros(g@, p as nat);
        lemma_sum_bits(acc@, cross@);
        lemma_fraction_product_bound(f@, g@);
        assert(g@.skip(q as int) =~= Seq::<bool>::empty());
        assert(value(f@) * 0 == 0) by (nonlinear_arith);
    }
    acc.add_assign(cross);
    let mut i: usize = 0;
    while i < q
        invariant
            i <= q == g@.len(),
            p == f@.len(),
            p <= MAX_LEN,
            q <= MAX_LEN,
            value(acc@) == value(f@) * pow2(q as nat) + value(g@) * pow2(p as nat) + value(f@)
                * value(g@.skip(q - i)),
            acc@.len() >= p + q,
            acc@.len() > p + q ==> acc@[0],
            acc@.len() <= p + q + 2,
        decreases q - i,
    {
        if g.at(q - 1 - i) {
            let mut term = f.duplicate();
            term.extend(&BitBuf::repeat(false, i));
            proof {
                lemma_value_trailing_zeros(f@, i as nat);
                lemma_sum_bits(acc@, term@);
                lemma_partial_product(f@, g@, i as nat);
                lemma_top_bit(acc@);
                lemma_value_bound(acc@);
                lemma_pow2_unfold((p + q + 1) as nat);
                lemma_pow2_unfold((p + q + 2) as nat);
                lemma_pow2_unfold(acc@.len());
            }
            acc.add_assign(term);
            proof {
                lemma_top_bit(acc@);
            }
        } else {
            proof {
                lemma_partial_product(f@, g@, i as nat);
            }
        }
        i += 1;
    }
    proof {
        reveal(fraction_product);
        assert(g@.skip(0) =~= g@);
    }
    acc
}

/// What a fraction product gives up in so many renormalizing passes.
pub open spec fn given_up(passes: nat, n: nat) -> nat {
    if passes == 0 {
        0
    } else if passes == 1 {
        pow2(n)
    } else {
        pow2(n + 1)
    }
}

/// Gives up what a fraction product holds beyond its `n` places: while
/// it is wider, `2^n` is taken off, the scale gains one, and the first
/// bit, now clear, is dropped.
fn renormalize(product: BitBuf, n: usize) -> (r: (BitBuf, usize))
    requires
        n <= 2 * MAX_LEN,
        n <= product@.len() <= n + 2,
        product@.len() > n ==> product@[0],
        value(product@) < 3 * pow2(n as nat),
    ensures
        r.0@.len() == n,
        r.1 == product@.len() - n,
        value(r.0@) + given_up(r.1 as nat, n as nat) == value(product@),
{
    let mut x = product;
    let mut gained: usize = 0;
    proof {
        assert(0 * pow2(n as nat) == 0) by (nonlinear_arith);
    }
    while x.len() > n
        invariant
            n <= 2 * MAX_LEN,
            n <= x@.len(),
            x@.len() + gained == product@.len() <= n + 2,
            x@.len() > n ==> x@[0],
            value(x@) == value(product@) - gained * pow2(n as nat),
            value(x@) + gained * pow2(n as nat) < 3 * pow2(n as nat),
        decreases x@.len(),
    {
        let ghost before = x@;
        let mut one = BitBuf::new();
        one.push(true);
        one.extend(&BitBuf::repeat(false, n));
        proof {
            assert(one@ =~= seq![true] + repeated(false, n as nat));
            lemma_top_bit(before);
            lemma_value_bound(before);
            lemma_pow2_monotonic(n as nat, (before.len() - 1) as nat);
            lemma_strip(before, n as nat);
            lemma_pow2_unfold((n + 1) as nat);
            lemma_pow2_unfold((n + 2) as nat);
            let p = pow2(n as nat);
            assert((gained + 1) * p == gained * p + p) by (nonlinear_arith);
            assert(gained * p >= 0) by (nonlinear_arith);
        }
        x.sub_assign(one);
        proof {
            lemma_top_bit(x@);
            lemma_value_skip_first(x@);
        }
        if !x.at(0) {
            x.shl_assign(1);
        }
        gained += 1;
        proof {
            if x@.len() > n {
                lemma_top_bit(x@);
            }
        }
    }
    proof {
        let p = pow2(n as nat);
        lemma_pow2_unfold((n + 1) as nat);
        assert(0 * p == 0) by (nonlinear_arith);
        assert(1 * p == p) by (nonlinear_arith);
        assert(2 * p == p + p) by (nonlinear_arith);
    }
    (x, gained)
}

/// One more bit of the multiplier: the partial product grows by the
/// multiplicand at the place of that bit when the bit is set, and stays
/// below the whole product.
pub proof fn lemma_partial_product(f: Seq<bool>, g: Seq<bool>, i: nat)
    requires
        i < g.len(),
    ensures
        value(f) * value(g.skip(g.len() - 1 - i)) == value(f) * value(g.skip(g.len() - i)) + (
        if g[g.len() - 1 - i] {
            value(f) * pow2(i)
        } else {
            0
        }),
        fraction_product(f, g.skip(g.len() - 1 - i)) < 3 * pow2(f.len() + i + 1),
        value(f) * pow2(g.len()) + value(g) * pow2(f.len()) + value(f) * value(
            g.skip(g.len() - 1 - i),
        ) < 3 * pow2(f.len() + g.len()),
{
    reveal(fraction_product);
    let t = g.skip(g.len() - 1 - i);
    let u = g.skip(g.len() - i);
    assert(t.skip(1) =~= u);
    lemma_value_skip_first(t);
    let x = value(f);
    let y = value(u);
    let w = pow2(i);
    assert(x * (w + y) == x * w + x * y) by (nonlinear_arith);
    lemma_fraction_product_bound(f, t);
    // the partial product is not above the whole one
    lemma_value_bound(f);
    lemma_value_bound(g);
    lemma_value_bound(t);
    lemma_pow2_adds(f.len(), g.len());
    lemma_pow2_pos(f.len());
    lemma_pow2_pos(g.len());
    lemma_pow2_monotonic(t.len(), g.len());
    let p = pow2(f.len());
    let q = pow2(g.len());
    let vg = value(g);
    let vt = value(t);
    assert(x * q < p * q) by (nonlinear_arith)
        requires
            x < p,
            q > 0,
    ;
    assert(vg * p < p * q) by (nonlinear_arith)
        requires
            vg < q,
            p > 0,
    ;
    assert(x * vt < p * q) by (nonlinear_arith)
        requires
            x < p,
            vt < q,
    ;
}

/// How much a fraction product of a given width gives up: nothing when it
/// has the `n` places of the fractions, `2^n` when it has one bit more,
/// and `2^(n+1)` in two passes when it has two.
pub proof fn lemma_product_shape(product: Seq<bool>, n: nat)
    requires
        n <= product.len() <= n + 2,
        product.len() > n ==> product[0],
    ensures
        product.len() == n <==> value(product) < pow2(n),
        product.len() == n + 1 <==> pow2(n) <= value(product) < pow2(n + 1),
        (product.len() - n) * pow2(n) == if value(product) < pow2(n) {
            0
        } else if value(product) < pow2(n + 1) {
            pow2(n) as int
        } else {
            pow2(n + 1) as int
        },
{
    let p = pow2(n);
    lemma_value_bound(product);
    lemma_pow2_unfold(n + 1);
    lemma_pow2_unfold(n + 2);
    lemma_pow2_pos(n);
    if product.len() > n {
        lemma_top_bit(product);
    }
    assert(0 * p == 0) by (nonlinear_arith);
    assert(1 * p == p) by (nonlinear_arith);
    assert(2 * p == p + p) by (nonlinear_arith);
}

/// The renormalized fraction product, with the scale it gained, is the
/// product of the fields.
pub proof fn lemma_product_assembled(
    sign: bool,
    scale: int,
    f: Seq<bool>,
    g: Seq<bool>,
    product: Seq<bool>,
    fraction: Seq<bool>,
    gained: nat,
)
    requires
        value(product) == fraction_product(f, g),
        f.len() + g.len() <= product.len() <= f.len() + g.len() + 2,
        product.len() > f.len() + g.len() ==> product[0],
        gained == product.len() - (f.len() + g.len()),
        fraction.len() == f.len() + g.len(),
        value(fraction) + given_up(gained, fraction.len()) == value(product),
    ensures
        scaled(sign, scale + gained, fraction) == product_of_fields(sign, scale, f, g),
{
    let n = f.len() + g.len();
    lemma_product_shape(product, n);
    lemma_from_value_value(fraction);
    let v = value(product);
    if v < pow2(n) {
        assert(gained == 0);
    } else if v < pow2(n + 1) {
        assert(gained == 1);
    } else {
        assert(gained == 2);
    }
}

/// The scale of a product before renormalization: the regimes and the
/// exponents added, field by field.
fn scale_sum(first: &Fields, second: &Fields) -> (r: (Regime, usize))
    requires
        first.regime.value <= MAX_LEN,
        second.regime.value <= MAX_LEN,
        first.exponent < 4,
        second.exponent < 4,
    ensures
        r.0.canonical(),
        r.0.value <= 2 * MAX_LEN,
        r.1 < 8,
        4 * r.0.power() + r.1 == 4 * first.regime.power() + first.exponent + 4
            * second.regime.power() + second.exponent,
{
    (first.regime.add(second.regime), first.exponent + second.exponent)
}

/// The posit of a product, from the sign, the sum of the scales and the
/// fractions of the factors.
fn multiply_fields(sign: bool, regime: Regime, exponent: usize, f: &BitBuf, g: &BitBuf) -> (p:
    Posit)
    requires
        regime.canonical(),
        regime.value <= 2 * MAX_LEN,
        exponent < 8,
        f@.len() <= MAX_LEN,
        g@.len() <= MAX_LEN,
    ensures
        p@ == product_of_fields(sign, 4 * regime.power() + exponent, f@, g@),
{
    let n = f.len() + g.len();
    let product = multiply_fractions(f, g);
    let ghost whole = product@;
    proof {
        lemma_fraction_product_bound(f@, g@);
    }
    let (fraction, gained) = renormalize(product, n);
    let (high, low) = carry(regime, exponent + gained);
    proof {
        lemma_product_assembled(
            sign,
            4 * regime.power() + exponent,
            f@,
            g@,
            whole,
            fraction@,
            gained as nat,
        );
    }
    Posit::with_scale(sign, high, low, &fraction)
}

impl Posit {
    /// The product of two regular posits.
    fn multiply_regular(&self, rhs: &Posit) -> (p: Posit)
        requires
            is_regular(self@),
            is_regular(rhs@),
            self@.len() <= MAX_LEN,
            rhs@.len() <= MAX_LEN,
        ensures
            p@ == product_of_regular(self@, rhs@),
    {
        proof {
            lemma_kinds(self@);
            lemma_kinds(rhs@);
            lemma_regime_run(self@);
            lemma_regime_run(rhs@);
        }
        let fa = self.decode();
        let fb = rhs.decode();
        let (regime, exponent) = scale_sum(&fa, &fb);
        multiply_fields(fa.sign != fb.sign, regime, exponent, &fa.fraction, &fb.fraction)
    }

    /// The product of two posits.
    pub fn mul(self, rhs: Posit) -> (p: Posit)
        requires
            self@.len() <= MAX_LEN,
            rhs@.len() <= MAX_LEN,
        ensures
            p@ == mul_bits(self@, rhs@),
    {
        proof {
            lemma_kinds(self@);
            lemma_kinds(rhs@);
        }
        let nar = Posit::nar();
        let zero = Posit::zero();
        if self.same(&nar) || rhs.same(&nar) {
            return nar;
        }
        if self.same(&zero) || rhs.same(&zero) {
            return zero;
        }
        self.multiply_regular(&rhs)
    }
}

} // verus!
