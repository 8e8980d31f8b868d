//! Addition and subtraction of posits.
//!
//! Both work on two posits of one sign, the larger magnitude first, with
//! the significands brought to a common binary point. Operands of unlike
//! sign hand over to the other operation with the second operand negated.

use crate::alignment::common_width;
use crate::alignment::gap;
use crate::alignment::lemma_aligned;
use crate::alignment::bottom;
use crate::alignment::lower;
use crate::alignment::top;
use crate::alignment::upper;
use crate::bitmath::diff_bits;
use crate::bitmath::lemma_diff_bits_exact;
use crate::bitmath::lemma_sum_bits;
use crate::bitmath::lemma_top_bit;
use crate::bitmath::lemma_value_bound;
use crate::bitmath::lemma_value_skip_first;
use crate::bitmath::lemma_value_zero_iff;
use crate::bitmath::sum_bits;
use crate::bitmath::value;
use crate::bitmath::wider;
use crate::buffer::BitBuf;
use crate::encoding::bit_at;
use crate::encoding::is_nar;
use crate::encoding::is_regular;
use crate::encoding::is_zero;
use crate::encoding::lemma_kinds;
use crate::encoding::lemma_regime_run;
use crate::encoding::lemma_run;
use crate::encoding::nar_bits;
use crate::encoding::negated;
use crate::encoding::run;
use crate::encoding::same_value;
use crate::encoding::scale_of;
use crate::encoding::scaled;
use crate::encoding::sign_of;
use crate::encoding::tail_less;
use crate::encoding::zero_bits;
use crate::fields::Fields;
use crate::order::Relation;
use crate::posit::Posit;
use crate::posit::MAX_LEN;
use crate::regime::Regime;
use vstd::prelude::*;

verus! {

/// One zero where a guard bit is asked for, and nothing otherwise.
pub open spec fn guard_bits(guard: bool) -> Seq<bool> {
    if guard {
        seq![false]
    } else {
        Seq::empty()
    }
}

/// The number of zeros in front of the first set bit.
pub open spec fn leading_zeros(s: Seq<bool>) -> nat {
    run(s, false, 0)
}

/// The sum of two regular posits of one sign, `a` not below `b` in
/// magnitude: the significands are added at their common width; a carry
/// out raises the scale by one. Behind the leading bit of the sum stands
/// the new fraction.
pub open spec fn sum_aligned(a: Seq<bool>, b: Seq<bool>) -> Seq<bool> {
    let s = sum_bits(upper(a, b), lower(a, b));
    let carry: int = if s.len() > common_width(a, b) { 1 } else { 0 };
    scaled(sign_of(a), scale_of(a) + carry, s.skip(1))
}

/// The difference of two regular posits of one sign, `a` above `b` in
/// magnitude: the significands are subtracted at their common width, with
/// one more bit in front; each zero that the difference has in front past
/// that bit lowers the scale by one. Behind the first set bit of the
/// difference stands the new fraction.
pub open spec fn difference_aligned(a: Seq<bool>, b: Seq<bool>) -> Seq<bool> {
    let d = diff_bits(seq![false] + upper(a, b), seq![false] + lower(a, b));
    let z = leading_zeros(d) as int;
    scaled(sign_of(a), scale_of(a) - (z - 1), d.skip(z + 1))
}

/// The sum of two regular posits of one sign, in either order.
pub open spec fn sum_of_like(a: Seq<bool>, b: Seq<bool>) -> Seq<bool> {
    if tail_less(a, b, 1) {
        sum_aligned(b, a)
    } else {
        sum_aligned(a, b)
    }
}

/// The difference of two regular posits of one sign, in either order: zero
/// for equal posits, else the larger magnitude less the smaller, with the
/// sign that the two share.
pub open spec fn difference_of_like(a: Seq<bool>, b: Seq<bool>) -> Seq<bool> {
    if same_value(a, b) {
        zero_bits()
    } else if tail_less(a, b, 1) {
        difference_aligned(b, a)
    } else {
        difference_aligned(a, b)
    }
}

/// What `a + b` is. NaR with a NaR operand; the other operand where one is
/// zero; for unlike signs the difference of `a` and `-b`.
pub open spec fn add_bits(a: Seq<bool>, b: Seq<bool>) -> Seq<bool> {
    if is_nar(a) || is_nar(b) {
        nar_bits()
    } else if is_zero(a) {
        b
    } else if is_zero(b) {
        a
    } else if sign_of(a) != sign_of(b) {
        difference_of_like(a, negated(b))
    } else {
        sum_of_like(a, b)
    }
}

/// What `a - b` is. NaR with a NaR operand; zero for equal operands; `a`
/// less zero is `a`, zero less `b` is `-b`; for unlike signs the sum of `a`
/// and `-b`.
pub open spec fn sub_bits(a: Seq<bool>, b: Seq<bool>) -> Seq<bool> {
    if is_nar(a) || is_nar(b) {
        nar_bits()
    } else if same_value(a, b) {
        zero_bits()
    } else if is_zero(a) {
        negated(b)
    } else if is_zero(b) {
        a
    } else if sign_of(a) != sign_of(b) {
        sum_of_like(a, negated(b))
    } else {
        difference_of_like(a, b)
    }
}

/// Carries an exponent of four or more into the regime, four at a time.
pub(crate) fn carry(regime: Regime, exponent: usize) -> (r: (Regime, usize))
    requires
        regime.canonical(),
        regime.value + exponent / 4 < usize::MAX,
    ensures
        r.0.canonical(),
        r.1 < 4,
        4 * r.0.power() + r.1 == 4 * regime.power() + exponent,
{
    let mut regime = regime;
    let mut exponent = exponent;
    let ghost scale = 4 * regime.power() + exponent;
    let ghost limit = regime.value + exponent / 4;
    while exponent >= 4
        invariant
            regime.canonical(),
            4 * regime.power() + exponent == scale,
            regime.value + exponent / 4 <= limit < usize::MAX,
        decreases exponent,
    {
        regime = regime.add(Regime { is_negative: false, value: 1 });
        exponent -= 4;
    }
    (regime, exponent)
}

/// Lowers a scale by `lost` binary places: the exponent gives what it has,
/// and borrows four at a time from the regime.
fn borrow(regime: Regime, exponent: usize, lost: usize) -> (r: (Regime, usize))
    requires
        regime.canonical(),
        exponent < 4,
        regime.value + lost / 4 + 1 < usize::MAX,
    ensures
        r.0.canonical(),
        r.1 < 4,
        4 * r.0.power() + r.1 == 4 * regime.power() + exponent - lost,
{
    let mut regime = regime;
    let mut exponent = exponent;
    let mut lost = lost;
    let ghost scale = 4 * regime.power() + exponent - lost;
    let ghost limit = regime.value + lost / 4 + 1;
    while lost > 0
        invariant
            regime.canonical(),
            exponent < 4,
            4 * regime.power() + exponent - lost == scale,
            regime.value + (lost + 3 - exponent) / 4 <= limit < usize::MAX,
        decreases lost,
    {
        if lost >= exponent + 1 {
            lost -= exponent + 1;
            exponent = 3;
            regime = regime.add(Regime { is_negative: true, value: 1 });
        } else {
            exponent -= lost;
            lost = 0;
        }
    }
    (regime, exponent)
}

/// The number of binary places between two scales, the first not below the second.
fn places_between(first: &Fields, second: &Fields) -> (shift: usize)
    requires
        first.regime.value <= MAX_LEN,
        second.regime.value <= MAX_LEN,
        first.exponent < 4,
        second.exponent < 4,
        4 * first.regime.power() + first.exponent >= 4 * second.regime.power() + second.exponent,
    ensures
        shift == 4 * first.regime.power() + first.exponent - (4 * second.regime.power()
            + second.exponent),
        shift <= 8 * MAX_LEN + 3,
{
    let distance = first.regime.add(second.regime.neg());
    distance.value * 4 + first.exponent - second.exponent
}

/// The two significands at their common width: the hidden bit and the
/// fraction of the first, the hidden bit and the fraction of the second
/// behind `shift` zeros, the shorter padded with zeros at the end. With a
/// guard, both get one more zero in front.
fn significands(first: &BitBuf, second: &BitBuf, shift: usize, guard: bool) -> (r: (
    BitBuf,
    BitBuf,
))
    requires
        first@.len() <= MAX_LEN,
        second@.len() <= MAX_LEN,
        shift <= 9 * MAX_LEN,
    ensures
        r.0@ == guard_bits(guard) + top(first@, second@, shift as nat),
        r.1@ == guard_bits(guard) + bottom(first@, second@, shift as nat),
        r.0@.len() == r.1@.len() <= 10 * MAX_LEN + 3,
{
    let mut x = BitBuf::new();
    if guard {
        x.push(false);
    }
    x.push(true);
    x.extend(first);
    let mut y = BitBuf::repeat(false, if guard { shift + 1 } else { shift });
    y.push(true);
    y.extend(second);
    let lx = x.len();
    let ly = y.len();
    let w = if lx >= ly { lx } else { ly };
    if ly > lx {
        let pad = BitBuf::repeat(false, w - lx);
        x.extend(&pad);
    } else {
        let pad = BitBuf::repeat(false, w - ly);
        y.extend(&pad);
    }
    proof {
        reveal(top);
        reveal(bottom);
        assert(x@ =~= guard_bits(guard) + top(first@, second@, shift as nat));
        assert(y@ =~= guard_bits(guard) + bottom(first@, second@, shift as nat));
    }
    (x, y)
}

/// Drops the zeros in front of a magnitude that is not zero and whose
/// first bit is not set, and says how many came behind the first.
fn normalize(x: &mut BitBuf) -> (lost: usize)
    requires
        old(x)@.len() >= 1,
        !old(x)@[0],
        exists|k: int| 0 <= k < old(x)@.len() && old(x)@[k],
    ensures
        lost + 1 == leading_zeros(old(x)@),
        lost + 1 < old(x)@.len(),
        final(x)@ == old(x)@.skip(lost + 1),
        final(x)@[0],
{
    let ghost d = x@;
    let n = x.len();
    let mut lost: usize = 0;
    x.shl_assign(1);
    while !x.at(0)
        invariant
            1 + lost < d.len() == n,
            x@ == d.skip(1 + lost),
            forall|k: int| 0 <= k < 1 + lost ==> !d[k],
            exists|k: int| 0 <= k < d.len() && d[k],
        decreases d.len() - lost,
    {
        proof {
            let k = choose|k: int| 0 <= k < d.len() && d[k];
            assert(k > 1 + lost);
        }
        lost += 1;
        x.shl_assign(1);
    }
    proof {
        lemma_run(d, false, 0);
        let z = leading_zeros(d);
        if z < 1 + lost {
            assert(d[z as int]);
        }
        if z > 1 + lost {
            assert(!d[1 + lost]);
        }
    }
    lost
}

impl Posit {
    /// The posit with the given sign whose significand is the sum `s` of
    /// two significands of the given width: a sum that is wider has
    /// carried and gains one binary place. The fraction stands behind the
    /// first bit.
    fn from_sum(sign: bool, regime: Regime, exponent: usize, s: BitBuf, width: usize) -> (p:
        Posit)
        requires
            regime.canonical(),
            regime.value <= MAX_LEN,
            exponent < 4,
            1 <= s@.len() <= 10 * MAX_LEN,
        ensures
            p@ == scaled(
                sign,
                4 * regime.power() + exponent + (if s@.len() > width { 1int } else { 0int }),
                s@.skip(1),
            ),
    {
        let mut x = s;
        let (regime, exponent) = if x.len() > width {
            carry(regime, exponent + 1)
        } else {
            (regime, exponent)
        };
        x.shl_assign(1);
        proof {
            assert(x@ =~= s@.skip(1));
        }
        Posit::with_scale(sign, regime, exponent, &x)
    }

    /// Adds the significands of `self` and of `other`, which is not above
    /// `self` in magnitude and has its sign.
    fn sum_aligned(&self, other: &Posit) -> (p: Posit)
        requires
            is_regular(self@),
            is_regular(other@),
            sign_of(self@) == sign_of(other@),
            !tail_less(self@, other@, 1),
            self@.len() <= MAX_LEN,
            other@.len() <= MAX_LEN,
        ensures
            p@ == sum_aligned(self@, other@),
    {
        proof {
            lemma_kinds(self@);
            lemma_kinds(other@);
            lemma_aligned(self@, other@);
            lemma_regime_run(self@);
            lemma_regime_run(other@);
        }
        let fa = self.decode();
        let fb = other.decode();
        let shift = places_between(&fa, &fb);
        let (mut x, y) = significands(&fa.fraction, &fb.fraction, shift, false);
        let width = y.len();
        proof {
            assert(shift == gap(self@, other@));
            assert(x@ =~= upper(self@, other@));
            assert(y@ =~= lower(self@, other@));
            lemma_sum_bits(x@, y@);
        }
        x.add_assign(y);
        Posit::from_sum(fa.sign, fa.regime, fa.exponent, x, width)
    }

    /// The posit with the given sign whose significand is the difference
    /// `d`: it loses one binary place for each zero in front of `d` past
    /// the guard bit, and its fraction stands behind the first set bit.
    fn from_difference(sign: bool, regime: Regime, exponent: usize, d: BitBuf) -> (p: Posit)
        requires
            regime.canonical(),
            regime.value <= MAX_LEN,
            exponent < 4,
            1 <= d@.len() <= 10 * MAX_LEN,
            !d@[0],
            exists|k: int| 0 <= k < d@.len() && d@[k],
        ensures
            p@ == scaled(
                sign,
                4 * regime.power() + exponent - (leading_zeros(d@) - 1),
                d@.skip(leading_zeros(d@) as int + 1),
            ),
    {
        let mut x = d;
        let lost = normalize(&mut x);
        let (regime, exponent) = borrow(regime, exponent, lost);
        x.shl_assign(1);
        proof {
            assert(x@ =~= d@.skip(leading_zeros(d@) as int + 1));
        }
        Posit::with_scale(sign, regime, exponent, &x)
    }

    /// Subtracts the significand of `other`, which is below `self` in
    /// magnitude and has its sign, from that of `self`.
    fn difference_aligned(&self, other: &Posit) -> (p: Posit)
        requires
            is_regular(self@),
            is_regular(other@),
            sign_of(self@) == sign_of(other@),
            !tail_less(self@, other@, 1),
            !same_value(self@, other@),
            self@.len() <= MAX_LEN,
            other@.len() <= MAX_LEN,
        ensures
            p@ == difference_aligned(self@, other@),
    {
        proof {
            lemma_kinds(self@);
            lemma_kinds(other@);
            lemma_difference_ready(self@, other@);
            lemma_regime_run(self@);
            lemma_regime_run(other@);
        }
        let fa = self.decode();
        let fb = other.decode();
        let shift = places_between(&fa, &fb);
        let (mut x, y) = significands(&fa.fraction, &fb.fraction, shift, true);
        proof {
            assert(shift == gap(self@, other@));
            assert(x@ == seq![false] + upper(self@, other@));
            assert(y@ == seq![false] + lower(self@, other@));
        }
        x.sub_assign(y);
        proof {
            let d = diff_bits(
                seq![false] + upper(self@, other@),
                seq![false] + lower(self@, other@),
            );
            let k = choose|k: int| 0 <= k < common_width(self@, other@) + 1 && d[k];
            assert(0 <= k < x@.len() && x@[k]);
        }
        Posit::from_difference(fa.sign, fa.regime, fa.exponent, x)
    }

    /// The sum of two regular posits of one sign.
    fn sum_of_like(&self, other: &Posit) -> (p: Posit)
        requires
            is_regular(self@),
            is_regular(other@),
            sign_of(self@) == sign_of(other@),
            self@.len() <= MAX_LEN,
            other@.len() <= MAX_LEN,
        ensures
            p@ == sum_of_like(self@, other@),
    {
        match self.magnitude_relation(other) {
            Relation::Below => other.sum_aligned(self),
            _ => self.sum_aligned(other),
        }
    }

    /// The difference of two regular posits of one sign.
    fn difference_of_like(&self, other: &Posit) -> (p: Posit)
        requires
            is_regular(self@),
            is_regular(other@),
            sign_of(self@) == sign_of(other@),
            self@.len() <= MAX_LEN,
            other@.len() <= MAX_LEN,
        ensures
            p@ == difference_of_like(self@, other@),
    {
        if self.same(other) {
            return Posit::zero();
        }
        match self.magnitude_relation(other) {
            Relation::Below => {
                proof {
                    lemma_same_value_symmetric(self@, other@);
                }
                other.difference_aligned(self)
            },
            _ => self.difference_aligned(other),
        }
    }

    /// The sum of two posits.
    pub fn add(self, rhs: Posit) -> (p: Posit)
        requires
            self@.len() <= MAX_LEN,
            rhs@.len() <= MAX_LEN,
        ensures
            p@ == add_bits(self@, rhs@),
    {
        proof {
            lemma_kinds(self@);
            lemma_kinds(rhs@);
        }
        let nar = Posit::nar();
        let zero = Posit::zero();
        if self.same(&nar) || rhs.same(&nar) {
            return nar;
        }
        if self.same(&zero) {
            return rhs;
        }
        if rhs.same(&zero) {
            return self;
        }
        if self.is_negative() != rhs.is_negative() {
            let opposite = rhs.neg();
            proof {
                lemma_negated_regular(rhs@);
            }
            return self.difference_of_like(&opposite);
        }
        self.sum_of_like(&rhs)
    }

    /// The difference of two posits.
    pub fn sub(self, rhs: Posit) -> (p: Posit)
        requires
            self@.len() <= MAX_LEN,
            rhs@.len() <= MAX_LEN,
        ensures
            p@ == sub_bits(self@, rhs@),
    {
        proof {
            lemma_kinds(self@);
            lemma_kinds(rhs@);
        }
        let nar = Posit::nar();
        let zero = Posit::zero();
        if self.same(&nar) || rhs.same(&nar) {
            return nar;
        }
        if self.same(&rhs) {
            return zero;
        }
        if self.same(&zero) {
            return rhs.neg();
        }
        if rhs.same(&zero) {
            return self;
        }
        if self.is_negative() != rhs.is_negative() {
            let opposite = rhs.neg();
            proof {
                lemma_negated_regular(rhs@);
            }
            return self.sum_of_like(&opposite);
        }
        self.difference_of_like(&rhs)
    }
}

/// The difference of the guarded significands of two unequal posits, the
/// larger first, is not zero and leaves the guard bit clear.
pub proof fn lemma_difference_ready(a: Seq<bool>, b: Seq<bool>)
    requires
        is_regular(a),
        is_regular(b),
        sign_of(a) == sign_of(b),
        !tail_less(a, b, 1),
        !same_value(a, b),
    ensures
        gap(a, b) >= 0,
        guard_bits(true) + upper(a, b) == seq![false] + upper(a, b),
        guard_bits(true) + lower(a, b) == seq![false] + lower(a, b),
        diff_bits(seq![false] + upper(a, b), seq![false] + lower(a, b)).len() == common_width(
            a,
            b,
        ) + 1,
        !diff_bits(seq![false] + upper(a, b), seq![false] + lower(a, b))[0],
        value(diff_bits(seq![false] + upper(a, b), seq![false] + lower(a, b))) == value(
            upper(a, b),
        ) - value(lower(a, b)),
        exists|k: int|
            0 <= k < common_width(a, b) + 1 && diff_bits(
                seq![false] + upper(a, b),
                seq![false] + lower(a, b),
            )[k],
{
    lemma_aligned(a, b);
    let up = seq![false] + upper(a, b);
    let low = seq![false] + lower(a, b);
    lemma_value_skip_first(up);
    lemma_value_skip_first(low);
    assert(up.skip(1) =~= upper(a, b));
    assert(low.skip(1) =~= lower(a, b));
    lemma_diff_bits_exact(up, low);
    lemma_value_bound(upper(a, b));
    let d = diff_bits(up, low);
    lemma_top_bit(d);
    lemma_value_zero_iff(d);
}

/// Equality of posits does not depend on the order of the two.
pub proof fn lemma_same_value_symmetric(a: Seq<bool>, b: Seq<bool>)
    ensures
        same_value(a, b) == same_value(b, a),
{
    if same_value(a, b) {
        assert forall|i: int| bit_at(b, i) == bit_at(a, i) by {
            assert(bit_at(a, i) == bit_at(b, i));
        }
    }
    if same_value(b, a) {
        assert forall|i: int| bit_at(a, i) == bit_at(b, i) by {
            assert(bit_at(b, i) == bit_at(a, i));
        }
    }
}

/// Negation keeps a regular posit regular, keeps its length and flips its sign.
pub proof fn lemma_negated_regular(s: Seq<bool>)
    requires
        is_regular(s),
    ensures
        is_regular(negated(s)),
        negated(s).len() == s.len(),
        sign_of(negated(s)) == !sign_of(s),
{
    let i = choose|i: int| 1 <= i < s.len() && s[i];
    assert(negated(s)[i]);
}

} // verus!
