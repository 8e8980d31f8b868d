//! What holds of the operations, whatever the operands.

use crate::addition::add_bits;
use crate::addition::difference_aligned;
use crate::addition::difference_of_like;
use crate::addition::leading_zeros;
use crate::addition::lemma_negated_regular;
use crate::addition::lemma_same_value_symmetric;
use crate::addition::sub_bits;
use crate::addition::sum_aligned;
use crate::addition::sum_of_like;
use crate::alignment::common_width;
use crate::alignment::lemma_tail_less_moved;
use crate::alignment::lower;
use crate::alignment::upper;
use crate::bitmath::diff_bits;
use crate::bitmath::from_value;
use crate::bitmath::lemma_from_value_value;
use crate::bitmath::lemma_value_bound;
use crate::bitmath::repeated;
use crate::bitmath::sum_bits;
use crate::bitmath::value;
use crate::conversion::binary64_bits;
use crate::conversion::exponent_field;
use crate::conversion::mantissa_field;
use crate::conversion::sign_field;
use crate::division::div_bits;
use crate::division::division_steps;
use crate::division::first_divisor;
use crate::division::first_rest;
use crate::division::quotient_bits;
use crate::encoding::assembled;
use crate::encoding::bit_at;
use crate::encoding::encoded;
use crate::encoding::exponent_of;
use crate::encoding::exponent_start;
use crate::encoding::fraction_of;
use crate::encoding::is_nar;
use crate::encoding::is_pruned;
use crate::encoding::is_regular;
use crate::encoding::is_zero;
use crate::encoding::lemma_kinds;
use crate::encoding::lemma_magnitude_order;
use crate::encoding::lemma_pruned;
use crate::encoding::lemma_pruned_append_zeros;
use crate::encoding::lemma_regime_run;
use crate::encoding::lemma_run;
use crate::encoding::lemma_same_value_pruned;
use crate::encoding::lemma_scaled_pruned;
use crate::encoding::lemma_tail_less_agree;
use crate::encoding::lemma_tail_less_end;
use crate::encoding::lemma_tail_less_transitive;
use crate::encoding::less;
use crate::encoding::nar_bits;
use crate::encoding::negated;
use crate::encoding::one_bits;
use crate::encoding::pruned;
use crate::encoding::regime_code;
use crate::encoding::regime_of;
use crate::encoding::run;
use crate::encoding::same_value;
use crate::encoding::scale_of;
use crate::encoding::scaled;
use crate::encoding::sign_of;
use crate::encoding::tail_less;
use crate::encoding::zero_bits;
use crate::magnitude::covers;
use crate::magnitude::lemma_difference_aligned_exact;
use crate::magnitude::lemma_magnitude_injective;
use crate::magnitude::lemma_magnitude_positive;
use crate::magnitude::lemma_order_is_magnitude;
use crate::magnitude::lemma_sum_aligned_exact;
use crate::magnitude::magnitude;
use crate::multiplication::fraction_product;
use crate::multiplication::mul_bits;
use vstd::arithmetic::div_mod::lemma_small_mod;
use vstd::arithmetic::power2::lemma2_to64;
use vstd::arithmetic::power2::lemma_pow2_pos;
use vstd::arithmetic::power2::pow2;
use vstd::prelude::*;

verus! {

/// Pruning a pruned posit changes nothing.
pub proof fn law_prune_idempotent(s: Seq<bool>)
    ensures
        pruned(pruned(s)) == pruned(s),
{
    lemma_pruned(s);
}

/// Encoding is unique: the decoded fields of a posit, put together again,
/// are the posit without its trailing zeros; for a posit in canonical form
/// they are the posit, bit for bit.
pub proof fn law_encode_decode(p: Seq<bool>)
    requires
        is_regular(p),
    ensures
        encoded(sign_of(p), regime_of(p), exponent_of(p), fraction_of(p)) == pruned(p),
        is_pruned(p) ==> encoded(sign_of(p), regime_of(p), exponent_of(p), fraction_of(p)) == p,
{
    lemma_regime_run(p);
    lemma_run(p, p[1], 1);
    let r = run(p, p[1], 1) as int;
    let st = exponent_start(p) as int;
    let whole = assembled(sign_of(p), regime_of(p), exponent_of(p), fraction_of(p));
    let code = regime_code(regime_of(p));
    assert(code.len() == r + 1);
    assert(whole.len() == st + 2 + fraction_of(p).len());
    assert(whole.len() >= p.len());
    let extra = (whole.len() - p.len()) as nat;
    assert forall|i: int| 0 <= i < whole.len() implies whole[i] == bit_at(p, i) by {
        if i == 0 {
        } else if i < 1 + r {
            assert(whole[i] == code[i - 1]);
            assert(p[i] == p[1]);
        } else if i == 1 + r {
            assert(whole[i] == code[r]);
        } else if i == st {
        } else if i == st + 1 {
        } else {
            assert(whole[i] == fraction_of(p)[i - st - 2]);
        }
    }
    assert(whole =~= p + repeated(false, extra));
    lemma_pruned_append_zeros(p, extra);
}

/// The same in terms of the scale: a posit in canonical form is the posit
/// of its own sign, scale and fraction.
pub proof fn law_scaled_fields(p: Seq<bool>)
    requires
        is_regular(p),
        is_pruned(p),
    ensures
        scaled(sign_of(p), scale_of(p), fraction_of(p)) == p,
{
    reveal(scaled);
    lemma_regime_run(p);
    law_encode_decode(p);
}

/// Negating twice gives the posit back; for zero, whose negation is NaR,
/// it gives a zero of one bit.
pub proof fn law_negate_twice(a: Seq<bool>)
    ensures
        a.len() > 0 ==> negated(negated(a)) == a,
        same_value(negated(negated(a)), a),
{
    let n = negated(negated(a));
    if a.len() > 0 {
        assert(n =~= a);
    } else {
        assert(n =~= seq![false]);
    }
    assert forall|i: int| bit_at(n, i) == bit_at(a, i) by {}
}

/// Adding zero changes nothing.
pub proof fn law_add_zero(a: Seq<bool>)
    requires
        is_pruned(a),
    ensures
        add_bits(a, zero_bits()) == a,
        add_bits(zero_bits(), a) == a,
{
    lemma_canonical_sentinels(a);
}

/// Multiplying by zero gives zero.
pub proof fn law_mul_zero(a: Seq<bool>)
    requires
        !is_nar(a),
    ensures
        mul_bits(a, zero_bits()) == zero_bits(),
        mul_bits(zero_bits(), a) == zero_bits(),
{
}

/// Subtracting a posit from itself gives zero.
pub proof fn law_sub_self(a: Seq<bool>)
    requires
        !is_nar(a),
    ensures
        sub_bits(a, a) == zero_bits(),
{
}

/// Multiplying by one changes nothing.
pub proof fn law_mul_one(a: Seq<bool>)
    requires
        is_pruned(a),
    ensures
        mul_bits(a, one_bits()) == a,
        mul_bits(one_bits(), a) == a,
{
    let one = one_bits();
    lemma_canonical_sentinels(a);
    lemma_kinds(a);
    lemma_kinds(one);
    assert(one[1]);
    assert(is_regular(one));
    if is_regular(a) {
        lemma_one_fields();
        lemma_regime_run(a);
        law_scaled_fields(a);
        law_mul_commutative(a, one);
        reveal(fraction_product);
        let f = fraction_of(a);
        let x = value(f);
        lemma_value_bound(f);
        lemma_from_value_value(f);
        lemma2_to64();
        assert(x * 1 == x) by (nonlinear_arith);
        assert(0 * pow2(f.len()) == 0) by (nonlinear_arith);
        assert(x * 0 == 0) by (nonlinear_arith);
        assert(fraction_product(f, fraction_of(one)) == x);
        assert(f.len() + fraction_of(one).len() == f.len());
    }
}

/// The fields of one: non-negative, of scale zero, without a fraction.
pub proof fn lemma_one_fields()
    ensures
        !sign_of(one_bits()),
        scale_of(one_bits()) == 0,
        fraction_of(one_bits()) == Seq::<bool>::empty(),
{
    let one = one_bits();
    assert(run(one, true, 2) == 0);
    assert(run(one, true, 1) == 1);
}

/// A sentinel in canonical form is the sentinel itself.
pub proof fn lemma_canonical_sentinels(a: Seq<bool>)
    requires
        is_pruned(a),
    ensures
        is_zero(a) ==> a == zero_bits(),
        is_nar(a) ==> a == nar_bits(),
{
    if is_zero(a) && a.len() > 0 {
        assert(!a[a.len() - 1]);
    }
    if is_nar(a) {
        if a.len() > 1 {
            assert(!a[a.len() - 1]);
        }
        assert(a =~= nar_bits());
    }
}

/// Adding the negation is subtracting, for every regular subtrahend. Zero,
/// whose negation is NaR, is left out, and so is NaR.
pub proof fn law_add_negated(a: Seq<bool>, b: Seq<bool>)
    requires
        is_regular(b),
    ensures
        add_bits(a, negated(b)) == sub_bits(a, b),
{
    let nb = negated(b);
    lemma_kinds(a);
    lemma_kinds(b);
    lemma_kinds(nb);
    lemma_negated_regular(b);
    law_negate_twice(b);
    if !is_nar(a) && !is_zero(a) {
        if sign_of(a) != sign_of(b) {
            assert(bit_at(a, 0) != bit_at(b, 0));
            assert(!same_value(a, b));
        }
    } else if is_zero(a) {
        if same_value(a, b) {
            lemma_same_value_pruned(a, b);
            lemma_kinds(a);
            let i = choose|i: int| 1 <= i < b.len() && b[i];
            assert(bit_at(a, i) == bit_at(b, i));
        }
    }
}

/// Addition does not depend on the order of the operands where these have
/// one sign, where one of them is zero or NaR, or where they cancel.
pub proof fn law_add_commutative(a: Seq<bool>, b: Seq<bool>)
    requires
        is_pruned(a),
        is_pruned(b),
        sign_of(a) == sign_of(b) || !is_regular(a) || !is_regular(b) || same_value(a, negated(b)),
    ensures
        add_bits(a, b) == add_bits(b, a),
{
    lemma_kinds(a);
    lemma_kinds(b);
    lemma_canonical_sentinels(a);
    lemma_canonical_sentinels(b);
    if is_regular(a) && is_regular(b) {
        if sign_of(a) == sign_of(b) {
            lemma_magnitude_order(a, b);
            if !tail_less(a, b, 1) && !tail_less(b, a, 1) {
                assert forall|i: int| bit_at(a, i) == bit_at(b, i) by {
                    if i >= 1 {
                    }
                }
                lemma_same_value_pruned(a, b);
            }
        } else {
            let na = negated(a);
            let nb = negated(b);
            assert forall|i: int| bit_at(b, i) == bit_at(na, i) by {
                assert(bit_at(a, i) == bit_at(nb, i));
            }
        }
    }
}

/// Addition of two regular posits of one sign is exact: the sum is a
/// regular posit of that sign, in canonical form, whose magnitude is the
/// sum of the magnitudes.
pub proof fn law_add_exact(a: Seq<bool>, b: Seq<bool>, offset: nat)
    requires
        is_regular(a),
        is_regular(b),
        sign_of(a) == sign_of(b),
        covers(offset, a),
        covers(offset, b),
    ensures
        is_regular(add_bits(a, b)),
        is_pruned(add_bits(a, b)),
        sign_of(add_bits(a, b)) == sign_of(a),
        covers(offset, add_bits(a, b)),
        magnitude(add_bits(a, b), offset) == magnitude(a, offset) + magnitude(b, offset),
{
    lemma_kinds(a);
    lemma_kinds(b);
    lemma_magnitude_order(a, b);
    if tail_less(a, b, 1) {
        lemma_sum_aligned_exact(b, a, offset);
    } else {
        lemma_sum_aligned_exact(a, b, offset);
    }
}

/// Subtraction of two unequal regular posits of one sign is exact in the
/// magnitude: the difference is a regular posit of that sign, in
/// canonical form, whose magnitude is the larger magnitude less the
/// smaller.
pub proof fn law_sub_exact(a: Seq<bool>, b: Seq<bool>, offset: nat)
    requires
        is_regular(a),
        is_regular(b),
        sign_of(a) == sign_of(b),
        !same_value(a, b),
        covers(offset, a),
        covers(offset, b),
    ensures
        is_regular(sub_bits(a, b)),
        is_pruned(sub_bits(a, b)),
        sign_of(sub_bits(a, b)) == sign_of(a),
        covers(offset, sub_bits(a, b)),
        magnitude(sub_bits(a, b), offset) == if magnitude(a, offset) >= magnitude(b, offset) {
            magnitude(a, offset) - magnitude(b, offset)
        } else {
            magnitude(b, offset) - magnitude(a, offset)
        },
{
    lemma_kinds(a);
    lemma_kinds(b);
    lemma_magnitude_order(a, b);
    lemma_order_is_magnitude(a, b, offset);
    lemma_same_value_symmetric(a, b);
    if tail_less(a, b, 1) {
        lemma_difference_aligned_exact(b, a, offset);
    } else {
        lemma_difference_aligned_exact(a, b, offset);
    }
}

/// A sum less one of its operands is the other operand, for operands in
/// canonical form that are zero or regular and of one sign.
pub proof fn law_sum_less_operand(a: Seq<bool>, b: Seq<bool>)
    requires
        is_pruned(a),
        is_pruned(b),
        !is_nar(a),
        !is_nar(b),
        sign_of(a) == sign_of(b) || is_zero(a) || is_zero(b),
    ensures
        sub_bits(add_bits(a, b), b) == a,
        sub_bits(add_bits(a, b), a) == b,
{
    lemma_kinds(a);
    lemma_kinds(b);
    lemma_canonical_sentinels(a);
    lemma_canonical_sentinels(b);
    if is_regular(a) && is_regular(b) {
        let fa = fraction_of(a).len();
        let fb = fraction_of(b).len();
        let sa = if scale_of(a) < 0 { -scale_of(a) } else { scale_of(a) };
        let sb = if scale_of(b) < 0 { -scale_of(b) } else { scale_of(b) };
        let offset = (fa + fb + sa + sb) as nat;
        let s = add_bits(a, b);
        law_add_exact(a, b, offset);
        lemma_magnitude_positive(a, offset);
        lemma_magnitude_positive(b, offset);
        lemma_same_value_pruned(s, a);
        lemma_same_value_pruned(s, b);
        law_sub_exact(s, b, offset);
        law_sub_exact(s, a, offset);
        lemma_magnitude_injective(sub_bits(s, b), a, offset);
        lemma_magnitude_injective(sub_bits(s, a), b, offset);
    } else {
        assert(same_value(a, a)) by {
            assert forall|i: int| bit_at(a, i) == bit_at(a, i) by {}
        }
        assert(same_value(b, b)) by {
            assert forall|i: int| bit_at(b, i) == bit_at(b, i) by {}
        }
        lemma_same_value_pruned(a, b);
    }
}

/// Canonical form is kept: on operands without trailing zeros, every
/// operation gives a result without trailing zeros, and so does the
/// conversion from binary64.
pub proof fn law_results_canonical(a: Seq<bool>, b: Seq<bool>, bits: u64)
    requires
        is_pruned(a),
        is_pruned(b),
    ensures
        is_pruned(add_bits(a, b)),
        is_pruned(sub_bits(a, b)),
        is_pruned(mul_bits(a, b)),
        is_pruned(div_bits(a, b)),
        is_pruned(binary64_bits(bits)),
{
    lemma_kinds(a);
    lemma_kinds(b);
    let nb = negated(b);
    if is_regular(b) {
        lemma_negated_regular(b);
        assert(nb.last() == b.last());
    }
    if is_regular(a) && is_regular(b) {
        assert(is_pruned(add_bits(a, b))) by {
            lemma_results_of_like(a, b);
            lemma_results_of_like(a, nb);
        }
        assert(is_pruned(sub_bits(a, b))) by {
            lemma_results_of_like(a, b);
            lemma_results_of_like(a, nb);
        }
        assert(is_pruned(mul_bits(a, b))) by {
            let f = fraction_of(a);
            let g = fraction_of(b);
            let n = f.len() + g.len();
            let v = fraction_product(f, g);
            let sign = sign_of(a) != sign_of(b);
            let scale = scale_of(a) + scale_of(b);
            lemma_scaled_pruned(sign, scale, from_value(v, n));
            lemma_scaled_pruned(sign, scale + 1, from_value((v - pow2(n)) as nat, n));
            lemma_scaled_pruned(sign, scale + 2, from_value((v - pow2(n + 1)) as nat, n));
        }
        assert(is_pruned(div_bits(a, b))) by {
            let f = fraction_of(a);
            let g = fraction_of(b);
            lemma_scaled_pruned(
                sign_of(a) != sign_of(b),
                scale_of(a) - scale_of(b),
                quotient_bits(first_rest(f, g), first_divisor(f, g), division_steps(f.len())),
            );
        }
    }
    assert(is_pruned(binary64_bits(bits))) by {
        let e = exponent_field(bits);
        let m = mantissa_field(bits);
        let f = from_value(m, 52);
        let z = leading_zeros(f) as int;
        lemma_scaled_pruned(sign_field(bits), -1023 - z, f.skip(z + 1));
        lemma_scaled_pruned(sign_field(bits), e - 1023, f);
    }
}

/// Sum and difference of two regular posits of one sign are in canonical form.
pub proof fn lemma_results_of_like(a: Seq<bool>, b: Seq<bool>)
    ensures
        is_pruned(sum_of_like(a, b)),
        is_pruned(difference_of_like(a, b)),
{
    lemma_aligned_results(a, b);
    lemma_aligned_results(b, a);
}

/// Sum and difference of aligned significands give posits in canonical form.
pub proof fn lemma_aligned_results(a: Seq<bool>, b: Seq<bool>)
    ensures
        is_pruned(sum_aligned(a, b)),
        is_pruned(difference_aligned(a, b)),
{
    let s = sum_bits(upper(a, b), lower(a, b));
    let carry: int = if s.len() > common_width(a, b) { 1 } else { 0 };
    lemma_scaled_pruned(sign_of(a), scale_of(a) + carry, s.skip(1));
    let d = diff_bits(seq![false] + upper(a, b), seq![false] + lower(a, b));
    let z = leading_zeros(d) as int;
    lemma_scaled_pruned(sign_of(a), scale_of(a) - (z - 1), d.skip(z + 1));
}

/// Multiplication does not depend on the order of the operands.
pub proof fn law_mul_commutative(a: Seq<bool>, b: Seq<bool>)
    ensures
        mul_bits(a, b) == mul_bits(b, a),
{
    reveal(fraction_product);
    let f = fraction_of(a);
    let g = fraction_of(b);
    let x = value(f);
    let y = value(g);
    assert(x * y == y * x) by (nonlinear_arith);
    assert(fraction_product(f, g) == fraction_product(g, f));
    assert(f.len() + g.len() == g.len() + f.len());
}

/// The order is strict and total up to equality: of two posits, exactly
/// one is below the other, or the two are equal.
pub proof fn law_order_total(a: Seq<bool>, b: Seq<bool>)
    ensures
        !(less(a, b) && less(b, a)),
        same_value(a, b) <==> !less(a, b) && !less(b, a),
{
    lemma_magnitude_order(a, b);
    lemma_magnitude_order(b, a);
    let n = if a.len() >= b.len() { a.len() } else { b.len() };
    if same_value(a, b) {
        assert(bit_at(a, 0) == bit_at(b, 0));
        assert forall|k: int| 1 <= k < n + 1 implies bit_at(a, k) == bit_at(b, k) by {}
        assert forall|k: int| 1 <= k < n + 1 implies bit_at(b, k) == bit_at(a, k) by {
            assert(bit_at(a, k) == bit_at(b, k));
        }
        lemma_tail_less_agree(a, b, 1, n + 1);
        lemma_tail_less_agree(b, a, 1, n + 1);
        lemma_tail_less_end(a, b, n + 1);
        lemma_tail_less_end(b, a, n + 1);
    }
    if !less(a, b) && !less(b, a) {
        assert forall|i: int| bit_at(a, i) == bit_at(b, i) by {
            if i >= 1 {
            }
        }
    }
}

/// The order carries over: what is below a posit is below everything
/// that posit is below.
pub proof fn law_order_transitive(a: Seq<bool>, b: Seq<bool>, c: Seq<bool>)
    requires
        less(a, b),
        less(b, c),
    ensures
        less(a, c),
{
    if sign_of(a) == sign_of(b) && sign_of(b) == sign_of(c) {
        if sign_of(a) {
            lemma_tail_less_transitive(c, b, a, 1);
        } else {
            lemma_tail_less_transitive(a, b, c, 1);
        }
    }
}

/// A regular posit divided by itself gives one.
pub proof fn law_div_self(a: Seq<bool>)
    requires
        is_regular(a),
    ensures
        div_bits(a, a) == one_bits(),
{
    lemma_kinds(a);
    let f = fraction_of(a);
    let steps = division_steps(f.len());
    let q = quotient_bits(first_rest(f, f), first_divisor(f, f), steps);
    assert(first_rest(f, f) == 0) by {
        reveal(first_rest);
        lemma_pow2_pos(f.len() + f.len());
        lemma_small_mod(0, pow2(f.len() + f.len()));
    }
    lemma_quotient_of_nothing(first_divisor(f, f), steps);
    assert(scaled(false, 0, q) == one_bits()) by {
        reveal(scaled);
        let head = assembled(false, 0, 0, Seq::<bool>::empty());
        assert(assembled(false, 0, 0, q) =~= head + repeated(false, steps));
        lemma_pruned_append_zeros(head, steps);
        assert(head =~= seq![false, true, false, false, false]);
        assert(head.drop_last() =~= seq![false, true, false, false]);
        assert(head.drop_last().drop_last() =~= seq![false, true, false]);
        assert(head.drop_last().drop_last().drop_last() =~= seq![false, true]);
        reveal_with_fuel(pruned, 4);
    }
}

/// A rest of nothing gives a quotient of zeros.
pub proof fn lemma_quotient_of_nothing(divisor: nat, steps: nat)
    ensures
        quotient_bits(0, divisor, steps) == repeated(false, steps),
    decreases steps,
{
    if steps > 0 {
        lemma_quotient_of_nothing(divisor / 2, (steps - 1) as nat);
        assert(quotient_bits(0, divisor, steps) =~= repeated(false, steps));
    } else {
        assert(quotient_bits(0, divisor, steps) =~= repeated(false, steps));
    }
}

/// Negation turns the order around.
pub proof fn law_order_negated(a: Seq<bool>, b: Seq<bool>)
    ensures
        less(a, b) <==> less(negated(b), negated(a)),
{
    let na = negated(a);
    let nb = negated(b);
    assert forall|i: int| 1 <= i implies #[trigger] bit_at(a, i) == bit_at(na, i - 1 + 1) by {}
    assert forall|i: int| 1 <= i implies #[trigger] bit_at(b, i) == bit_at(nb, i - 1 + 1) by {}
    lemma_tail_less_moved(a, b, 1, na, nb, 1);
    lemma_tail_less_moved(b, a, 1, nb, na, 1);
}

/// NaR takes over the sum, the difference and the product, whatever the
/// other operand; division by NaR gives zero and division by zero gives
/// NaR, whatever the dividend.
pub proof fn law_nar_propagates(x: Seq<bool>)
    ensures
        add_bits(nar_bits(), x) == nar_bits(),
        add_bits(x, nar_bits()) == nar_bits(),
        sub_bits(nar_bits(), x) == nar_bits(),
        sub_bits(x, nar_bits()) == nar_bits(),
        mul_bits(nar_bits(), x) == nar_bits(),
        mul_bits(x, nar_bits()) == nar_bits(),
        div_bits(x, nar_bits()) == zero_bits(),
        div_bits(x, zero_bits()) == nar_bits(),
{
    assert(is_nar(nar_bits()));
    assert(is_zero(zero_bits()));
    assert(!is_nar(zero_bits()));
}

} // verus!
