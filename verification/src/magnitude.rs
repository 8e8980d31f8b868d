//! The magnitude of a posit as a whole number, and what addition and
//! subtraction do to it.
//!
//! A regular posit stands for its significand `1.f` times two to its
//! scale. Moved left by a common offset that keeps every exponent in
//! range, this is a whole number; sums and differences of posits of one
//! sign are exact in it.

use crate::addition::difference_aligned;
use crate::addition::leading_zeros;
use crate::addition::lemma_difference_ready;
use crate::addition::sum_aligned;
use crate::alignment::bottom;
use crate::alignment::common_width;
use crate::alignment::gap;
use crate::alignment::lemma_aligned;
use crate::alignment::lower;
use crate::alignment::meeting_width;
use crate::alignment::top;
use crate::alignment::upper;
use crate::bitmath::diff_bits;
use crate::bitmath::lemma_sum_bits;
use crate::bitmath::lemma_top_bit;
use crate::bitmath::lemma_value_bound;
use crate::bitmath::lemma_value_concat;
use crate::bitmath::lemma_value_leading_zeros;
use crate::bitmath::lemma_value_single;
use crate::bitmath::lemma_value_skip_first;
use crate::bitmath::lemma_value_trailing_zeros;
use crate::bitmath::repeated;
use crate::bitmath::sum_bits;
use crate::bitmath::value;
use crate::bitmath::wider;
use crate::encoding::assembled;
use crate::encoding::bit_at;
use crate::encoding::encoded;
use crate::encoding::exponent_code;
use crate::encoding::exponent_of;
use crate::encoding::exponent_start;
use crate::encoding::fraction_of;
use crate::encoding::is_pruned;
use crate::encoding::is_regular;
use crate::encoding::lemma_magnitude_order;
use crate::encoding::lemma_pruned;
use crate::encoding::lemma_run;
use crate::encoding::lemma_same_value_pruned;
use crate::encoding::lemma_tail_less_agree;
use crate::encoding::lemma_tail_less_end;
use crate::encoding::pruned;
use crate::encoding::regime_code;
use crate::encoding::regime_of;
use crate::encoding::run;
use crate::encoding::same_value;
use crate::encoding::scale_of;
use crate::encoding::scaled;
use crate::encoding::sign_of;
use crate::encoding::tail_less;
use vstd::arithmetic::power2::lemma_pow2_adds;
use vstd::arithmetic::power2::lemma_pow2_pos;
use vstd::arithmetic::power2::pow2;
use vstd::prelude::*;

verus! {

/// A run is known by the bits it holds and the bit or the end behind it.
pub proof fn lemma_run_is(s: Seq<bool>, bit: bool, from: nat, n: nat)
    requires
        from + n <= s.len(),
        forall|i: int| from <= i < from + n ==> s[i] == bit,
        from + n == s.len() || s[(from + n) as int] != bit,
    ensures
        run(s, bit, from) == n,
    decreases n,
{
    if n > 0 {
        lemma_run_is(s, bit, from + 1, (n - 1) as nat);
    }
}

/// Pruning behind a set bit keeps everything up to that bit.
pub proof fn lemma_pruned_keeps(s: Seq<bool>, i: int)
    requires
        0 <= i < s.len(),
        s[i],
    ensures
        pruned(s).len() > i,
{
    lemma_pruned(s);
}

/// Pruning a string with a set bit in its back part prunes the back part.
pub proof fn lemma_pruned_back(front: Seq<bool>, back: Seq<bool>)
    requires
        exists|i: int| 0 <= i < back.len() && back[i],
    ensures
        pruned(front + back) == front + pruned(back),
    decreases back.len(),
{
    let whole = front + back;
    let i = choose|i: int| 0 <= i < back.len() && back[i];
    if !back.last() {
        assert(i < back.len() - 1);
        assert(whole.drop_last() =~= front + back.drop_last());
        assert(back.drop_last()[i]);
        lemma_pruned_back(front, back.drop_last());
    } else {
        assert(whole.last());
    }
}

/// Pruning a string whose back part holds no set bit prunes the front part.
pub proof fn lemma_pruned_front(front: Seq<bool>, back: Seq<bool>)
    requires
        forall|i: int| 0 <= i < back.len() ==> !back[i],
    ensures
        pruned(front + back) == pruned(front),
        pruned(back) == Seq::<bool>::empty(),
    decreases back.len(),
{
    let whole = front + back;
    if back.len() > 0 {
        assert(!back.last());
        assert(whole.drop_last() =~= front + back.drop_last());
        lemma_pruned_front(front, back.drop_last());
    } else {
        assert(whole =~= front);
    }
}

/// The fields of an encoded posit are the fields that went in, the
/// fraction without its trailing zeros.
pub proof fn lemma_fields_of_encoded(sign: bool, regime: int, exponent: nat, fraction: Seq<bool>)
    requires
        exponent < 4,
    ensures
        is_regular(encoded(sign, regime, exponent, fraction)),
        is_pruned(encoded(sign, regime, exponent, fraction)),
        sign_of(encoded(sign, regime, exponent, fraction)) == sign,
        regime_of(encoded(sign, regime, exponent, fraction)) == regime,
        exponent_of(encoded(sign, regime, exponent, fraction)) == exponent,
        fraction_of(encoded(sign, regime, exponent, fraction)) == pruned(fraction),
{
    let code = regime_code(regime);
    let head = seq![sign] + code + exponent_code(exponent);
    let whole = assembled(sign, regime, exponent, fraction);
    let s = encoded(sign, regime, exponent, fraction);
    let r: int = if regime < 0 { -regime } else { regime + 1 };
    let st = r + 2;
    lemma_pruned(whole);
    assert(whole =~= head + fraction);
    assert(code.len() == r + 1);
    assert(head.len() == st + 2);
    // the place of a set bit of the regime
    let mark = if regime < 0 { r + 1 } else { 1 };
    assert(whole[mark] == code[mark - 1]);
    assert(whole[mark]);
    lemma_pruned_keeps(whole, mark);
    assert(s[mark] == whole[mark]);
    assert(1 <= mark < s.len() && s[mark]);
    assert(s[0] == whole[0]);
    assert(s[1] == whole[1]);
    assert(whole[1] == code[0]);
    // the run of the regime
    assert forall|i: int| 1 <= i < 1 + r implies 0 <= i < s.len() && #[trigger] s[i] == (regime
        >= 0) by {
        assert(whole[i] == code[i - 1]);
        if regime >= 0 {
            lemma_pruned_keeps(whole, i);
        } else {
        }
        assert(s[i] == whole[i]);
    }
    assert(s[r] == (regime >= 0));
    if 1 + r < s.len() {
        assert(s[1 + r] == whole[1 + r]);
        assert(whole[1 + r] == code[r]);
    }
    lemma_run_is(s, regime >= 0, 1, r as nat);
    assert(exponent_start(s) == st);
    // the exponent
    assert(bit_at(s, st) == bit_at(whole, st));
    assert(bit_at(s, st + 1) == bit_at(whole, st + 1));
    assert(whole[st] == exponent_code(exponent)[0]);
    assert(whole[st + 1] == exponent_code(exponent)[1]);
    // the fraction
    if exists|i: int| 0 <= i < fraction.len() && fraction[i] {
        lemma_pruned_back(head, fraction);
        lemma_pruned(fraction);
        let i = choose|i: int| 0 <= i < fraction.len() && fraction[i];
        assert(pruned(fraction).len() > 0) by {
            lemma_pruned_keeps(fraction, i);
        }
        assert(s.skip(st + 2) =~= pruned(fraction));
    } else {
        lemma_pruned_front(head, fraction);
        lemma_pruned(head);
    }
}

/// The significand `1.f` as a whole number: the hidden bit in front of
/// the fraction.
pub open spec fn significand(f: Seq<bool>) -> nat {
    pow2(f.len()) + value(f)
}

/// The significand `1.f` times two to the given scale, moved left by
/// `offset` places.
pub open spec fn weigh(scale: int, f: Seq<bool>, offset: nat) -> nat {
    significand(f) * pow2((offset + scale - f.len()) as nat)
}

/// Whether `offset` places are enough to make `1.f` times two to the
/// given scale a whole number.
pub open spec fn reaches(scale: int, f: Seq<bool>, offset: nat) -> bool {
    offset + scale - f.len() >= 0
}

/// The magnitude of a regular posit, moved left by `offset` places.
pub open spec fn magnitude(x: Seq<bool>, offset: nat) -> nat {
    weigh(scale_of(x), fraction_of(x), offset)
}

/// Whether `offset` places are enough for the magnitude of `x`.
pub open spec fn covers(offset: nat, x: Seq<bool>) -> bool {
    reaches(scale_of(x), fraction_of(x), offset)
}

/// A significand with a bit in front and a bit string behind it.
pub proof fn lemma_significand(f: Seq<bool>)
    ensures
        significand(f) == value(seq![true] + f),
        pow2(f.len()) <= significand(f) < 2 * pow2(f.len()),
{
    lemma_value_concat(seq![true], f);
    lemma_value_single(true);
    lemma_value_bound(f);
    let p = pow2(f.len());
    assert(1 * p == p) by (nonlinear_arith);
}

/// Zeros behind a fraction do not change what it weighs.
pub proof fn lemma_weigh_trailing(scale: int, f: Seq<bool>, n: nat, offset: nat)
    requires
        reaches(scale, f + repeated(false, n), offset),
    ensures
        weigh(scale, f + repeated(false, n), offset) == weigh(scale, f, offset),
{
    let g = f + repeated(false, n);
    let e = (offset + scale - g.len()) as nat;
    lemma_value_trailing_zeros(f, n);
    lemma_pow2_adds(f.len(), n);
    lemma_pow2_adds(n, e);
    let p = pow2(f.len());
    let v = value(f);
    let m = pow2(n);
    let q = pow2(e);
    assert((p * m + v * m) * q == (p + v) * (m * q)) by (nonlinear_arith);
}

/// Pruning a fraction does not change what it weighs.
pub proof fn lemma_weigh_pruned(scale: int, f: Seq<bool>, offset: nat)
    requires
        reaches(scale, f, offset),
    ensures
        weigh(scale, pruned(f), offset) == weigh(scale, f, offset),
        reaches(scale, pruned(f), offset),
{
    lemma_pruned(f);
    let p = pruned(f);
    let n = (f.len() - p.len()) as nat;
    assert(f =~= p + repeated(false, n));
    lemma_weigh_trailing(scale, p, n, offset);
}

/// The posit with a given sign, scale and fraction is regular and in
/// canonical form, has that sign and that scale, and weighs what scale
/// and fraction weigh.
pub proof fn lemma_magnitude_scaled(sign: bool, scale: int, f: Seq<bool>, offset: nat)
    requires
        reaches(scale, f, offset),
    ensures
        is_regular(scaled(sign, scale, f)),
        is_pruned(scaled(sign, scale, f)),
        sign_of(scaled(sign, scale, f)) == sign,
        scale_of(scaled(sign, scale, f)) == scale,
        covers(offset, scaled(sign, scale, f)),
        magnitude(scaled(sign, scale, f), offset) == weigh(scale, f, offset),
{
    reveal(scaled);
    lemma_fields_of_encoded(sign, scale / 4, (scale % 4) as nat, f);
    lemma_weigh_pruned(scale, f, offset);
}

/// The magnitudes of the two significands at their meeting width.
pub proof fn lemma_meeting_values(f: Seq<bool>, g: Seq<bool>, shift: nat)
    ensures
        value(top(f, g, shift)) == significand(f) * pow2(
            (meeting_width(f, g, shift) - 1 - f.len()) as nat,
        ),
        value(bottom(f, g, shift)) == significand(g) * pow2(
            (meeting_width(f, g, shift) - 1 - shift - g.len()) as nat,
        ),
{
    reveal(top);
    reveal(bottom);
    let w = meeting_width(f, g, shift);
    lemma_significand(f);
    lemma_significand(g);
    lemma_value_trailing_zeros(seq![true] + f, (w - 1 - f.len()) as nat);
    let low = repeated(false, shift) + seq![true] + g;
    assert(low =~= repeated(false, shift) + (seq![true] + g));
    lemma_value_leading_zeros(shift, seq![true] + g);
    lemma_value_trailing_zeros(low, (w - 1 - shift - g.len()) as nat);
}

/// What the two aligned significands weigh: the magnitudes of the two
/// posits, in units of the last place of the common width.
pub proof fn lemma_aligned_magnitudes(a: Seq<bool>, b: Seq<bool>, offset: nat)
    requires
        gap(a, b) >= 0,
        covers(offset, a),
        covers(offset, b),
    ensures
        offset + scale_of(a) - (common_width(a, b) - 1) >= 0,
        magnitude(a, offset) == value(upper(a, b)) * pow2(
            (offset + scale_of(a) - (common_width(a, b) - 1)) as nat,
        ),
        magnitude(b, offset) == value(lower(a, b)) * pow2(
            (offset + scale_of(a) - (common_width(a, b) - 1)) as nat,
        ),
{
    let f = fraction_of(a);
    let g = fraction_of(b);
    let shift = gap(a, b) as nat;
    let w = common_width(a, b);
    let unit = (offset + scale_of(a) - (w - 1)) as nat;
    let fill_a = (w - 1 - f.len()) as nat;
    let fill_b = (w - 1 - shift - g.len()) as nat;
    lemma_meeting_values(f, g, shift);
    lemma_pow2_adds(fill_a, unit);
    lemma_pow2_adds(fill_b, unit);
    let x = significand(f);
    let y = significand(g);
    let pa = pow2(fill_a);
    let pb = pow2(fill_b);
    let u = pow2(unit);
    assert((x * pa) * u == x * (pa * u)) by (nonlinear_arith);
    assert((y * pb) * u == y * (pb * u)) by (nonlinear_arith);
}

/// A magnitude is not zero.
pub proof fn lemma_magnitude_positive(x: Seq<bool>, offset: nat)
    ensures
        magnitude(x, offset) > 0,
{
    let f = fraction_of(x);
    let e = (offset + scale_of(x) - f.len()) as nat;
    lemma_significand(f);
    lemma_pow2_pos(f.len());
    lemma_pow2_pos(e);
    let m = significand(f);
    let q = pow2(e);
    assert(m * q > 0) by (nonlinear_arith)
        requires
            m > 0,
            q > 0,
    ;
}

/// With `a` not below `b` in dictionary order, the magnitude of `a` is
/// not below that of `b`, and above it unless the two posits are equal.
pub proof fn lemma_magnitude_not_below(a: Seq<bool>, b: Seq<bool>, offset: nat)
    requires
        is_regular(a),
        is_regular(b),
        sign_of(a) == sign_of(b),
        !tail_less(a, b, 1),
        covers(offset, a),
        covers(offset, b),
    ensures
        magnitude(a, offset) >= magnitude(b, offset),
        !same_value(a, b) ==> magnitude(a, offset) > magnitude(b, offset),
{
    lemma_aligned(a, b);
    lemma_aligned_magnitudes(a, b, offset);
    let unit = (offset + scale_of(a) - (common_width(a, b) - 1)) as nat;
    lemma_pow2_pos(unit);
    let x = value(upper(a, b));
    let y = value(lower(a, b));
    let u = pow2(unit);
    assert(x * u >= y * u) by (nonlinear_arith)
        requires
            x >= y,
            u > 0,
    ;
    if !same_value(a, b) {
        assert(x * u > y * u) by (nonlinear_arith)
            requires
                x > y,
                u > 0,
        ;
    }
}

/// The dictionary order of two regular posits of one sign is the order
/// of their magnitudes, and posits of one magnitude are equal.
pub proof fn lemma_order_is_magnitude(a: Seq<bool>, b: Seq<bool>, offset: nat)
    requires
        is_regular(a),
        is_regular(b),
        sign_of(a) == sign_of(b),
        covers(offset, a),
        covers(offset, b),
    ensures
        tail_less(a, b, 1) <==> magnitude(a, offset) < magnitude(b, offset),
        magnitude(a, offset) == magnitude(b, offset) ==> same_value(a, b),
{
    lemma_magnitude_order(a, b);
    if !tail_less(a, b, 1) {
        lemma_magnitude_not_below(a, b, offset);
    } else {
        if same_value(b, a) {
            assert forall|k: int| 1 <= k < wider(a.len(), b.len()) implies bit_at(a, k) == bit_at(
                b,
                k,
            ) by {
                assert(bit_at(b, k) == bit_at(a, k));
            }
            lemma_tail_less_agree(a, b, 1, wider(wider(a.len(), b.len()), 1));
            lemma_tail_less_end(a, b, wider(wider(a.len(), b.len()), 1));
        }
        lemma_magnitude_not_below(b, a, offset);
    }
}

/// Two regular posits in canonical form, of one sign and one magnitude,
/// are the same posit.
pub proof fn lemma_magnitude_injective(a: Seq<bool>, b: Seq<bool>, offset: nat)
    requires
        is_regular(a),
        is_regular(b),
        is_pruned(a),
        is_pruned(b),
        sign_of(a) == sign_of(b),
        covers(offset, a),
        covers(offset, b),
        magnitude(a, offset) == magnitude(b, offset),
    ensures
        a == b,
{
    lemma_order_is_magnitude(a, b, offset);
    lemma_same_value_pruned(a, b);
}

/// The sum of the aligned significands weighs what the two posits weigh together.
pub proof fn lemma_sum_aligned_exact(a: Seq<bool>, b: Seq<bool>, offset: nat)
    requires
        is_regular(a),
        is_regular(b),
        sign_of(a) == sign_of(b),
        !tail_less(a, b, 1),
        covers(offset, a),
        covers(offset, b),
    ensures
        is_regular(sum_aligned(a, b)),
        is_pruned(sum_aligned(a, b)),
        sign_of(sum_aligned(a, b)) == sign_of(a),
        covers(offset, sum_aligned(a, b)),
        magnitude(sum_aligned(a, b), offset) == magnitude(a, offset) + magnitude(b, offset),
{
    lemma_aligned(a, b);
    lemma_aligned_magnitudes(a, b, offset);
    let w = common_width(a, b);
    let up = upper(a, b);
    let low = lower(a, b);
    let s = sum_bits(up, low);
    lemma_sum_bits(up, low);
    lemma_top_bit(up);
    lemma_top_bit(s);
    lemma_value_skip_first(s);
    let t = s.skip(1);
    let carry: int = if s.len() > w { 1 } else { 0 };
    let unit = (offset + scale_of(a) - (w - 1)) as nat;
    assert(significand(t) == value(s));
    lemma_magnitude_scaled(sign_of(a), scale_of(a) + carry, t, offset);
    let x = value(up);
    let y = value(low);
    let u = pow2(unit);
    assert((x + y) * u == x * u + y * u) by (nonlinear_arith);
}

/// The difference of the aligned significands weighs what the larger
/// posit weighs more than the smaller.
pub proof fn lemma_difference_aligned_exact(a: Seq<bool>, b: Seq<bool>, offset: nat)
    requires
        is_regular(a),
        is_regular(b),
        sign_of(a) == sign_of(b),
        !tail_less(a, b, 1),
        !same_value(a, b),
        covers(offset, a),
        covers(offset, b),
    ensures
        is_regular(difference_aligned(a, b)),
        is_pruned(difference_aligned(a, b)),
        sign_of(difference_aligned(a, b)) == sign_of(a),
        covers(offset, difference_aligned(a, b)),
        magnitude(difference_aligned(a, b), offset) + magnitude(b, offset) == magnitude(
            a,
            offset,
        ),
{
    lemma_difference_ready(a, b);
    lemma_aligned_magnitudes(a, b, offset);
    let w = common_width(a, b);
    let d = diff_bits(seq![false] + upper(a, b), seq![false] + lower(a, b));
    let z = leading_zeros(d) as int;
    lemma_run(d, false, 0);
    let k = choose|k: int| 0 <= k < w + 1 && d[k];
    assert(z <= k);
    assert(1 <= z < d.len());
    assert(d[z]);
    let tail = d.skip(z);
    let rest = d.skip(z + 1);
    assert(d =~= repeated(false, z as nat) + tail);
    lemma_value_leading_zeros(z as nat, tail);
    assert(tail =~= seq![true] + rest);
    lemma_significand(rest);
    assert(significand(rest) == value(d));
    let unit = (offset + scale_of(a) - (w - 1)) as nat;
    lemma_magnitude_scaled(sign_of(a), scale_of(a) - (z - 1), rest, offset);
    let x = value(upper(a, b));
    let y = value(lower(a, b));
    let u = pow2(unit);
    assert((x - y) * u + y * u == x * u) by (nonlinear_arith);
}

} // verus!
