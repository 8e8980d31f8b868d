//! Bringing two posits of one sign to a common binary point, as addition
//! and subtraction need them: the significand of the larger on top, that
//! of the smaller moved right by the distance between the scales.

use crate::bitmath::lemma_value_bound;
use crate::bitmath::lemma_value_concat;
use crate::bitmath::lemma_value_injective;
use crate::bitmath::lemma_value_single;
use crate::bitmath::repeated;
use crate::bitmath::value;
use crate::bitmath::wider;
use crate::encoding::bit_at;
use crate::encoding::exponent_start;
use crate::encoding::fraction_of;
use crate::encoding::is_regular;
use crate::encoding::lemma_regime_run;
use crate::encoding::lemma_scale_order;
use crate::encoding::lemma_tail_less_agree;
use crate::encoding::lemma_tail_less_end;
use crate::encoding::same_value;
use crate::encoding::scale_of;
use crate::encoding::sign_of;
use crate::encoding::tail_less;
use vstd::arithmetic::power2::pow2;
use vstd::prelude::*;

verus! {

/// `s` with zeros appended up to width `w`.
pub open spec fn padded(s: Seq<bool>, w: nat) -> Seq<bool> {
    s + repeated(false, (w - s.len()) as nat)
}

/// The number of binary places between the scales of `a` and `b`.
pub open spec fn gap(a: Seq<bool>, b: Seq<bool>) -> int {
    scale_of(a) - scale_of(b)
}

/// The width at which two significands meet when the second is moved
/// right by `shift` places: a hidden bit, then as many places as the
/// longer of the first fraction and the shifted second fraction takes.
pub open spec fn meeting_width(f: Seq<bool>, g: Seq<bool>, shift: nat) -> nat {
    1 + wider(f.len(), shift + g.len())
}

/// The first significand at the meeting width: the hidden bit, the
/// fraction, and zeros to fill.
#[verifier::opaque]
pub open spec fn top(f: Seq<bool>, g: Seq<bool>, shift: nat) -> Seq<bool> {
    padded(seq![true] + f, meeting_width(f, g, shift))
}

/// The second significand at the meeting width: `shift` zeros, the hidden
/// bit, the fraction, and zeros to fill.
#[verifier::opaque]
pub open spec fn bottom(f: Seq<bool>, g: Seq<bool>, shift: nat) -> Seq<bool> {
    padded(repeated(false, shift) + seq![true] + g, meeting_width(f, g, shift))
}

/// The width at which the significands of `a` and `b` meet.
pub open spec fn common_width(a: Seq<bool>, b: Seq<bool>) -> nat {
    meeting_width(fraction_of(a), fraction_of(b), gap(a, b) as nat)
}

/// The significand of `a`: the hidden bit and the fraction, at the common width.
pub open spec fn upper(a: Seq<bool>, b: Seq<bool>) -> Seq<bool> {
    top(fraction_of(a), fraction_of(b), gap(a, b) as nat)
}

/// The significand of `b`, moved right by the gap, at the common width.
pub open spec fn lower(a: Seq<bool>, b: Seq<bool>) -> Seq<bool> {
    bottom(fraction_of(a), fraction_of(b), gap(a, b) as nat)
}

/// The order from a position on depends only on the bits from there on.
pub proof fn lemma_tail_less_moved(
    a: Seq<bool>,
    b: Seq<bool>,
    p: nat,
    x: Seq<bool>,
    y: Seq<bool>,
    q: nat,
)
    requires
        forall|i: int| p <= i ==> #[trigger] bit_at(a, i) == bit_at(x, i - p + q),
        forall|i: int| p <= i ==> #[trigger] bit_at(b, i) == bit_at(y, i - p + q),
    ensures
        tail_less(a, b, p) == tail_less(x, y, q),
    decreases wider(a.len(), b.len()) - p + wider(x.len(), y.len()) - q,
{
    let end_ab = wider(a.len(), b.len());
    let end_xy = wider(x.len(), y.len());
    assert(bit_at(a, p as int) == bit_at(x, q as int));
    assert(bit_at(b, p as int) == bit_at(y, q as int));
    if p >= a.len() && p >= b.len() {
        assert forall|k: int| q <= k < end_xy implies bit_at(x, k) == bit_at(y, k) by {
            assert(bit_at(a, k - q + p) == bit_at(x, k));
            assert(bit_at(b, k - q + p) == bit_at(y, k));
        }
        if q <= end_xy {
            lemma_tail_less_agree(x, y, q, end_xy);
        }
        lemma_tail_less_end(x, y, wider(q, end_xy));
    } else if q >= x.len() && q >= y.len() {
        assert forall|k: int| p <= k < end_ab implies bit_at(a, k) == bit_at(b, k) by {
            assert(bit_at(a, k) == bit_at(x, k - p + q));
            assert(bit_at(b, k) == bit_at(y, k - p + q));
        }
        lemma_tail_less_agree(a, b, p, end_ab);
        lemma_tail_less_end(a, b, end_ab);
    } else if bit_at(a, p as int) == bit_at(b, p as int) {
        assert forall|i: int| p + 1 <= i implies #[trigger] bit_at(a, i) == bit_at(
            x,
            i - (p + 1) + (q + 1),
        ) by {
            assert(bit_at(a, i) == bit_at(x, i - p + q));
        }
        assert forall|i: int| p + 1 <= i implies #[trigger] bit_at(b, i) == bit_at(
            y,
            i - (p + 1) + (q + 1),
        ) by {
            assert(bit_at(b, i) == bit_at(y, i - p + q));
        }
        lemma_tail_less_moved(a, b, p + 1, x, y, q + 1);
    }
}

/// For strings of one width, the order from a position on is the order of
/// the magnitudes of the tails.
pub proof fn lemma_tail_less_value(x: Seq<bool>, y: Seq<bool>, i: nat)
    requires
        x.len() == y.len(),
        i <= x.len(),
    ensures
        tail_less(x, y, i) <==> value(x.skip(i as int)) < value(y.skip(i as int)),
    decreases x.len() - i,
{
    if i < x.len() {
        let xs = x.skip(i as int);
        let ys = y.skip(i as int);
        let xt = x.skip(i as int + 1);
        let yt = y.skip(i as int + 1);
        lemma_tail_less_value(x, y, i + 1);
        assert(xs =~= seq![x[i as int]] + xt);
        assert(ys =~= seq![y[i as int]] + yt);
        lemma_value_concat(seq![x[i as int]], xt);
        lemma_value_concat(seq![y[i as int]], yt);
        lemma_value_single(x[i as int]);
        lemma_value_single(y[i as int]);
        lemma_value_bound(xt);
        lemma_value_bound(yt);
        let p = pow2(xt.len());
        assert(1 * p == p) by (nonlinear_arith);
        assert(0 * p == 0) by (nonlinear_arith);
    } else {
        assert(x.skip(i as int) =~= y.skip(i as int));
    }
}

/// With `a` not below `b` in magnitude, the gap is not negative and the
/// significand of `a` is not below the shifted significand of `b`; it is
/// above it unless the two posits are equal.
pub proof fn lemma_aligned(a: Seq<bool>, b: Seq<bool>)
    requires
        is_regular(a),
        is_regular(b),
        sign_of(a) == sign_of(b),
        !tail_less(a, b, 1),
    ensures
        gap(a, b) >= 0,
        upper(a, b).len() == common_width(a, b),
        lower(a, b).len() == common_width(a, b),
        upper(a, b)[0],
        value(upper(a, b)) >= value(lower(a, b)),
        !same_value(a, b) ==> value(upper(a, b)) > value(lower(a, b)),
{
    reveal(top);
    reveal(bottom);
    lemma_scale_order(a, b);
    lemma_regime_run(a);
    lemma_regime_run(b);
    let g = gap(a, b);
    let w = common_width(a, b);
    let fa = fraction_of(a);
    let fb = fraction_of(b);
    let x = upper(a, b);
    let y = lower(a, b);
    let xt = x.skip(1);
    let yt = y.skip(1);
    assert(x =~= seq![true] + xt);
    assert(y =~= seq![y[0]] + yt);
    lemma_value_concat(seq![true], xt);
    lemma_value_concat(seq![y[0]], yt);
    lemma_value_single(true);
    lemma_value_single(y[0]);
    lemma_value_bound(xt);
    lemma_value_bound(yt);
    let p = pow2(xt.len());
    assert(1 * p == p) by (nonlinear_arith);
    assert(0 * p == 0) by (nonlinear_arith);
    if g > 0 {
        assert(!y[0]);
    } else {
        let st = exponent_start(a) + 2;
        assert(y[0]);
        // the bits of the strings behind the exponent are the bits of the tails
        assert forall|i: int| st <= i implies #[trigger] bit_at(a, i) == bit_at(
            x,
            i - st + 1,
        ) by {
            if i < a.len() {
                assert(fa[i - st] == a[i]);
            }
        }
        assert forall|i: int| st <= i implies #[trigger] bit_at(b, i) == bit_at(
            y,
            i - st + 1,
        ) by {
            if i < b.len() {
                assert(fb[i - st] == b[i]);
            }
        }
        lemma_tail_less_moved(a, b, st, x, y, 1);
        lemma_tail_less_value(x, y, 1);
        if value(x) == value(y) {
            lemma_value_injective(x, y);
            assert forall|i: int| bit_at(a, i) == bit_at(b, i) by {
                if i >= st {
                    assert(bit_at(a, i) == bit_at(x, i - st + 1));
                    assert(bit_at(b, i) == bit_at(y, i - st + 1));
                }
            }
        }
    }
}

} // verus!
