//! The posit encoding, stated over bit strings: the two sentinels, pruning,
//! equality and order, and the four fields with their reassembly.

use crate::bitmath::repeated;
use vstd::prelude::*;

verus! {

/// Zero is the empty string.
pub open spec fn zero_bits() -> Seq<bool> {
    Seq::empty()
}

/// NaR is the single bit `1`.
pub open spec fn nar_bits() -> Seq<bool> {
    seq![true]
}

/// One: sign `0` and the first bit of the regime of power zero.
pub open spec fn one_bits() -> Seq<bool> {
    seq![false, true]
}

/// The bit at position `i`, bits past the end reading as zero.
pub open spec fn bit_at(s: Seq<bool>, i: int) -> bool {
    0 <= i < s.len() && s[i]
}

/// Equality of posits: bit for bit, missing tail bits reading as zero.
pub open spec fn same_value(a: Seq<bool>, b: Seq<bool>) -> bool {
    forall|i: int| #![trigger bit_at(a, i)] #![trigger bit_at(b, i)] bit_at(a, i) == bit_at(b, i)
}

/// Whether a string stands for zero: no bit is set.
pub open spec fn is_zero(s: Seq<bool>) -> bool {
    forall|i: int| 0 <= i < s.len() ==> !s[i]
}

/// Whether a string stands for NaR: the sign bit is set and no other.
pub open spec fn is_nar(s: Seq<bool>) -> bool {
    s.len() >= 1 && s[0] && forall|i: int| 1 <= i < s.len() ==> !s[i]
}

/// Whether a string has fields to decode: some bit behind the sign is set.
pub open spec fn is_regular(s: Seq<bool>) -> bool {
    exists|i: int| 1 <= i < s.len() && s[i]
}

/// Whether a string is in canonical form: it does not end in a zero.
pub open spec fn is_pruned(s: Seq<bool>) -> bool {
    s.len() == 0 || s.last()
}

/// The string without its trailing zeros.
pub open spec fn pruned(s: Seq<bool>) -> Seq<bool>
    decreases s.len(),
{
    if s.len() > 0 && !s.last() {
        pruned(s.drop_last())
    } else {
        s
    }
}

/// The sign: the first bit, and non-negative for the empty string.
pub open spec fn sign_of(s: Seq<bool>) -> bool {
    bit_at(s, 0)
}

/// Negation flips the sign bit; on the empty string it appends a `1`.
pub open spec fn negated(s: Seq<bool>) -> Seq<bool> {
    if s.len() == 0 {
        seq![true]
    } else {
        s.update(0, !s[0])
    }
}

/// The absolute value clears a set sign bit.
pub open spec fn absolute(s: Seq<bool>) -> Seq<bool> {
    if sign_of(s) {
        negated(s)
    } else {
        s
    }
}

/// Whether, from position `i` on, `a` comes before `b` in dictionary
/// order, missing bits reading as zero.
pub open spec fn tail_less(a: Seq<bool>, b: Seq<bool>, i: nat) -> bool
    decreases (if a.len() >= b.len() { a.len() } else { b.len() }) - i,
{
    if i >= a.len() && i >= b.len() {
        false
    } else if bit_at(a, i as int) != bit_at(b, i as int) {
        bit_at(b, i as int)
    } else {
        tail_less(a, b, i + 1)
    }
}

/// The order of posits: a negative one is below a non-negative one; two of
/// one sign compare by their remaining bits, each taken exclusive-or the sign.
pub open spec fn less(a: Seq<bool>, b: Seq<bool>) -> bool {
    if sign_of(a) != sign_of(b) {
        sign_of(a)
    } else if sign_of(a) {
        tail_less(b, a, 1)
    } else {
        tail_less(a, b, 1)
    }
}

/// The number of bits equal to `bit` in a row, from position `from` on.
pub open spec fn run(s: Seq<bool>, bit: bool, from: nat) -> nat
    decreases s.len() - from,
{
    if from < s.len() && s[from as int] == bit {
        1 + run(s, bit, from + 1)
    } else {
        0
    }
}

/// The regime: a run of `n` ones stands for `n - 1`, a run of `n` zeros for `-n`.
pub open spec fn regime_of(s: Seq<bool>) -> int {
    if s[1] {
        run(s, true, 1) - 1
    } else {
        -(run(s, false, 1) as int)
    }
}

/// The position of the first exponent bit: behind the sign, the run of the
/// regime and the bit that ends the run.
pub open spec fn exponent_start(s: Seq<bool>) -> nat {
    run(s, s[1], 1) + 2
}

/// The exponent: the two bits behind the regime, missing bits reading as zero.
pub open spec fn exponent_of(s: Seq<bool>) -> nat {
    let at = exponent_start(s) as int;
    (if bit_at(s, at) { 2nat } else { 0nat }) + (if bit_at(s, at + 1) { 1nat } else { 0nat })
}

/// The fraction: every bit behind the exponent.
pub open spec fn fraction_of(s: Seq<bool>) -> Seq<bool> {
    let at = exponent_start(s) + 2;
    if at < s.len() {
        s.skip(at as int)
    } else {
        Seq::empty()
    }
}

/// The binary scale: four times the regime, plus the exponent.
pub open spec fn scale_of(s: Seq<bool>) -> int {
    4 * regime_of(s) + exponent_of(s)
}

/// The unary code of a regime: `-k` zeros and a one when `k` is negative,
/// `k + 1` ones and a zero otherwise.
pub open spec fn regime_code(k: int) -> Seq<bool> {
    if k < 0 {
        repeated(false, (-k) as nat).push(true)
    } else {
        repeated(true, (k + 1) as nat).push(false)
    }
}

/// The two exponent bits, high bit first.
pub open spec fn exponent_code(e: nat) -> Seq<bool> {
    seq![e / 2 % 2 == 1, e % 2 == 1]
}

/// The fields in a row, before pruning.
pub open spec fn assembled(sign: bool, regime: int, exponent: nat, fraction: Seq<bool>) -> Seq<
    bool,
> {
    seq![sign] + regime_code(regime) + exponent_code(exponent) + fraction
}

/// The posit with the given fields.
pub open spec fn encoded(sign: bool, regime: int, exponent: nat, fraction: Seq<bool>) -> Seq<
    bool,
> {
    pruned(assembled(sign, regime, exponent, fraction))
}

/// The posit with the given sign, binary scale and fraction: the scale
/// divides into regime and exponent.
#[verifier::opaque]
pub open spec fn scaled(sign: bool, scale: int, fraction: Seq<bool>) -> Seq<bool> {
    encoded(sign, scale / 4, (scale % 4) as nat, fraction)
}

/// Pruning keeps a prefix that is in canonical form and stands for the same posit.
pub proof fn lemma_pruned(s: Seq<bool>)
    ensures
        pruned(s).len() <= s.len(),
        pruned(s) == s.take(pruned(s).len() as int),
        is_pruned(pruned(s)),
        forall|i: int| pruned(s).len() <= i < s.len() ==> !s[i],
        same_value(s, pruned(s)),
    decreases s.len(),
{
    if s.len() > 0 && !s.last() {
        let d = s.drop_last();
        lemma_pruned(d);
        let p = pruned(d);
        assert(p =~= s.take(p.len() as int));
        assert forall|i: int| p.len() <= i < s.len() implies !s[i] by {
            if i < d.len() {
                assert(d[i] == s[i]);
            }
        }
        assert forall|i: int| bit_at(s, i) == bit_at(p, i) by {
            if 0 <= i < p.len() {
                assert(p[i] == s.take(p.len() as int)[i]);
            }
        }
    } else {
        assert(s =~= s.take(s.len() as int));
    }
}

/// Zeros appended to a string prune away again.
pub proof fn lemma_pruned_append_zeros(s: Seq<bool>, n: nat)
    ensures
        pruned(s + repeated(false, n)) == pruned(s),
    decreases n,
{
    let t = s + repeated(false, n);
    if n == 0 {
        assert(t =~= s);
    } else {
        assert(t.drop_last() =~= s + repeated(false, (n - 1) as nat));
        lemma_pruned_append_zeros(s, (n - 1) as nat);
    }
}

/// Two strings stand for the same posit exactly when they prune to the same string.
pub proof fn lemma_same_value_pruned(a: Seq<bool>, b: Seq<bool>)
    ensures
        same_value(a, b) <==> pruned(a) == pruned(b),
{
    lemma_pruned(a);
    lemma_pruned(b);
    let p = pruned(a);
    let q = pruned(b);
    if same_value(a, b) {
        assert forall|i: int| bit_at(p, i) == bit_at(q, i) by {
            assert(bit_at(a, i) == bit_at(p, i));
            assert(bit_at(b, i) == bit_at(q, i));
        }
        if p.len() < q.len() {
            assert(bit_at(q, q.len() - 1));
            assert(!bit_at(p, q.len() - 1));
        }
        if q.len() < p.len() {
            assert(bit_at(p, p.len() - 1));
            assert(!bit_at(q, p.len() - 1));
        }
        assert forall|i: int| 0 <= i < p.len() implies p[i] == q[i] by {
            assert(bit_at(p, i) == bit_at(q, i));
        }
        assert(p =~= q);
    }
    if p == q {
        assert forall|i: int| bit_at(a, i) == bit_at(b, i) by {
            assert(bit_at(a, i) == bit_at(p, i));
            assert(bit_at(b, i) == bit_at(q, i));
        }
    }
}

/// The sentinels and the regular strings part all strings in three.
pub proof fn lemma_kinds(s: Seq<bool>)
    ensures
        is_zero(s) <==> same_value(s, zero_bits()),
        is_nar(s) <==> same_value(s, nar_bits()),
        is_regular(s) <==> !is_zero(s) && !is_nar(s),
        is_regular(s) ==> s.len() >= 2,
{
    let z = zero_bits();
    let n = nar_bits();
    if is_zero(s) {
        assert forall|i: int| bit_at(s, i) == bit_at(z, i) by {}
    }
    if same_value(s, z) {
        assert forall|i: int| 0 <= i < s.len() implies !s[i] by {
            assert(bit_at(s, i) == bit_at(z, i));
        }
    }
    if is_nar(s) {
        assert forall|i: int| bit_at(s, i) == bit_at(n, i) by {}
    }
    if same_value(s, n) {
        assert(bit_at(s, 0) == bit_at(n, 0));
        assert forall|i: int| 1 <= i < s.len() implies !s[i] by {
            assert(bit_at(s, i) == bit_at(n, i));
        }
    }
    if !is_zero(s) && !is_nar(s) {
        let i = choose|i: int| 0 <= i < s.len() && s[i];
        if i == 0 {
            let j = choose|j: int| 1 <= j < s.len() && s[j];
            assert(1 <= j < s.len() && s[j]);
        } else {
            assert(1 <= i < s.len() && s[i]);
        }
    }
}

/// Where two strings agree from `i` up to `j`, their order from `i` on is
/// their order from `j` on.
pub proof fn lemma_tail_less_agree(a: Seq<bool>, b: Seq<bool>, i: nat, j: nat)
    requires
        i <= j,
        forall|k: int| i <= k < j ==> bit_at(a, k) == bit_at(b, k),
    ensures
        tail_less(a, b, i) == tail_less(a, b, j),
    decreases j - i,
{
    if i < j {
        lemma_tail_less_agree(a, b, i + 1, j);
        assert(bit_at(a, i as int) == bit_at(b, i as int));
        if i >= a.len() && i >= b.len() {
            lemma_tail_less_end(a, b, j);
        }
    }
}

/// Past the end of both strings nothing is less.
pub proof fn lemma_tail_less_end(a: Seq<bool>, b: Seq<bool>, i: nat)
    requires
        i >= a.len(),
        i >= b.len(),
    ensures
        !tail_less(a, b, i),
{
}

/// A posit made of sign, scale and fraction is in canonical form.
pub proof fn lemma_scaled_pruned(sign: bool, scale: int, fraction: Seq<bool>)
    ensures
        is_pruned(scaled(sign, scale, fraction)),
{
    reveal(scaled);
    lemma_pruned(assembled(sign, scale / 4, (scale % 4) as nat, fraction));
}

/// A run stays inside the string, holds only the bit it counts, and ends
/// at the end of the string or at a different bit.
pub proof fn lemma_run(s: Seq<bool>, bit: bool, from: nat)
    ensures
        from <= s.len() ==> from + run(s, bit, from) <= s.len(),
        forall|k: int| from <= k < from + run(s, bit, from) ==> 0 <= k < s.len() && s[k] == bit,
        from + run(s, bit, from) < s.len() ==> s[(from + run(s, bit, from)) as int] != bit,
    decreases s.len() - from,
{
    if from < s.len() && s[from as int] == bit {
        lemma_run(s, bit, from + 1);
    }
}

/// The regime of a regular string: its run starts at the second bit, is
/// not empty, and a run of zeros ends in a one inside the string.
pub proof fn lemma_regime_run(s: Seq<bool>)
    requires
        is_regular(s),
    ensures
        1 <= run(s, s[1], 1) <= s.len() - 1,
        !s[1] ==> run(s, s[1], 1) + 1 < s.len(),
        bit_at(s, 1 + run(s, s[1], 1) as int) == !s[1],
        -(s.len() as int) < regime_of(s) < s.len(),
        0 <= exponent_of(s) < 4,
{
    lemma_run(s, s[1], 1);
    let r = run(s, s[1], 1) as int;
    if !s[1] {
        let i = choose|i: int| 1 <= i < s.len() && s[i];
        if 1 + r >= s.len() {
            assert(1 <= i < 1 + r);
            assert(s[i] == s[1]);
        }
    }
}

/// Of two regular strings of one sign, the one that is not below the other
/// in dictionary order has the scale that is not smaller; with equal
/// scales the two have their fractions at the same place, and the order
/// of the strings is the order of the fractions.
pub proof fn lemma_scale_order(a: Seq<bool>, b: Seq<bool>)
    requires
        is_regular(a),
        is_regular(b),
        !tail_less(a, b, 1),
    ensures
        scale_of(a) >= scale_of(b),
        scale_of(a) == scale_of(b) ==> {
            &&& exponent_start(a) == exponent_start(b)
            &&& forall|k: int|
                1 <= k < exponent_start(a) + 2 ==> bit_at(a, k) == bit_at(b, k)
            &&& !tail_less(a, b, exponent_start(a) + 2)
        },
{
    lemma_regime_run(a);
    lemma_regime_run(b);
    lemma_run(a, a[1], 1);
    lemma_run(b, b[1], 1);
    let ra = run(a, a[1], 1) as int;
    let rb = run(b, b[1], 1) as int;
    if a[1] != b[1] {
        assert(bit_at(a, 1) != bit_at(b, 1));
        assert(a[1] && !b[1]);
        assert(scale_of(a) > scale_of(b));
    } else if ra != rb {
        let m = if ra < rb { ra } else { rb };
        assert forall|k: int| 1 <= k < 1 + m implies bit_at(a, k) == bit_at(b, k) by {
            assert(a[k] == a[1]);
            assert(b[k] == b[1]);
        }
        lemma_tail_less_agree(a, b, 1, (1 + m) as nat);
        if ra < rb {
            assert(b[1 + ra] == b[1]);
            assert(bit_at(a, 1 + ra) == !a[1]);
            assert(tail_less(a, b, (1 + ra) as nat) == b[1]);
            assert(!a[1]);
        } else {
            assert(a[1 + rb] == a[1]);
            assert(bit_at(b, 1 + rb) == !b[1]);
            assert(tail_less(a, b, (1 + rb) as nat) == !a[1]);
            assert(a[1]);
        }
        assert(scale_of(a) > scale_of(b));
    } else {
        let st = exponent_start(a);
        assert(st == ra + 2);
        assert(st == exponent_start(b));
        assert forall|k: int| 1 <= k < st implies bit_at(a, k) == bit_at(b, k) by {
            if k < 1 + ra {
                assert(a[k] == a[1]);
                assert(b[k] == b[1]);
            }
        }
        lemma_tail_less_agree(a, b, 1, st);
        assert(!tail_less(a, b, st));
        let a0 = bit_at(a, st as int);
        let b0 = bit_at(b, st as int);
        let a1 = bit_at(a, st as int + 1);
        let b1 = bit_at(b, st as int + 1);
        if st >= a.len() && st >= b.len() {
            lemma_tail_less_end(a, b, st + 2);
        } else if a0 != b0 {
            assert(a0 && !b0);
        } else {
            assert(!tail_less(a, b, st + 1));
            if st + 1 >= a.len() && st + 1 >= b.len() {
                lemma_tail_less_end(a, b, st + 2);
            } else if a1 != b1 {
                assert(a1 && !b1);
            } else {
                assert(!tail_less(a, b, st + 2));
            }
        }
    }
}

/// Of two strings, at most one is below the other from a place on; where
/// neither is, they agree from there on.
pub proof fn lemma_magnitude_order(a: Seq<bool>, b: Seq<bool>)
    ensures
        !(tail_less(a, b, 1) && tail_less(b, a, 1)),
        !tail_less(a, b, 1) && !tail_less(b, a, 1) ==> forall|i: int|
            1 <= i ==> bit_at(a, i) == bit_at(b, i),
{
    lemma_order_from(a, b, 1);
}

/// The same, from any place on.
pub proof fn lemma_order_from(a: Seq<bool>, b: Seq<bool>, k: nat)
    ensures
        !(tail_less(a, b, k) && tail_less(b, a, k)),
        !tail_less(a, b, k) && !tail_less(b, a, k) ==> forall|i: int|
            k <= i ==> bit_at(a, i) == bit_at(b, i),
    decreases (if a.len() >= b.len() { a.len() } else { b.len() }) - k,
{
    if k >= a.len() && k >= b.len() {
    } else if bit_at(a, k as int) != bit_at(b, k as int) {
    } else {
        lemma_order_from(a, b, k + 1);
        if !tail_less(a, b, k) && !tail_less(b, a, k) {
            assert forall|i: int| k <= i implies bit_at(a, i) == bit_at(b, i) by {
                if i > k {
                }
            }
        }
    }
}

/// Dictionary order from a place on carries over from one pair of strings
/// to the next.
pub proof fn lemma_tail_less_transitive(a: Seq<bool>, b: Seq<bool>, c: Seq<bool>, k: nat)
    requires
        tail_less(a, b, k),
        tail_less(b, c, k),
    ensures
        tail_less(a, c, k),
    decreases (if a.len() >= b.len() { a.len() } else { b.len() }) + c.len() - k,
{
    let x = bit_at(a, k as int);
    let y = bit_at(b, k as int);
    let z = bit_at(c, k as int);
    if x == y && y == z {
        lemma_tail_less_transitive(a, b, c, k + 1);
    }
}

} // verus!
