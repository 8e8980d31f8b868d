//! Bit strings as unsigned magnitudes: the vocabulary in which the bit
//! buffer and the posit operations are specified.

use vstd::arithmetic::div_mod::lemma_mod_breakdown;
use vstd::arithmetic::div_mod::lemma_small_mod;
use vstd::arithmetic::power2::lemma_pow2_pos;
use vstd::arithmetic::power2::lemma_pow2_strictly_increases;
use vstd::arithmetic::power2::lemma_pow2_unfold;
use vstd::arithmetic::power2::pow2;
use vstd::prelude::*;

verus! {

/// The unsigned magnitude that a bit string encodes, most significant bit first.
pub open spec fn value(s: Seq<bool>) -> nat
    decreases s.len(),
{
    if s.len() == 0 {
        0
    } else {
        2 * value(s.drop_last()) + if s.last() { 1nat } else { 0nat }
    }
}

/// The `n` low bits of `v`, most significant first.
pub open spec fn from_value(v: nat, n: nat) -> Seq<bool>
    decreases n,
{
    if n == 0 {
        Seq::empty()
    } else {
        from_value(v / 2, (n - 1) as nat).push(v % 2 == 1)
    }
}

/// `n` bits that are all `bit`.
pub open spec fn repeated(bit: bool, n: nat) -> Seq<bool> {
    Seq::new(n, |i: int| bit)
}

/// The longer of two lengths.
pub open spec fn wider(m: nat, n: nat) -> nat {
    if m >= n { m } else { n }
}

/// Longhand addition of two magnitudes aligned at their last bit: as wide
/// as the wider operand, and one bit wider when the sum carries out.
pub open spec fn sum_bits(a: Seq<bool>, b: Seq<bool>) -> Seq<bool> {
    let n = wider(a.len(), b.len());
    let v = value(a) + value(b);
    if v < pow2(n) {
        from_value(v, n)
    } else {
        from_value(v, n + 1)
    }
}

/// Subtraction by adding the two's complement of `b`, taken at `b`'s own
/// width and sign-extended when `a` is wider; the carry out is dropped.
/// A `b` of magnitude zero leaves `a` as it is.
pub open spec fn diff_bits(a: Seq<bool>, b: Seq<bool>) -> Seq<bool> {
    if value(b) == 0 {
        a
    } else {
        let n = wider(a.len(), b.len());
        let c = (pow2(b.len()) - value(b)) as nat;
        let ext = if b.len() < a.len() && 2 * c >= pow2(b.len()) {
            (pow2(a.len()) - pow2(b.len())) as nat
        } else {
            0nat
        };
        from_value((value(a) + c + ext) % pow2(n), n)
    }
}

/// Dictionary order: the first position at which the strings differ
/// decides, and a string is greater than each of its proper prefixes.
pub open spec fn lex_greater(a: Seq<bool>, b: Seq<bool>) -> bool
    decreases a.len(),
{
    if a.len() == 0 {
        false
    } else if b.len() == 0 {
        true
    } else if a[0] != b[0] {
        a[0]
    } else {
        lex_greater(a.skip(1), b.skip(1))
    }
}

/// A magnitude of `n` bits is below `2^n`.
pub proof fn lemma_value_bound(s: Seq<bool>)
    ensures
        value(s) < pow2(s.len()),
    decreases s.len(),
{
    if s.len() == 0 {
        lemma_pow2_pos(0);
    } else {
        lemma_value_bound(s.drop_last());
        lemma_pow2_unfold(s.len());
    }
}

/// `from_value` yields exactly the width asked for.
pub proof fn lemma_from_value_len(v: nat, n: nat)
    ensures
        from_value(v, n).len() == n,
    decreases n,
{
    if n > 0 {
        lemma_from_value_len(v / 2, (n - 1) as nat);
    }
}

/// Reading back what `from_value` wrote gives the value modulo `2^n`.
pub proof fn lemma_value_from_value(v: nat, n: nat)
    ensures
        value(from_value(v, n)) == v % pow2(n),
    decreases n,
{
    if n == 0 {
        lemma_pow2_pos(0);
        assert(pow2(0) == 1) by {
            vstd::arithmetic::power2::lemma2_to64();
        }
    } else {
        let m = (n - 1) as nat;
        let s = from_value(v, n);
        lemma_value_from_value(v / 2, m);
        assert(s.drop_last() =~= from_value(v / 2, m));
        lemma_pow2_unfold(n);
        lemma_pow2_pos(m);
        lemma_mod_breakdown(v as int, 2, pow2(m) as int);
    }
}

/// A value that fits in `n` bits is read back unchanged.
pub proof fn lemma_value_from_small(v: nat, n: nat)
    requires
        v < pow2(n),
    ensures
        value(from_value(v, n)) == v,
{
    lemma_value_from_value(v, n);
    lemma_small_mod(v, pow2(n));
}

/// Writing the magnitude of a string at the string's own width gives the string back.
pub proof fn lemma_from_value_value(s: Seq<bool>)
    ensures
        from_value(value(s), s.len()) == s,
    decreases s.len(),
{
    if s.len() > 0 {
        lemma_from_value_value(s.drop_last());
        assert(from_value(value(s), s.len()) =~= s);
    } else {
        assert(from_value(value(s), s.len()) =~= s);
    }
}

/// Two strings of one width with one magnitude are the same string.
pub proof fn lemma_value_injective(a: Seq<bool>, b: Seq<bool>)
    requires
        a.len() == b.len(),
        value(a) == value(b),
    ensures
        a == b,
{
    lemma_from_value_value(a);
    lemma_from_value_value(b);
}

/// The magnitude of a concatenation: the front part is shifted up by the
/// width of the back part.
pub proof fn lemma_value_concat(a: Seq<bool>, b: Seq<bool>)
    ensures
        value(a + b) == value(a) * pow2(b.len()) + value(b),
    decreases b.len(),
{
    if b.len() == 0 {
        assert(a + b =~= a);
        assert(pow2(0) == 1) by {
            vstd::arithmetic::power2::lemma2_to64();
        }
    } else {
        lemma_value_concat(a, b.drop_last());
        assert((a + b).drop_last() =~= a + b.drop_last());
        lemma_pow2_unfold(b.len());
        let p = pow2((b.len() - 1) as nat);
        assert(2 * (value(a) * p) == value(a) * (2 * p)) by (nonlinear_arith);
    }
}

/// A string of zeros has magnitude zero.
pub proof fn lemma_value_zeros(n: nat)
    ensures
        value(repeated(false, n)) == 0,
    decreases n,
{
    if n > 0 {
        lemma_value_zeros((n - 1) as nat);
        assert(repeated(false, n).drop_last() =~= repeated(false, (n - 1) as nat));
    }
}

/// A magnitude is zero exactly when no bit is set.
pub proof fn lemma_value_zero_iff(s: Seq<bool>)
    ensures
        value(s) == 0 <==> (forall|i: int| 0 <= i < s.len() ==> !s[i]),
    decreases s.len(),
{
    if s.len() > 0 {
        let d = s.drop_last();
        lemma_value_zero_iff(d);
        if value(s) == 0 {
            assert forall|i: int| 0 <= i < s.len() implies !s[i] by {
                if i < s.len() - 1 {
                    assert(s[i] == d[i]);
                }
            }
        }
        if forall|i: int| 0 <= i < s.len() ==> !s[i] {
            assert forall|i: int| 0 <= i < d.len() implies !d[i] by {
                assert(d[i] == s[i]);
            }
            assert(!s[s.len() - 1]);
        }
    }
}

/// Zeros in front do not change a magnitude.
pub proof fn lemma_value_leading_zeros(n: nat, s: Seq<bool>)
    ensures
        value(repeated(false, n) + s) == value(s),
{
    lemma_value_concat(repeated(false, n), s);
    lemma_value_zeros(n);
    assert(0 * pow2(s.len()) == 0) by (nonlinear_arith);
}

/// Zeros behind multiply a magnitude by a power of two.
pub proof fn lemma_value_trailing_zeros(s: Seq<bool>, n: nat)
    ensures
        value(s + repeated(false, n)) == value(s) * pow2(n),
{
    lemma_value_concat(s, repeated(false, n));
    lemma_value_zeros(n);
}

/// For strings of one width, dictionary order is the order of the magnitudes.
pub proof fn lemma_lex_greater_value(a: Seq<bool>, b: Seq<bool>)
    requires
        a.len() == b.len(),
    ensures
        lex_greater(a, b) <==> value(a) > value(b),
    decreases a.len(),
{
    if a.len() > 0 {
        let x = a.skip(1);
        let y = b.skip(1);
        lemma_lex_greater_value(x, y);
        assert(a =~= seq![a[0]] + x);
        assert(b =~= seq![b[0]] + y);
        lemma_value_concat(seq![a[0]], x);
        lemma_value_concat(seq![b[0]], y);
        lemma_value_single(a[0]);
        lemma_value_single(b[0]);
        lemma_value_bound(x);
        lemma_value_bound(y);
        let p = pow2(x.len());
        assert(1 * p == p) by (nonlinear_arith);
        assert(0 * p == 0) by (nonlinear_arith);
    }
}

/// A single bit is worth one when set and nothing otherwise.
pub proof fn lemma_value_single(bit: bool)
    ensures
        value(seq![bit]) == if bit { 1nat } else { 0nat },
{
    let s = seq![bit];
    assert(s.drop_last() =~= Seq::<bool>::empty());
    assert(value(s.drop_last()) == 0);
    assert(s.last() == bit);
}

/// The first bit is set exactly when the magnitude reaches the upper half
/// of its range.
pub proof fn lemma_top_bit(s: Seq<bool>)
    requires
        s.len() >= 1,
    ensures
        s[0] <==> value(s) >= pow2((s.len() - 1) as nat),
{
    let t = s.skip(1);
    assert(s =~= seq![s[0]] + t);
    lemma_value_concat(seq![s[0]], t);
    lemma_value_single(s[0]);
    lemma_value_bound(t);
    let p = pow2(t.len());
    assert(1 * p == p) by (nonlinear_arith);
    assert(0 * p == 0) by (nonlinear_arith);
}

/// Dropping the first bit takes its weight off the magnitude.
pub proof fn lemma_value_skip_first(s: Seq<bool>)
    requires
        s.len() >= 1,
    ensures
        value(s) == (if s[0] { pow2((s.len() - 1) as nat) } else { 0 }) + value(s.skip(1)),
{
    let t = s.skip(1);
    assert(s =~= seq![s[0]] + t);
    lemma_value_concat(seq![s[0]], t);
    lemma_value_single(s[0]);
    let p = pow2(t.len());
    assert(1 * p == p) by (nonlinear_arith);
    assert(0 * p == 0) by (nonlinear_arith);
}

/// Powers of two grow with the exponent.
pub proof fn lemma_pow2_monotonic(m: nat, n: nat)
    requires
        m <= n,
    ensures
        pow2(m) <= pow2(n),
{
    if m < n {
        lemma_pow2_strictly_increases(m, n);
    }
}

/// What longhand addition gives: the sum of the magnitudes, at the wider
/// width, or one bit more with the carry in front.
pub proof fn lemma_sum_bits(a: Seq<bool>, b: Seq<bool>)
    ensures
        value(sum_bits(a, b)) == value(a) + value(b),
        value(a) + value(b) < pow2(wider(a.len(), b.len())) ==> sum_bits(a, b).len() == wider(
            a.len(),
            b.len(),
        ),
        value(a) + value(b) >= pow2(wider(a.len(), b.len())) ==> sum_bits(a, b).len() == wider(
            a.len(),
            b.len(),
        ) + 1 && sum_bits(a, b)[0],
{
    let n = wider(a.len(), b.len());
    let v = value(a) + value(b);
    lemma_value_bound(a);
    lemma_value_bound(b);
    lemma_pow2_monotonic(a.len(), n);
    lemma_pow2_monotonic(b.len(), n);
    lemma_pow2_unfold(n + 1);
    if v < pow2(n) {
        lemma_from_value_len(v, n);
        lemma_value_from_small(v, n);
    } else {
        lemma_from_value_len(v, n + 1);
        lemma_value_from_small(v, n + 1);
        lemma_top_bit(from_value(v, n + 1));
    }
}

/// Subtraction at one width, with the minuend not below the subtrahend,
/// gives the difference of the magnitudes at that width.
pub proof fn lemma_diff_bits_exact(a: Seq<bool>, b: Seq<bool>)
    requires
        a.len() == b.len(),
        value(a) >= value(b),
    ensures
        diff_bits(a, b).len() == a.len(),
        value(diff_bits(a, b)) == value(a) - value(b),
{
    let n = a.len();
    lemma_value_bound(a);
    lemma_value_bound(b);
    if value(b) != 0 {
        let m = pow2(n);
        let d = (value(a) - value(b)) as nat;
        let c = (m - value(b)) as nat;
        assert(value(a) + c + 0 == m + d);
        vstd::arithmetic::div_mod::lemma_mod_add_multiples_vanish(d as int, m as int);
        lemma_small_mod(d, m);
        lemma_from_value_len(d, n);
        lemma_value_from_small(d, n);
    }
}

/// Subtraction at one width gives the difference of the magnitudes modulo
/// two to that width.
pub proof fn lemma_diff_bits_wrapping(a: Seq<bool>, b: Seq<bool>)
    requires
        a.len() == b.len(),
    ensures
        diff_bits(a, b).len() == a.len(),
        value(diff_bits(a, b)) == (value(a) - value(b)) % (pow2(a.len()) as int),
{
    let n = a.len();
    let m = pow2(n);
    lemma_value_bound(a);
    lemma_value_bound(b);
    lemma_pow2_pos(n);
    if value(b) != 0 {
        let c = (m - value(b)) as nat;
        let t = ((value(a) + c) % m) as nat;
        vstd::arithmetic::div_mod::lemma_mod_add_multiples_vanish(
            value(a) - value(b),
            m as int,
        );
        lemma_from_value_len(t, n);
        vstd::arithmetic::div_mod::lemma_mod_bound((value(a) + c) as int, m as int);
        lemma_value_from_small(t, n);
        assert(value(a) + c + 0 == m + (value(a) - value(b)));
    } else {
        lemma_small_mod(value(a), m);
    }
}

/// Taking `2^n` off a wider magnitude that reaches it: the subtrahend is a
/// one and `n` zeros; its two's complement is sign-extended to the width of
/// the minuend, and the difference is exact.
pub proof fn lemma_strip(a: Seq<bool>, n: nat)
    requires
        a.len() > n,
        value(a) >= pow2(n),
    ensures
        diff_bits(a, seq![true] + repeated(false, n)).len() == a.len(),
        value(diff_bits(a, seq![true] + repeated(false, n))) == value(a) - pow2(n),
{
    let b = seq![true] + repeated(false, n);
    let m = a.len();
    lemma_value_concat(seq![true], repeated(false, n));
    lemma_value_single(true);
    lemma_value_zeros(n);
    let p = pow2(n);
    assert(1 * p == p) by (nonlinear_arith);
    assert(value(b) == p);
    lemma_pow2_pos(n);
    lemma_pow2_unfold(n + 1);
    lemma_pow2_monotonic(n + 1, m);
    lemma_value_bound(a);
    let d = (value(a) - p) as nat;
    let c = (pow2(n + 1) - p) as nat;
    assert(c == p);
    let ext = if b.len() < m { (pow2(m) - pow2(n + 1)) as nat } else { 0nat };
    assert(value(a) + c + ext == pow2(m) + d);
    vstd::arithmetic::div_mod::lemma_mod_add_multiples_vanish(d as int, pow2(m) as int);
    lemma_small_mod(d, pow2(m));
    lemma_from_value_len(d, m);
    lemma_value_from_small(d, m);
}

/// The last bits of a wider writing are the narrower writing.
pub proof fn lemma_from_value_skip(v: nat, n: nat, k: nat)
    requires
        k <= n,
    ensures
        from_value(v, n).skip(k as int) == from_value(v, (n - k) as nat),
    decreases n,
{
    lemma_from_value_len(v, n);
    if n == k {
        assert(from_value(v, n).skip(k as int) =~= Seq::<bool>::empty());
    } else {
        let m = (n - 1) as nat;
        lemma_from_value_skip(v / 2, m, k);
        lemma_from_value_len(v / 2, m);
        assert(from_value(v, n).skip(k as int) =~= from_value(v / 2, m).skip(k as int).push(
            v % 2 == 1,
        ));
    }
}

/// Writing at a width sees a value only modulo two to that width.
pub proof fn lemma_from_value_mod(v: nat, n: nat)
    ensures
        from_value(v, n) == from_value(v % pow2(n), n),
{
    lemma_pow2_pos(n);
    let w = v % pow2(n);
    lemma_from_value_len(v, n);
    lemma_from_value_len(w, n);
    lemma_value_from_value(v, n);
    lemma_value_from_value(w, n);
    vstd::arithmetic::div_mod::lemma_mod_twice(v as int, pow2(n) as int);
    lemma_value_injective(from_value(v, n), from_value(w, n));
}

} // verus!
