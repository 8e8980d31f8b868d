//! Conversion from IEEE-754 binary64, taken as its 64-bit pattern.

use crate::addition::leading_zeros;
use crate::bitmath::from_value;
use crate::bitmath::lemma_from_value_len;
use crate::bitmath::lemma_from_value_mod;
use crate::bitmath::lemma_from_value_skip;
use crate::bitmath::lemma_top_bit;
use crate::bitmath::lemma_value_from_small;
use crate::bitmath::lemma_value_zero_iff;
use crate::buffer::BitBuf;
use crate::encoding::lemma_run;
use crate::encoding::nar_bits;
use crate::encoding::scaled;
use crate::encoding::zero_bits;
use crate::posit::Posit;
use crate::regime::Regime;
use vstd::arithmetic::power2::lemma2_to64;
use vstd::arithmetic::power2::lemma2_to64_rest;
use vstd::arithmetic::power2::pow2;
use vstd::prelude::*;

verus! {

/// Two to the power 52: the weight of the hidden bit of a binary64 significand.
pub const HIDDEN_BIT: u64 = 0x10_0000_0000_0000;

/// The sign of a binary64 pattern: its first bit.
pub open spec fn sign_field(bits: u64) -> bool {
    bits >= 0x8000_0000_0000_0000
}

/// The biased exponent of a binary64 pattern: the eleven bits behind the sign.
pub open spec fn exponent_field(bits: u64) -> nat {
    (bits as nat / (HIDDEN_BIT as nat)) % 0x800
}

/// The mantissa of a binary64 pattern: its last 52 bits.
pub open spec fn mantissa_field(bits: u64) -> nat {
    bits as nat % (HIDDEN_BIT as nat)
}

/// The posit of a binary64 pattern. NaN and the infinities give NaR, the
/// two zeros give zero. A normal number has the scale of its unbiased
/// exponent and its 52 mantissa bits as fraction. A subnormal number is
/// brought to a hidden bit first: each place that its first set mantissa
/// bit stands behind the hidden one lowers the scale by one, and the bits
/// behind that bit are the fraction.
pub open spec fn binary64_bits(bits: u64) -> Seq<bool> {
    let e = exponent_field(bits);
    let m = mantissa_field(bits);
    if e == 0x7ff {
        nar_bits()
    } else if e == 0 && m == 0 {
        zero_bits()
    } else if e == 0 {
        let f = from_value(m, 52);
        let z = leading_zeros(f) as int;
        scaled(sign_field(bits), -1023 - z, f.skip(z + 1))
    } else {
        scaled(sign_field(bits), e - 1023, from_value(m, 52))
    }
}

/// The place of the first set bit.
fn first_set(x: &BitBuf) -> (place: usize)
    requires
        exists|k: int| 0 <= k < x@.len() && x@[k],
    ensures
        place == leading_zeros(x@),
        place < x@.len(),
        x@[place as int],
{
    let n = x.len();
    let mut place: usize = 0;
    while !x.at(place)
        invariant
            place < x@.len() == n,
            forall|k: int| 0 <= k < place ==> !x@[k],
            exists|k: int| 0 <= k < x@.len() && x@[k],
        decreases n - place,
    {
        proof {
            let k = choose|k: int| 0 <= k < x@.len() && x@[k];
            assert(k > place);
        }
        place += 1;
    }
    proof {
        lemma_run(x@, false, 0);
        let z = leading_zeros(x@);
        if z < place {
            assert(x@[z as int]);
        }
    }
    place
}

/// The significand of a binary64 number, hidden bit first: the last 53
/// bits of the word.
fn significand(word: u64) -> (m: BitBuf)
    requires
        word < 2 * HIDDEN_BIT,
    ensures
        m@ == from_value(word as nat, 53),
{
    let mut m = BitBuf::from_word(word);
    proof {
        lemma_from_value_len(word as nat, 64);
        lemma_from_value_skip(word as nat, 64, 11);
    }
    m.shl_assign(11);
    m
}

/// The regime and the exponent of a scale that is given with an offset of
/// 1076, which keeps the scale of every binary64 number above zero.
fn split_scale(offset_scale: u64) -> (r: (Regime, usize))
    requires
        offset_scale <= 4096,
    ensures
        r.0.canonical(),
        r.0.value <= 1024,
        r.1 < 4,
        4 * r.0.power() + r.1 == offset_scale - 1076,
{
    let exponent = (offset_scale % 4) as usize;
    let quarter = (offset_scale / 4) as usize;
    if quarter >= 269 {
        (Regime { is_negative: false, value: quarter - 269 }, exponent)
    } else {
        (Regime { is_negative: true, value: 269 - quarter }, exponent)
    }
}

impl Posit {
    /// The posit of the binary64 number with the given bit pattern.
    pub fn from_binary64(bits: u64) -> (p: Posit)
        ensures
            p@ == binary64_bits(bits),
    {
        let sign = bits >> 63 != 0;
        let biased = (bits >> 52) & 0x7ff;
        let mantissa = bits & 0xf_ffff_ffff_ffff;
        proof {
            assert((bits >> 63 != 0) == (bits >= 0x8000_0000_0000_0000)) by (bit_vector);
            assert((bits >> 52) & 0x7ff == (bits / 0x10_0000_0000_0000) % 0x800) by (bit_vector);
            assert(bits & 0xf_ffff_ffff_ffff == bits % 0x10_0000_0000_0000) by (bit_vector);
            assert(mantissa < 0x10_0000_0000_0000 ==> mantissa | 0x10_0000_0000_0000 == mantissa
                + 0x10_0000_0000_0000) by (bit_vector);
        }
        if biased == 0x7ff {
            return Posit::nar();
        }
        if biased == 0 && mantissa == 0 {
            return Posit::zero();
        }
        let word = if biased == 0 { mantissa } else { mantissa | HIDDEN_BIT };
        let m = significand(word);
        proof {
            lemma_significand(word, mantissa);
        }
        let shift = first_set(&m);
        let mut fraction = m;
        fraction.shl_assign(shift + 1);
        let offset_scale = (if biased == 0 { 1 } else { biased }) + 53 - shift as u64;
        let (regime, exponent) = split_scale(offset_scale);
        proof {
            let s = from_value(word as nat, 53);
            let f = from_value(mantissa as nat, 52);
            assert(sign == sign_field(bits));
            assert(biased == exponent_field(bits));
            assert(mantissa == mantissa_field(bits));
            if biased == 0 {
                let z = leading_zeros(f) as int;
                assert(shift == z + 1);
                assert(fraction@ =~= f.skip(z + 1));
                assert(4 * regime.power() + exponent == -1023 - z);
            } else {
                assert(shift == 0);
                assert(fraction@ =~= f);
                assert(4 * regime.power() + exponent == biased - 1023);
            }
        }
        Posit::with_scale(sign, regime, exponent, &fraction)
    }
}

/// The 53 bits of a significand: the hidden bit, set for a normal number
/// and clear for a subnormal one, and the 52 bits of the mantissa.
pub proof fn lemma_significand(word: u64, mantissa: u64)
    requires
        mantissa < HIDDEN_BIT,
        word == mantissa || word == mantissa + HIDDEN_BIT,
        word != 0,
    ensures
        from_value(word as nat, 53).len() == 53,
        from_value(word as nat, 53)[0] == (word >= HIDDEN_BIT),
        from_value(word as nat, 53).skip(1) == from_value(mantissa as nat, 52),
        exists|k: int| 0 <= k < 53 && from_value(word as nat, 53)[k],
        word < HIDDEN_BIT ==> leading_zeros(from_value(word as nat, 53)) == leading_zeros(
            from_value(mantissa as nat, 52),
        ) + 1,
        word >= HIDDEN_BIT ==> leading_zeros(from_value(word as nat, 53)) == 0,
{
    let s = from_value(word as nat, 53);
    let f = from_value(mantissa as nat, 52);
    lemma2_to64();
    lemma2_to64_rest();
    assert(pow2(52) == 0x10_0000_0000_0000);
    assert(pow2(53) == 0x20_0000_0000_0000);
    lemma_from_value_len(word as nat, 53);
    lemma_from_value_len(mantissa as nat, 52);
    lemma_value_from_small(word as nat, 53);
    lemma_top_bit(s);
    lemma_from_value_skip(word as nat, 53, 1);
    lemma_from_value_mod(word as nat, 52);
    lemma_from_value_mod(mantissa as nat, 52);
    lemma_value_zero_iff(s);
    lemma_run(s, false, 0);
    lemma_run(f, false, 0);
    if word < HIDDEN_BIT {
        lemma_run(s, false, 1);
        lemma_leading_zeros_behind(s);
    }
}

/// Behind a clear first bit stand as many zeros in a row as the rest of
/// the string has in front.
pub proof fn lemma_leading_zeros_behind(s: Seq<bool>)
    requires
        s.len() >= 1,
        !s[0],
    ensures
        leading_zeros(s) == leading_zeros(s.skip(1)) + 1,
{
    lemma_run_skip(s, false, 1, 1);
    assert(s.skip(1).skip(0) =~= s.skip(1));
}

/// A run counted from a place on is the run of the string from that place.
pub proof fn lemma_run_skip(s: Seq<bool>, bit: bool, from: nat, k: nat)
    requires
        k <= from,
        k <= s.len(),
    ensures
        crate::encoding::run(s, bit, from) == crate::encoding::run(
            s.skip(k as int),
            bit,
            (from - k) as nat,
        ),
    decreases s.len() - from,
{
    if from < s.len() && s[from as int] == bit {
        lemma_run_skip(s, bit, from + 1, k);
    }
}

} // verus!
