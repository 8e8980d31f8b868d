//! Splitting a posit into its fields and putting fields together again.

use crate::buffer::BitBuf;
use crate::buffer::MAX_BITS;
use crate::encoding::exponent_code;
use crate::encoding::exponent_of;
use crate::encoding::fraction_of;
use crate::encoding::lemma_run;
use crate::encoding::pruned;
use crate::encoding::regime_code;
use crate::encoding::regime_of;
use crate::encoding::scaled;
use crate::posit::Posit;
use crate::regime::Regime;
use vstd::prelude::*;

verus! {

/// The fields of a posit: sign, regime, exponent and fraction.
#[derive(Debug)]
pub struct Fields {
    pub sign: bool,
    pub regime: Regime,
    pub exponent: usize,
    pub fraction: BitBuf,
}

/// The unary code of a canonical regime is the code of its power.
pub proof fn lemma_regime_code(r: Regime)
    requires
        r.canonical(),
        r.value < usize::MAX,
    ensures
        r.code() == regime_code(r.power()),
{
}

/// The fields put together are the posit of their scale.
pub proof fn lemma_encode_scaled(sign: bool, regime: Regime, exponent: nat, fraction: Seq<bool>)
    requires
        regime.canonical(),
        regime.value < usize::MAX,
        exponent < 4,
    ensures
        pruned(seq![sign] + regime.code() + exponent_code(exponent) + fraction) == scaled(
            sign,
            4 * regime.power() + exponent,
            fraction,
        ),
{
    reveal(scaled);
    lemma_regime_code(regime);
}

impl Posit {
    /// Splits a posit into its fields. The bit that ends the run of the
    /// regime belongs to the regime; exponent bits past the end read as zero.
    pub fn decode(&self) -> (f: Fields)
        requires
            self@.len() >= 2,
        ensures
            f.sign == self@[0],
            f.regime == Regime::of_power(regime_of(self@)),
            f.regime.canonical(),
            f.regime.width() <= self@.len(),
            f.regime.power() == regime_of(self@),
            f.exponent == exponent_of(self@),
            f.fraction@ == fraction_of(self@),
    {
        let sign = self.bits.at(0);
        let regime = self.regime();
        let n = self.bits.len();
        let start = 1 + regime.bits();
        let high = self.bits.get(start).unwrap_or(false);
        let low = self.bits.get(start + 1).unwrap_or(false);
        let exponent: usize = (if high { 2 } else { 0 }) + (if low { 1 } else { 0 });
        proof {
            lemma_run(self@, self@[1], 1);
        }
        let mut fraction = self.bits.duplicate();
        fraction.shl_assign(start + 2);
        Fields { sign, regime, exponent, fraction }
    }

    /// Puts fields together: sign, the unary code of the regime, the two
    /// low bits of the exponent and the fraction; then prunes.
    pub fn encode(sign: bool, regime: Regime, exponent: usize, fraction: &BitBuf) -> (p: Posit)
        requires
            regime.value + fraction@.len() + 5 <= MAX_BITS,
        ensures
            p@ == pruned(seq![sign] + regime.code() + exponent_code(exponent as nat) + fraction@),
    {
        let mut bits = BitBuf::new();
        bits.push(sign);
        let code = regime.to_bitvec();
        bits.extend(&code);
        bits.push(exponent / 2 % 2 == 1);
        bits.push(exponent % 2 == 1);
        bits.extend(fraction);
        proof {
            assert(bits@ =~= seq![sign] + regime.code() + exponent_code(exponent as nat)
                + fraction@);
        }
        let mut p = Posit { bits };
        p.prune();
        p
    }

    /// The posit with the given sign and fraction whose scale is four
    /// times the regime, plus the exponent.
    pub fn with_scale(sign: bool, regime: Regime, exponent: usize, fraction: &BitBuf) -> (p:
        Posit)
        requires
            regime.canonical(),
            exponent < 4,
            regime.value + fraction@.len() + 5 <= MAX_BITS,
        ensures
            p@ == scaled(sign, 4 * regime.power() + exponent, fraction@),
    {
        proof {
            lemma_encode_scaled(sign, regime, exponent as nat, fraction@);
        }
        Posit::encode(sign, regime, exponent, fraction)
    }
}

} // verus!
