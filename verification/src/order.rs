//! Equality and order of posits.

use crate::encoding::bit_at;
use crate::encoding::lemma_tail_less_agree;
use crate::encoding::less;
use crate::encoding::same_value;
use crate::encoding::tail_less;
use crate::posit::Posit;
use std::cmp::Ordering;
use vstd::prelude::*;
use vstd::std_specs::cmp::PartialEqSpecImpl;
use vstd::std_specs::cmp::PartialOrdSpecImpl;

verus! {

/// How one posit stands to another.
#[derive(Clone, Copy, Debug, PartialEq, Eq, Structural)]
pub enum Relation {
    Below,
    Level,
    Above,
}

/// How `a` stands to `b` in the order of posits.
pub open spec fn relation_of(a: Seq<bool>, b: Seq<bool>) -> Relation {
    if less(a, b) {
        Relation::Below
    } else if less(b, a) {
        Relation::Above
    } else {
        Relation::Level
    }
}

/// How two posits compare: below, above, or neither.
pub open spec fn ordering(a: Seq<bool>, b: Seq<bool>) -> Ordering {
    match relation_of(a, b) {
        Relation::Below => Ordering::Less,
        Relation::Level => Ordering::Equal,
        Relation::Above => Ordering::Greater,
    }
}

impl Posit {
    /// Whether two posits are equal, bit for bit, a missing tail bit
    /// reading as zero.
    pub fn same(&self, other: &Posit) -> (equal: bool)
        ensures
            equal == same_value(self@, other@),
    {
        let n = if self.bits.len() >= other.bits.len() {
            self.bits.len()
        } else {
            other.bits.len()
        };
        let mut i: usize = 0;
        while i < n
            invariant
                i <= n,
                n >= self@.len(),
                n >= other@.len(),
                forall|j: int| 0 <= j < i ==> bit_at(self@, j) == bit_at(other@, j),
            decreases n - i,
        {
            let l = self.bits.get(i).unwrap_or(false);
            let r = other.bits.get(i).unwrap_or(false);
            if l != r {
                proof {
                    assert(bit_at(self@, i as int) != bit_at(other@, i as int));
                }
                return false;
            }
            i += 1;
        }
        true
    }

    /// How the magnitudes compare: the bits behind the sign in dictionary
    /// order, a missing tail bit reading as zero.
    pub fn magnitude_relation(&self, other: &Posit) -> (r: Relation)
        ensures
            tail_less(self@, other@, 1) == (r == Relation::Below),
            tail_less(other@, self@, 1) == (r == Relation::Above),
    {
        let n = if self.bits.len() >= other.bits.len() {
            self.bits.len()
        } else {
            other.bits.len()
        };
        let mut i: usize = 1;
        while i < n
            invariant
                1 <= i,
                n >= self@.len(),
                n >= other@.len(),
                forall|j: int| 1 <= j < i ==> bit_at(self@, j) == bit_at(other@, j),
            decreases n - i,
        {
            let l = self.bits.get(i).unwrap_or(false);
            let r = other.bits.get(i).unwrap_or(false);
            if l != r {
                proof {
                    lemma_tail_less_agree(self@, other@, 1, i as nat);
                    lemma_tail_less_agree(other@, self@, 1, i as nat);
                }
                if l {
                    return Relation::Above;
                } else {
                    return Relation::Below;
                }
            }
            i += 1;
        }
        proof {
            lemma_tail_less_agree(self@, other@, 1, i as nat);
            lemma_tail_less_agree(other@, self@, 1, i as nat);
        }
        Relation::Level
    }

    /// Whether this posit is below another, above it, or neither. A
    /// negative posit is below a non-negative one; two negative ones stand
    /// opposite to their magnitudes.
    pub fn relation(&self, other: &Posit) -> (r: Relation)
        ensures
            r == relation_of(self@, other@),
    {
        let l_sign = self.is_negative();
        let r_sign = other.is_negative();
        if l_sign && !r_sign {
            return Relation::Below;
        }
        if !l_sign && r_sign {
            return Relation::Above;
        }
        match self.magnitude_relation(other) {
            Relation::Below => if l_sign {
                Relation::Above
            } else {
                Relation::Below
            },
            Relation::Level => Relation::Level,
            Relation::Above => if l_sign {
                Relation::Below
            } else {
                Relation::Above
            },
        }
    }
}

impl PartialEq for Posit {
    fn eq(&self, other: &Posit) -> (equal: bool) {
        self.same(other)
    }
}

impl PartialEqSpecImpl for Posit {
    open spec fn obeys_eq_spec() -> bool {
        true
    }

    open spec fn eq_spec(&self, other: &Posit) -> bool {
        same_value(self@, other@)
    }
}

impl PartialOrd for Posit {
    fn partial_cmp(&self, other: &Posit) -> (o: Option<Ordering>) {
        match self.relation(other) {
            Relation::Below => Some(Ordering::Less),
            Relation::Level => Some(Ordering::Equal),
            Relation::Above => Some(Ordering::Greater),
        }
    }
}

impl PartialOrdSpecImpl for Posit {
    open spec fn obeys_partial_cmp_spec() -> bool {
        true
    }

    open spec fn partial_cmp_spec(&self, other: &Posit) -> Option<Ordering> {
        Some(ordering(self@, other@))
    }
}

} // verus!
