use vstd::prelude::*;

verus! {

// Exact nonnegative fractions with machine-word numerator and
// denominator.  Distances between token sets are ratios of small set
// cardinalities, so they are kept exact and compared by
// cross-multiplication instead of going through floating point.

/// The exact product of two 64-bit values.
pub fn mul_u64(a: u64, b: u64) -> (r: u128)
    ensures
        r == (a as int) * (b as int),
{
    proof {
        vstd::arithmetic::mul::lemma_mul_upper_bound(
            a as int,
            u64::MAX as int,
            b as int,
            u64::MAX as int,
        );
    }
    (a as u128) * (b as u128)
}

/// A nonnegative fraction `num / den`.
#[derive(Clone, Copy, Debug, PartialEq, Eq, Structural)]
pub struct Frac {
    pub num: u64,
    pub den: u64,
}

impl Frac {
    /// A fraction denotes a value only when its denominator is positive.
    pub open spec fn wf(self) -> bool {
        self.den >= 1
    }

    pub open spec fn spec_lt(self, other: Frac) -> bool {
        (self.num as int) * (other.den as int) < (other.num as int) * (self.den as int)
    }

    pub open spec fn spec_eq(self, other: Frac) -> bool {
        (self.num as int) * (other.den as int) == (other.num as int) * (self.den as int)
    }

    pub open spec fn is_zero(self) -> bool {
        self.num == 0
    }

    /// Strictly less than, by cross-multiplication.
    pub fn lt(&self, other: &Frac) -> (r: bool)
        ensures
            r == self.spec_lt(*other),
    {
        mul_u64(self.num, other.den) < mul_u64(other.num, self.den)
    }

    /// Equality of the denoted values, by cross-multiplication.
    pub fn eq_value(&self, other: &Frac) -> (r: bool)
        ensures
            r == self.spec_eq(*other),
    {
        mul_u64(self.num, other.den) == mul_u64(other.num, self.den)
    }
}

} // verus!
