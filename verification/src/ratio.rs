//! Congestion levels as exact fractions.

use vstd::prelude::*;

verus! {

/// The fraction `num / den` of two unsigned integers.
///
/// A congestion level is such a fraction between zero and one. Two ratios
/// are `==` when numerator and denominator agree; to compare what they are
/// worth, use [`Ratio::exceeds`].
#[derive(Clone, Copy, Debug, PartialEq, Eq, Structural)]
pub struct Ratio {
    pub num: u64,
    pub den: u64,
}

impl Ratio {
    /// The fraction lies in `[0, 1]`. A zero denominator never does.
    pub open spec fn in_unit_interval(self) -> bool {
        0 < self.den && self.num <= self.den
    }

    /// `self` is worth strictly more than `bound`, by cross-multiplication.
    /// With a zero denominator a ratio exceeds every bound with a non-zero
    /// denominator exactly when its numerator is positive.
    pub open spec fn spec_exceeds(self, bound: Ratio) -> bool {
        self.num * bound.den > bound.num * self.den
    }

    /// `amount / max`, cut off at one.
    pub open spec fn spec_clamped(amount: nat, max: u64) -> Ratio {
        Ratio { num: if amount >= max { max } else { amount as u64 }, den: max }
    }

    /// The one of the two that is worth more; `self` where they are worth the same.
    pub open spec fn spec_max(self, other: Ratio) -> Ratio {
        if other.spec_exceeds(self) {
            other
        } else {
            self
        }
    }

    /// No congestion at all.
    pub open spec fn spec_zero() -> Ratio {
        Ratio { num: 0, den: 1 }
    }

    /// No congestion at all.
    #[verifier::when_used_as_spec(spec_zero)]
    pub fn zero() -> (r: Ratio)
        ensures
            r == Ratio::spec_zero(),
            r.in_unit_interval(),
    {
        Ratio { num: 0, den: 1 }
    }

    /// Whether the fraction lies in `[0, 1]`.
    pub fn is_in_unit_interval(&self) -> (valid: bool)
        ensures
            valid == self.in_unit_interval(),
    {
        0 < self.den && self.num <= self.den
    }

    /// Whether `self` is worth strictly more than `bound`.
    #[verifier::when_used_as_spec(spec_exceeds)]
    pub fn exceeds(self, bound: Ratio) -> (above: bool)
        ensures
            above == self.spec_exceeds(bound),
    {
        let lhs_a: u128 = self.num as u128;
        let lhs_b: u128 = bound.den as u128;
        let rhs_a: u128 = bound.num as u128;
        let rhs_b: u128 = self.den as u128;
        assert(lhs_a * lhs_b <= 0xffff_ffff_ffff_ffff * 0xffff_ffff_ffff_ffff) by (nonlinear_arith)
            requires
                lhs_a <= 0xffff_ffff_ffff_ffff,
                lhs_b <= 0xffff_ffff_ffff_ffff,
        ;
        assert(rhs_a * rhs_b <= 0xffff_ffff_ffff_ffff * 0xffff_ffff_ffff_ffff) by (nonlinear_arith)
            requires
                rhs_a <= 0xffff_ffff_ffff_ffff,
                rhs_b <= 0xffff_ffff_ffff_ffff,
        ;
        lhs_a * lhs_b > rhs_a * rhs_b
    }

    /// The share that `amount` takes of `max`, cut off at one.
    pub fn clamped(amount: u128, max: u64) -> (r: Ratio)
        ensures
            r == Ratio::spec_clamped(amount as nat, max),
            max > 0 ==> r.in_unit_interval(),
    {
        if amount >= max as u128 {
            Ratio { num: max, den: max }
        } else {
            Ratio { num: amount as u64, den: max }
        }
    }

    /// The one of the two that is worth more; `self` where they are worth the same.
    #[verifier::when_used_as_spec(spec_max)]
    pub fn max(self, other: Ratio) -> (r: Ratio)
        ensures
            r == self.spec_max(other),
            self.in_unit_interval() && other.in_unit_interval() ==> r.in_unit_interval(),
    {
        if other.exceeds(self) {
            other
        } else {
            self
        }
    }
}

} // verus!
