//! Exact rational scores.
//!
//! Every metric produced by this crate (degree counts, closeness ratios,
//! clustering coefficients, normalized values) is a non-negative rational
//! number `num / den` with `den >= 1`.  Comparisons are done by cross
//! multiplication in 128-bit arithmetic, which is exact, so scores form a
//! total order and no non-comparable value can ever reach the ranking step.

use vstd::prelude::*;

verus! {

/// A non-negative rational score `num / den`; well formed when `den >= 1`.
#[derive(Clone, Copy, Debug, PartialEq, Eq, Structural, Hash)]
pub struct Score {
    pub num: u64,
    pub den: u64,
}

impl Score {
    /// A score is meaningful only with a positive denominator.
    pub open spec fn wf(self) -> bool {
        self.den >= 1
    }

    /// `self <= other` as rationals: `num1/den1 <= num2/den2`.
    pub open spec fn spec_le(self, other: Score) -> bool {
        self.num * other.den <= other.num * self.den
    }

    /// `self < other` as rationals.
    pub open spec fn spec_lt(self, other: Score) -> bool {
        self.num * other.den < other.num * self.den
    }

    /// `self == other` as rationals (representations may differ).
    pub open spec fn same_value(self, other: Score) -> bool {
        self.num * other.den == other.num * self.den
    }

    /// The rational value is zero exactly when the numerator is.
    pub open spec fn is_zero(self) -> bool {
        self.num == 0
    }

    pub fn zero() -> (r: Score)
        ensures
            r == (Score { num: 0, den: 1 }),
    {
        Score { num: 0, den: 1 }
    }

    pub fn one() -> (r: Score)
        ensures
            r == (Score { num: 1, den: 1 }),
    {
        Score { num: 1, den: 1 }
    }

    /// An integer count seen as a rational score.
    pub fn from_count(n: u64) -> (r: Score)
        ensures
            r == (Score { num: n, den: 1 }),
    {
        Score { num: n, den: 1 }
    }

    pub fn ratio(num: u64, den: u64) -> (r: Score)
        requires
            den >= 1,
        ensures
            r == (Score { num, den }),
    {
        Score { num, den }
    }

    /// Exact comparison by cross multiplication.
    pub fn le(&self, other: &Score) -> (r: bool)
        ensures
            r == self.spec_le(*other),
    {
        proof {
            lemma_mul_u64_fits(self.num, other.den);
            lemma_mul_u64_fits(other.num, self.den);
        }
        let a: u128 = (self.num as u128) * (other.den as u128);
        let b: u128 = (other.num as u128) * (self.den as u128);
        a <= b
    }

    /// Exact strict comparison by cross multiplication.
    pub fn lt(&self, other: &Score) -> (r: bool)
        ensures
            r == self.spec_lt(*other),
    {
        proof {
            lemma_mul_u64_fits(self.num, other.den);
            lemma_mul_u64_fits(other.num, self.den);
        }
        let a: u128 = (self.num as u128) * (other.den as u128);
        let b: u128 = (other.num as u128) * (self.den as u128);
        a < b
    }

    /// Exact value equality by cross multiplication.
    pub fn value_eq(&self, other: &Score) -> (r: bool)
        ensures
            r == self.same_value(*other),
    {
        proof {
            lemma_mul_u64_fits(self.num, other.den);
            lemma_mul_u64_fits(other.num, self.den);
        }
        let a: u128 = (self.num as u128) * (other.den as u128);
        let b: u128 = (other.num as u128) * (self.den as u128);
        a == b
    }
}

/// The product of two 64-bit values always fits in 128 bits.
pub proof fn lemma_mul_u64_fits(a: u64, b: u64)
    ensures
        a * b <= u128::MAX,
{
    assert(a * b <= u128::MAX) by (nonlinear_arith)
        requires
            a <= u64::MAX,
            b <= u64::MAX,
    ;
}

} // verus!
