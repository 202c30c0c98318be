//! Fractions of two counts, compared without rounding.

use vstd::prelude::*;

verus! {

/// The fraction `num / den`. With `den == 0` it stands for what a division
/// by zero gives: infinity where `num > 0`, and no number where `num == 0`.
#[derive(Clone, Copy, Debug, PartialEq, Eq)]
pub struct Ratio {
    pub num: u64,
    pub den: u64,
}

impl Ratio {
    /// The fraction is at least `other`, a fraction with a denominator that
    /// is not zero. No number is at least anything.
    pub open spec fn at_least(self, other: Ratio) -> bool {
        if self.den == 0 {
            self.num > 0
        } else {
            self.num * other.den >= other.num * self.den
        }
    }

    /// The fraction is less than `other`; both have denominators that are
    /// not zero.
    pub open spec fn less_than(self, other: Ratio) -> bool {
        self.num * other.den < other.num * self.den
    }

    /// The fraction `num / den`.
    pub fn new(num: u64, den: u64) -> (r: Ratio)
        ensures
            r == (Ratio { num, den }),
    {
        Ratio { num, den }
    }

    /// Whether the fraction is at least `other`.
    pub fn ge(&self, other: &Ratio) -> (b: bool)
        ensures
            b == self.at_least(*other),
    {
        if self.den == 0 {
            return self.num > 0;
        }
        proof {
            lemma_product_fits(self.num, other.den);
            lemma_product_fits(other.num, self.den);
        }
        (self.num as u128) * (other.den as u128) >= (other.num as u128) * (self.den as u128)
    }

    /// Whether the fraction is less than `other`.
    pub fn lt(&self, other: &Ratio) -> (b: bool)
        ensures
            b == self.less_than(*other),
    {
        proof {
            lemma_product_fits(self.num, other.den);
            lemma_product_fits(other.num, self.den);
        }
        (self.num as u128) * (other.den as u128) < (other.num as u128) * (self.den as u128)
    }
}

/// The product of two 64-bit numbers fits in 128 bits.
pub proof fn lemma_product_fits(a: u64, b: u64)
    ensures
        a * b <= u128::MAX,
{
    assert(a * b <= 0xffff_ffff_ffff_ffff * 0xffff_ffff_ffff_ffff) by (nonlinear_arith)
        requires
            0 <= a <= 0xffff_ffff_ffff_ffff,
            0 <= b <= 0xffff_ffff_ffff_ffff,
    ;
}

} // verus!
