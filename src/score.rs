//! Similarity scores as exact fractions.

use vstd::prelude::*;

verus! {

/// A similarity score `num / den`, a fraction in `[0, 1]` when it comes
/// from a comparison of two texts.
#[derive(Clone, Copy, Debug)]
pub struct Score {
    pub num: u64,
    pub den: u64,
}

/// `a` is strictly smaller than `b`, both read as fractions.
pub open spec fn ratio_lt(a: (nat, nat), b: (nat, nat)) -> bool {
    a.0 * b.1 < b.0 * a.1
}

/// `a` is at most `b`, both read as fractions.
pub open spec fn ratio_le(a: (nat, nat), b: (nat, nat)) -> bool {
    a.0 * b.1 <= b.0 * a.1
}

proof fn lemma_product_fits(x: u64, y: u64)
    ensures
        0 <= x * y <= u128::MAX,
{
    assert(0 <= x * y <= 0xffff_ffff_ffff_ffffu64 * 0xffff_ffff_ffff_ffffu64) by (nonlinear_arith)
        requires
            0 <= x <= 0xffff_ffff_ffff_ffffu64,
            0 <= y <= 0xffff_ffff_ffff_ffffu64,
    ;
}

impl Score {
    /// The score as a numerator and a denominator.
    pub open spec fn ratio(self) -> (nat, nat) {
        (self.num as nat, self.den as nat)
    }

    /// `self` is strictly smaller than `o`, compared as fractions.
    pub open spec fn lt(self, o: Score) -> bool {
        ratio_lt(self.ratio(), o.ratio())
    }

    /// `self` is at most `o`, compared as fractions.
    pub open spec fn le(self, o: Score) -> bool {
        ratio_le(self.ratio(), o.ratio())
    }

    /// The score `num / den`.
    pub open spec fn new_spec(num: u64, den: u64) -> Score {
        Score { num, den }
    }

    /// A score of `num / den`.
    pub fn new(num: u64, den: u64) -> (r: Score)
        requires
            den > 0,
        ensures
            r == Score::new_spec(num, den),
    {
        Score { num, den }
    }

    /// The score of no similarity.
    pub fn zero() -> (r: Score)
        ensures
            r.num == 0,
            r.den == 1,
    {
        Score { num: 0, den: 1 }
    }

    pub fn numerator(&self) -> (r: u64)
        ensures
            r == self.num,
    {
        self.num
    }

    pub fn denominator(&self) -> (r: u64)
        ensures
            r == self.den,
    {
        self.den
    }

    /// Strict comparison of the two fractions.
    pub fn less_than(&self, o: &Score) -> (r: bool)
        ensures
            r == self.lt(*o),
    {
        proof {
            lemma_product_fits(self.num, o.den);
            lemma_product_fits(o.num, self.den);
        }
        let a = (self.num as u128) * (o.den as u128);
        let b = (o.num as u128) * (self.den as u128);
        a < b
    }

    /// Non-strict comparison of the two fractions.
    pub fn at_most(&self, o: &Score) -> (r: bool)
        ensures
            r == self.le(*o),
    {
        proof {
            lemma_product_fits(self.num, o.den);
            lemma_product_fits(o.num, self.den);
        }
        let a = (self.num as u128) * (o.den as u128);
        let b = (o.num as u128) * (self.den as u128);
        a <= b
    }
}

} // verus!
