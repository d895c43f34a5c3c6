//! Exact rational scalars.
//!
//! Segment intersection returns a parameter `t` that is in general not a
//! whole number of world units, so it is carried as an exact fraction of two
//! machine integers.  Direction cosines and the normalized cursor magnitude
//! enter the kinematics the same way.

use vstd::arithmetic::div_mod::{
    lemma_div_by_multiple, lemma_div_is_ordered, lemma_div_nonincreasing, lemma_div_of0,
    lemma_div_pos_is_pos,
};
use vstd::prelude::*;

verus! {

/// Bound on the numerator and denominator of the fractions produced by
/// segment intersection: small enough that cross-multiplying two of them
/// stays comfortably within `i128`.
pub const FRAC_LIMIT: i128 = 4_611_686_018_427_387_904;

/// An exact rational value `num / den`, with `den` kept strictly positive.
#[derive(Clone, Copy, PartialEq, Eq, Structural, Debug)]
pub struct Frac {
    pub num: i128,
    pub den: i128,
}

impl Frac {
    /// The denominator is strictly positive, so the sign of the value is the
    /// sign of the numerator and cross-multiplied comparisons keep their
    /// direction.
    pub open spec fn wf(self) -> bool {
        self.den > 0
    }

    /// Both parts small enough for cross-multiplication within `i128`.
    pub open spec fn bounded(self, m: int) -> bool {
        &&& -m <= self.num <= m
        &&& 0 < self.den <= m
    }

    /// Exact equality with the rational `n / d`, by cross-multiplication.
    pub open spec fn is_ratio(self, n: int, d: int) -> bool {
        self.num * d == n * self.den
    }

    pub fn new(num: i64, den: i64) -> (r: Frac)
        requires
            den > 0,
        ensures
            r.num == num,
            r.den == den,
            r.wf(),
    {
        Frac { num: num as i128, den: den as i128 }
    }

    /// Strict order between two fractions with positive denominators.
    pub fn lt(&self, other: &Frac) -> (r: bool)
        requires
            self.bounded(FRAC_LIMIT as int),
            other.bounded(FRAC_LIMIT as int),
        ensures
            r <==> frac_lt(self.num as int, self.den as int, other.num as int, other.den as int),
    {
        proof {
            lemma_mul_bound(self.num as int, other.den as int, FRAC_LIMIT as int, FRAC_LIMIT as int);
            lemma_mul_bound(other.num as int, self.den as int, FRAC_LIMIT as int, FRAC_LIMIT as int);
        }
        let a: i128 = self.num * other.den;
        let b: i128 = other.num * self.den;
        a < b
    }
}

/// `n1 / d1 < n2 / d2`, assuming both denominators are positive.
pub open spec fn frac_lt(n1: int, d1: int, n2: int, d2: int) -> bool {
    n1 * d2 < n2 * d1
}

/// Division that rounds toward zero: the meaning of `/` on machine integers.
pub open spec fn trunc_div(a: int, b: int) -> int {
    if a >= 0 {
        a / b
    } else {
        -((-a) / b)
    }
}

/// `|a * b| <= m * n` when `|a| <= m` and `|b| <= n`.
pub proof fn lemma_mul_bound(a: int, b: int, m: int, n: int)
    by (nonlinear_arith)
    requires
        -m <= a <= m,
        -n <= b <= n,
    ensures
        -(m * n) <= a * b <= m * n,
{
}

/// The product of two positive integers is positive.
pub proof fn lemma_mul_pos(a: int, b: int)
    by (nonlinear_arith)
    requires
        a > 0,
        b > 0,
    ensures
        a * b > 0,
{
}

/// Truncating division stays within `m` when the dividend is within `m * b`.
pub proof fn lemma_trunc_div_bound(a: int, b: int, m: int)
    requires
        b > 0,
        0 <= m,
        -(m * b) <= a <= m * b,
    ensures
        -m <= trunc_div(a, b) <= m,
{
    if a >= 0 {
        lemma_div_pos_is_pos(a, b);
        lemma_div_is_ordered(a, m * b, b);
        lemma_div_by_multiple(m, b);
    } else {
        lemma_div_pos_is_pos(-a, b);
        lemma_div_is_ordered(-a, m * b, b);
        lemma_div_by_multiple(m, b);
    }
}

/// Truncating a zero dividend gives zero.
pub proof fn lemma_trunc_div_zero(b: int)
    requires
        b > 0,
    ensures
        trunc_div(0, b) == 0,
{
    lemma_div_of0(b);
}

/// Machine implementation of `trunc_div` on `i128`.
pub fn div_trunc_i128(a: i128, b: i128) -> (q: i128)
    requires
        b > 0,
        a != i128::MIN,
    ensures
        q == trunc_div(a as int, b as int),
{
    if a >= 0 {
        let au: u128 = a as u128;
        let bu: u128 = b as u128;
        let qu: u128 = au / bu;
        proof {
            lemma_div_nonincreasing(au as int, bu as int);
            lemma_div_pos_is_pos(au as int, bu as int);
        }
        qu as i128
    } else {
        let na: i128 = -a;
        let au: u128 = na as u128;
        let bu: u128 = b as u128;
        let qu: u128 = au / bu;
        proof {
            lemma_div_nonincreasing(au as int, bu as int);
            lemma_div_pos_is_pos(au as int, bu as int);
        }
        -(qu as i128)
    }
}

} // verus!
