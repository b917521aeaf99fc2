//! The executable rational type. Every operation carries preconditions
//! that keep the `i128` products in range, so the arithmetic is exact
//! and proved free of overflow.

use vstd::prelude::*;
use crate::model::{q_add, q_div, q_div_int, q_eq, q_int, q_le, q_lt, q_pos, Q};
use crate::model::{lemma_pos_mul};

verus! {

/// An exact rational: `num / den`, with `den > 0` for well-formed values.
#[derive(Clone, Copy, PartialEq, Eq, Structural, Debug)]
pub struct Rat {
    pub num: i128,
    pub den: i128,
}

impl View for Rat {
    type V = Q;

    open spec fn view(&self) -> Q {
        Q { n: self.num as int, d: self.den as int }
    }
}

impl Rat {
    /// The denominator is positive.
    pub open spec fn wf(self) -> bool {
        self@.d > 0
    }

    pub fn new(num: i128, den: i128) -> (r: Rat)
        requires
            den > 0,
        ensures
            r@ == (Q { n: num as int, d: den as int }),
            r.wf(),
    {
        Rat { num, den }
    }

    pub fn from_int(n: i64) -> (r: Rat)
        ensures
            r@ == q_int(n as int),
            r.wf(),
    {
        Rat { num: n as i128, den: 1 }
    }

    pub fn zero() -> (r: Rat)
        ensures
            r@ == q_int(0),
            r.wf(),
    {
        Rat { num: 0, den: 1 }
    }

    pub fn add(self, o: Rat) -> (r: Rat)
        requires
            self.wf(),
            o.wf(),
            -i128::MAX <= self@.n * o@.d <= i128::MAX,
            -i128::MAX <= o@.n * self@.d <= i128::MAX,
            -i128::MAX <= self@.n * o@.d + o@.n * self@.d <= i128::MAX,
            self@.d * o@.d <= i128::MAX,
        ensures
            r@ == q_add(self@, o@),
            r.wf(),
    {
        proof {
            lemma_pos_mul(self@.d, o@.d);
        }
        Rat { num: self.num * o.den + o.num * self.den, den: self.den * o.den }
    }

    /// Divide by another rational, which must be strictly positive.
    pub fn div(self, o: Rat) -> (r: Rat)
        requires
            self.wf(),
            o.wf(),
            q_pos(o@),
            -i128::MAX <= self@.n * o@.d <= i128::MAX,
            self@.d * o@.n <= i128::MAX,
        ensures
            r@ == q_div(self@, o@),
            r.wf(),
    {
        proof {
            lemma_pos_mul(self@.d, o@.n);
        }
        Rat { num: self.num * o.den, den: self.den * o.num }
    }

    /// Divide by a positive integer.
    pub fn div_int(self, k: i128) -> (r: Rat)
        requires
            self.wf(),
            k > 0,
            self@.d * k <= i128::MAX,
        ensures
            r@ == q_div_int(self@, k as int),
            r.wf(),
    {
        proof {
            lemma_pos_mul(self@.d, k as int);
        }
        Rat { num: self.num, den: self.den * k }
    }

    /// Value comparison `self < o`.
    pub fn lt(self, o: Rat) -> (r: bool)
        requires
            self.wf(),
            o.wf(),
            -i128::MAX <= self@.n * o@.d <= i128::MAX,
            -i128::MAX <= o@.n * self@.d <= i128::MAX,
        ensures
            r == q_lt(self@, o@),
    {
        self.num * o.den < o.num * self.den
    }

    /// Value comparison `self <= o`.
    pub fn le(self, o: Rat) -> (r: bool)
        requires
            self.wf(),
            o.wf(),
            -i128::MAX <= self@.n * o@.d <= i128::MAX,
            -i128::MAX <= o@.n * self@.d <= i128::MAX,
        ensures
            r == q_le(self@, o@),
    {
        self.num * o.den <= o.num * self.den
    }

    /// Value equality `self == o` as rationals.
    pub fn eq_val(self, o: Rat) -> (r: bool)
        requires
            self.wf(),
            o.wf(),
            -i128::MAX <= self@.n * o@.d <= i128::MAX,
            -i128::MAX <= o@.n * self@.d <= i128::MAX,
        ensures
            r == q_eq(self@, o@),
    {
        self.num * o.den == o.num * self.den
    }

    /// The value is strictly positive.
    pub fn is_pos(self) -> (r: bool)
        requires
            self.wf(),
        ensures
            r == q_pos(self@),
    {
        self.num > 0
    }
}

} // verus!
