//! The mathematical model of the pipeline: exact rationals over `int`,
//! and the model of one plotted point.

use vstd::prelude::*;

verus! {

/// A rational number in the specification model: numerator `n` over
/// denominator `d`. A meaningful rational has `d > 0`.
pub ghost struct Q {
    pub n: int,
    pub d: int,
}

/// A rational is well formed when its denominator is positive.
pub open spec fn q_valid(a: Q) -> bool {
    a.d > 0
}

/// Two rationals denote the same value (cross multiplication).
pub open spec fn q_eq(a: Q, b: Q) -> bool {
    a.n * b.d == b.n * a.d
}

/// `a <= b` as rational values (denominators positive).
pub open spec fn q_le(a: Q, b: Q) -> bool {
    a.n * b.d <= b.n * a.d
}

/// `a < b` as rational values (denominators positive).
pub open spec fn q_lt(a: Q, b: Q) -> bool {
    a.n * b.d < b.n * a.d
}

pub open spec fn q_add(a: Q, b: Q) -> Q {
    Q { n: a.n * b.d + b.n * a.d, d: a.d * b.d }
}

pub open spec fn q_sub(a: Q, b: Q) -> Q {
    Q { n: a.n * b.d - b.n * a.d, d: a.d * b.d }
}

/// Division of `a` by `b`; meaningful when `b` is strictly positive.
pub open spec fn q_div(a: Q, b: Q) -> Q {
    Q { n: a.n * b.d, d: a.d * b.n }
}

/// Division by a positive integer.
pub open spec fn q_div_int(a: Q, k: int) -> Q {
    Q { n: a.n, d: a.d * k }
}

/// Multiplication by an integer.
pub open spec fn q_mul_int(a: Q, k: int) -> Q {
    Q { n: a.n * k, d: a.d }
}

pub open spec fn q_int(k: int) -> Q {
    Q { n: k, d: 1 }
}

pub open spec fn q_zero() -> Q {
    q_int(0)
}

pub open spec fn q_one() -> Q {
    q_int(1)
}

/// The rational is strictly positive.
pub open spec fn q_pos(a: Q) -> bool {
    a.n > 0
}

/// The rational is non-negative.
pub open spec fn q_nonneg(a: Q) -> bool {
    a.n >= 0
}

/// The larger of two rationals; on ties the first argument is kept.
pub open spec fn q_max(a: Q, b: Q) -> Q {
    if q_lt(a, b) {
        b
    } else {
        a
    }
}

/// Magnitude bounds: `|n| <= bn` and `0 < d <= bd`. Machine-width
/// preconditions of the executable arithmetic are stated with this.
pub open spec fn q_bounded(a: Q, bn: int, bd: int) -> bool {
    -bn <= a.n <= bn && 0 < a.d <= bd
}

/// The model of one plotted point: a minute of day, a chart x
/// coordinate, and the photovoltaic value being reshaped.
pub ghost struct PPoint {
    pub minute: int,
    pub x: Q,
    pub pv: Q,
}

/// Last minute of a day: days run over minutes `0 ..= 1439`.
pub const LAST_MINUTE: u32 = 1439;

pub open spec fn pt_valid(p: PPoint) -> bool {
    &&& q_valid(p.x)
    &&& q_valid(p.pv)
    &&& 0 <= p.minute <= LAST_MINUTE as int
}

pub open spec fn pts_valid(s: Seq<PPoint>) -> bool {
    forall|i: int| 0 <= i < s.len() ==> pt_valid(#[trigger] s[i])
}

/// Every `pv` in the sequence is bounded by `(bn, bd)`.
pub open spec fn pv_bounded(s: Seq<PPoint>, bn: int, bd: int) -> bool {
    forall|i: int| 0 <= i < s.len() ==> q_bounded((#[trigger] s[i]).pv, bn, bd)
}

/// Minutes strictly increase from one point to the next.
pub open spec fn minutes_strict(s: Seq<PPoint>) -> bool {
    forall|i: int| 0 <= i < s.len() - 1 ==> (#[trigger] s[i]).minute < s[i + 1].minute
}

/// Minutes never decrease from one point to the next.
pub open spec fn minutes_nondec(s: Seq<PPoint>) -> bool {
    forall|i: int| 0 <= i < s.len() - 1 ==> (#[trigger] s[i]).minute <= s[i + 1].minute
}

/// Adjacent strict increase implies the pairwise order.
pub proof fn lemma_minutes_strict_pairwise(s: Seq<PPoint>)
    requires
        minutes_strict(s),
    ensures
        forall|i: int, j: int| 0 <= i < j < s.len() ==> #[trigger] s[i].minute < #[trigger] s[j].minute,
{
    assert forall|i: int, j: int| 0 <= i < j < s.len() implies #[trigger] s[i].minute
        < #[trigger] s[j].minute by {
        lemma_minutes_strict_upto(s, i, j);
    }
}

proof fn lemma_minutes_strict_upto(s: Seq<PPoint>, i: int, j: int)
    requires
        minutes_strict(s),
        0 <= i < j < s.len(),
    ensures
        s[i].minute < s[j].minute,
    decreases j - i,
{
    if j == i + 1 {
    } else {
        lemma_minutes_strict_upto(s, i, j - 1);
    }
}

/// Adjacent non-decrease implies the pairwise order.
pub proof fn lemma_minutes_nondec_pairwise(s: Seq<PPoint>)
    requires
        minutes_nondec(s),
    ensures
        forall|i: int, j: int|
            0 <= i <= j < s.len() ==> #[trigger] s[i].minute <= #[trigger] s[j].minute,
{
    assert forall|i: int, j: int| 0 <= i <= j < s.len() implies #[trigger] s[i].minute
        <= #[trigger] s[j].minute by {
        lemma_minutes_nondec_upto(s, i, j);
    }
}

proof fn lemma_minutes_nondec_upto(s: Seq<PPoint>, i: int, j: int)
    requires
        minutes_nondec(s),
        0 <= i <= j < s.len(),
    ensures
        s[i].minute <= s[j].minute,
    decreases j - i,
{
    if i < j {
        lemma_minutes_nondec_upto(s, i, j - 1);
    }
}

/// The product of two positive integers is positive.
pub proof fn lemma_pos_mul(a: int, b: int)
    by (nonlinear_arith)
    requires
        a > 0,
        b > 0,
    ensures
        a * b > 0,
{
}

} // verus!
