//! The smoother: one round of a 3-tap box filter over the sequence.
//! First and last points pass through unchanged; every interior point's
//! `pv` becomes the exact mean of itself and its two neighbours'
//! pre-smoothing values.

use vstd::prelude::*;
use crate::model::{pts_valid, pv_bounded, q_add, q_bounded, q_div_int, PPoint};
use crate::point::{pts, PlotData};

verus! {

/// Numerator magnitude admitted by the smoother (2^80).
pub const SM_NUM_BOUND: i128 = 0x1_0000_0000_0000_0000_0000;

/// Denominator magnitude admitted by the smoother (2^20).
pub const SM_DEN_BOUND: i128 = 0x10_0000;

/// The smoothed sequence: endpoints unchanged, each interior `pv`
/// replaced by the mean of the three surrounding input values.
pub open spec fn smooth_model(s: Seq<PPoint>) -> Seq<PPoint> {
    Seq::new(
        s.len(),
        |i: int|
            if 0 < i < s.len() - 1 {
                PPoint {
                    minute: s[i].minute,
                    x: s[i].x,
                    pv: q_div_int(q_add(q_add(s[i - 1].pv, s[i].pv), s[i + 1].pv), 3),
                }
            } else {
                s[i]
            },
    )
}

/// Range facts for the mean of three rationals bounded by the
/// smoother's admitted magnitudes: every intermediate product stays
/// far inside `i128`.
proof fn lemma_mean3_fits(na: int, da: int, nb: int, db: int, nc: int, dc: int)
    by (nonlinear_arith)
    requires
        -0x1_0000_0000_0000_0000_0000 <= na <= 0x1_0000_0000_0000_0000_0000,
        -0x1_0000_0000_0000_0000_0000 <= nb <= 0x1_0000_0000_0000_0000_0000,
        -0x1_0000_0000_0000_0000_0000 <= nc <= 0x1_0000_0000_0000_0000_0000,
        0 < da <= 0x10_0000,
        0 < db <= 0x10_0000,
        0 < dc <= 0x10_0000,
    ensures
        -0x1_0000_0000_0000_0000_0000_0000_0000 <= na * db
            <= 0x1_0000_0000_0000_0000_0000_0000_0000,
        -0x1_0000_0000_0000_0000_0000_0000_0000 <= nb * da
            <= 0x1_0000_0000_0000_0000_0000_0000_0000,
        -0x2_0000_0000_0000_0000_0000_0000_0000 <= na * db + nb * da
            <= 0x2_0000_0000_0000_0000_0000_0000_0000,
        0 < da * db <= 0x100_0000_0000,
        -0x200_0000_0000_0000_0000_0000_0000_0000 <= (na * db + nb * da) * dc
            <= 0x200_0000_0000_0000_0000_0000_0000_0000,
        -0x100_0000_0000_0000_0000_0000 * 0x100_0000_0000
            <= nc * (da * db) <= 0x100_0000_0000_0000_0000_0000 * 0x100_0000_0000,
        -0x400_0000_0000_0000_0000_0000_0000_0000 <= (na * db + nb * da) * dc + nc * (da * db)
            <= 0x400_0000_0000_0000_0000_0000_0000_0000,
        0 < (da * db) * dc <= 0x1000_0000_0000_0000,
{
}

/// Symbolic form of the same bounds, for chaining stages: the mean of
/// three values bounded by `(bn, bd)` is bounded by
/// `(3*bn*bd*bd, 3*bd*bd*bd)`.
proof fn lemma_mean3_bound(na: int, da: int, nb: int, db: int, nc: int, dc: int, bn: int, bd: int)
    by (nonlinear_arith)
    requires
        -bn <= na <= bn,
        -bn <= nb <= bn,
        -bn <= nc <= bn,
        0 < da <= bd,
        0 < db <= bd,
        0 < dc <= bd,
    ensures
        -(3 * bn * bd * bd) <= (na * db + nb * da) * dc + nc * (da * db) <= 3 * bn * bd * bd,
        0 < ((da * db) * dc) * 3 <= 3 * bd * bd * bd,
{
}

/// A value bounded by `(bn, bd)` is also bounded by the widened pair
/// `(3*bn*bd*bd, 3*bd*bd*bd)`.
proof fn lemma_bound_widen(n: int, d: int, bn: int, bd: int)
    by (nonlinear_arith)
    requires
        -bn <= n <= bn,
        0 < d <= bd,
    ensures
        -(3 * bn * bd * bd) <= n <= 3 * bn * bd * bd,
        0 < d <= 3 * bd * bd * bd,
{
}

/// Smoothing keeps every point well formed and bounds the new values
/// from the bounds of the old ones.
pub proof fn lemma_smooth_model_bounds(s: Seq<PPoint>, bn: int, bd: int)
    requires
        pts_valid(s),
        pv_bounded(s, bn, bd),
    ensures
        pts_valid(smooth_model(s)),
        pv_bounded(smooth_model(s), 3 * bn * bd * bd, 3 * bd * bd * bd),
{
    let r = smooth_model(s);
    assert forall|i: int| 0 <= i < r.len() implies crate::model::pt_valid(#[trigger] r[i])
        && q_bounded(r[i].pv, 3 * bn * bd * bd, 3 * bd * bd * bd) by {
        assert(crate::model::pt_valid(s[i]));
        assert(q_bounded(s[i].pv, bn, bd));
        if 0 < i < s.len() - 1 {
            let a = s[i - 1].pv;
            let b = s[i].pv;
            let c = s[i + 1].pv;
            lemma_mean3_bound(a.n, a.d, b.n, b.d, c.n, c.d, bn, bd);
        } else {
            lemma_bound_widen(s[i].pv.n, s[i].pv.d, bn, bd);
        }
    }
}

/// One round of box smoothing. The input must hold at least three
/// points: a shorter sequence has no interior to smooth and is
/// refused by precondition.
///
/// The bounds in the precondition are what keeps the exact rational
/// arithmetic inside `i128`; they admit every value the pipeline ever
/// produces with room to spare.
pub fn smooth(input: Vec<PlotData>) -> (out: Vec<PlotData>)
    requires
        input@.len() >= 3,
        pts_valid(pts(input@)),
        pv_bounded(pts(input@), SM_NUM_BOUND as int, SM_DEN_BOUND as int),
    ensures
        out@.len() == input@.len(),
        out@[0] == input@[0],
        out@[input@.len() - 1] == input@[input@.len() - 1],
        pts(out@) == smooth_model(pts(input@)),
        pts_valid(pts(out@)),
{
    let ghost mi = pts(input@);
    let n = input.len();
    let mut out: Vec<PlotData> = Vec::new();
    out.push(input[0]);
    let mut i: usize = 1;
    while i < n - 1
        invariant
            n == input@.len(),
            3 <= n,
            pts_valid(mi),
            pv_bounded(mi, SM_NUM_BOUND as int, SM_DEN_BOUND as int),
            mi == pts(input@),
            1 <= i <= n - 1,
            out@.len() == i,
            out@[0] == input@[0],
            forall|j: int|
                1 <= j < i ==> (#[trigger] out@[j]).minutes == input@[j].minutes
                    && out@[j].x == input@[j].x
                    && out@[j].pv@ == q_div_int(
                    q_add(q_add(mi[j - 1].pv, mi[j].pv), mi[j + 1].pv),
                    3,
                ) && out@[j].pv.wf(),
        decreases n - i,
    {
        let a = input[i - 1].pv;
        let b = input[i].pv;
        let c = input[i + 1].pv;
        proof {
            assert(q_bounded(mi[i - 1].pv, SM_NUM_BOUND as int, SM_DEN_BOUND as int));
            assert(q_bounded(mi[i as int].pv, SM_NUM_BOUND as int, SM_DEN_BOUND as int));
            assert(q_bounded(mi[i + 1].pv, SM_NUM_BOUND as int, SM_DEN_BOUND as int));
            lemma_mean3_fits(a@.n, a@.d, b@.n, b@.d, c@.n, c@.d);
        }
        let s1 = a.add(b);
        let s2 = s1.add(c);
        let pv = s2.div_int(3);
        out.push(PlotData { minutes: input[i].minutes, x: input[i].x, pv });
        i += 1;
    }
    out.push(input[n - 1]);
    proof {
        assert(pts(out@) =~= smooth_model(mi));
        assert forall|j: int| 0 <= j < out@.len() implies crate::model::pt_valid(
            #[trigger] pts(out@)[j],
        ) by {
            if 0 < j < out@.len() - 1 {
                assert(crate::model::pt_valid(mi[j]));
            } else {
                assert(pts(out@)[j] == mi[j]);
            }
        }
    }
    out
}

} // verus!
