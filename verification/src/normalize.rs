//! The normalizer: rescales both axes of the sequence to the unit
//! interval — x by the last minute of day, the value by the maximum
//! value over the whole input (with a floor of zero). When that
//! maximum is not strictly positive, the values pass through
//! unchanged; when the last minute is zero, every x becomes zero.

use vstd::prelude::*;
use crate::model::{
    lemma_minutes_nondec_pairwise, lemma_pos_mul, minutes_nondec, pt_valid, pts_valid, pv_bounded,
    q_bounded, q_div, q_eq, q_le, q_lt, q_max, q_nonneg, q_one, q_pos, q_valid, q_zero, PPoint, Q,
};
use crate::point::{pts, PlotData};
use crate::rat::Rat;

verus! {

/// Numerator magnitude admitted by the normalizer (2^96).
pub const NZ_NUM_BOUND: i128 = 0x1000_0000_0000_0000_0000_0000;

/// Denominator magnitude admitted by the normalizer (2^30).
pub const NZ_DEN_BOUND: i128 = 0x4000_0000;

/// The maximum value over the sequence, floored at zero.
pub open spec fn max_pv(s: Seq<PPoint>) -> Q
    decreases s.len(),
{
    if s.len() == 0 {
        q_zero()
    } else {
        q_max(max_pv(s.drop_last()), s.last().pv)
    }
}

/// The normalized x coordinate: the minute over the last minute, or
/// zero when the sequence ends at minute zero.
pub open spec fn norm_x(minute: int, endm: int) -> Q {
    if endm > 0 {
        Q { n: minute, d: endm }
    } else {
        q_zero()
    }
}

/// The normalized sequence.
pub open spec fn normalize_model(s: Seq<PPoint>) -> Seq<PPoint> {
    let endm = s[s.len() - 1].minute;
    let mx = max_pv(s);
    Seq::new(
        s.len(),
        |i: int|
            PPoint {
                minute: s[i].minute,
                x: norm_x(s[i].minute, endm),
                pv: if q_pos(mx) {
                    q_div(s[i].pv, mx)
                } else {
                    s[i].pv
                },
            },
    )
}

/// Products of values admitted by the normalizer stay inside `i128`.
proof fn lemma_nz_mul_fits(n1: int, d1: int, n2: int, d2: int)
    by (nonlinear_arith)
    requires
        -0x1000_0000_0000_0000_0000_0000 <= n1 <= 0x1000_0000_0000_0000_0000_0000,
        -0x1000_0000_0000_0000_0000_0000 <= n2 <= 0x1000_0000_0000_0000_0000_0000,
        0 < d1 <= 0x4000_0000,
        0 < d2 <= 0x4000_0000,
    ensures
        -0x4000_0000_0000_0000_0000_0000_0000_0000 <= n1 * d2
            <= 0x4000_0000_0000_0000_0000_0000_0000_0000,
        -0x4000_0000_0000_0000_0000_0000_0000_0000 <= n2 * d1
            <= 0x4000_0000_0000_0000_0000_0000_0000_0000,
        -0x4000_0000_0000_0000_0000_0000_0000_0000 <= d1 * n2
            <= 0x4000_0000_0000_0000_0000_0000_0000_0000,
        0 < d1 * d2 <= 0x4000_0000_0000_0000_0000_0000_0000_0000,
{
}

/// If `x * y > 0` and `y > 0` then `x > 0`.
proof fn lemma_pos_factor(x: int, y: int)
    by (nonlinear_arith)
    requires
        x * y > 0,
        y > 0,
    ensures
        x > 0,
{
}

/// Transitivity of the rational order (denominators positive).
proof fn lemma_q_le_trans(a: Q, b: Q, c: Q)
    requires
        q_valid(a),
        q_valid(b),
        q_valid(c),
        q_le(a, b),
        q_le(b, c),
    ensures
        q_le(a, c),
{
    lemma_q_le_trans_ints(a.n, a.d, b.n, b.d, c.n, c.d);
}

proof fn lemma_q_le_trans_ints(n1: int, d1: int, n2: int, d2: int, n3: int, d3: int)
    by (nonlinear_arith)
    requires
        d1 > 0,
        d2 > 0,
        d3 > 0,
        n1 * d2 <= n2 * d1,
        n2 * d3 <= n3 * d2,
    ensures
        n1 * d3 <= n3 * d1,
{
}

/// The maximum is bounded whenever the values are.
pub proof fn lemma_max_pv_bounded(s: Seq<PPoint>, bn: int, bd: int)
    requires
        pv_bounded(s, bn, bd),
        bn >= 0,
        bd >= 1,
    ensures
        q_bounded(max_pv(s), bn, bd),
        q_valid(max_pv(s)),
        q_nonneg(max_pv(s)),
    decreases s.len(),
{
    if s.len() > 0 {
        let s1 = s.drop_last();
        assert forall|i: int| 0 <= i < s1.len() implies q_bounded((#[trigger] s1[i]).pv, bn, bd) by {
            assert(s1[i] == s[i]);
        }
        lemma_max_pv_bounded(s1, bn, bd);
        let m1 = max_pv(s1);
        let p = s.last().pv;
        if q_lt(m1, p) {
            lemma_pos_factor(p.n, m1.d);
        }
    }
}

/// The maximum dominates every value in the sequence.
pub proof fn lemma_max_pv_ge(s: Seq<PPoint>, i: int)
    requires
        pts_valid(s),
        0 <= i < s.len(),
    ensures
        q_valid(max_pv(s)),
        q_le(s[i].pv, max_pv(s)),
    decreases s.len(),
{
    let s1 = s.drop_last();
    if s.len() == 1 {
        lemma_max_pv_trivia(s);
    } else {
        assert forall|k: int| 0 <= k < s1.len() implies pt_valid(#[trigger] s1[k]) by {
            assert(s1[k] == s[k]);
        }
        lemma_max_pv_trivia(s);
        if i == s.len() - 1 {
            lemma_max_pv_ge(s1, 0);
            if q_lt(max_pv(s1), s.last().pv) {
            } else {
            }
        } else {
            lemma_max_pv_ge(s1, i);
            if q_lt(max_pv(s1), s.last().pv) {
                lemma_q_le_trans(s[i].pv, max_pv(s1), s.last().pv);
            }
        }
    }
}

/// The maximum of a non-empty well-formed sequence is well formed.
proof fn lemma_max_pv_trivia(s: Seq<PPoint>)
    requires
        pts_valid(s),
    ensures
        q_valid(max_pv(s)),
        q_nonneg(max_pv(s)),
    decreases s.len(),
{
    if s.len() > 0 {
        let s1 = s.drop_last();
        assert forall|k: int| 0 <= k < s1.len() implies pt_valid(#[trigger] s1[k]) by {
            assert(s1[k] == s[k]);
        }
        lemma_max_pv_trivia(s1);
        let m1 = max_pv(s1);
        let p = s.last().pv;
        if q_lt(m1, p) {
            lemma_pos_factor(p.n, m1.d);
        }
    }
}

/// Rescale both axes to the unit interval.
///
/// Every output x lies in `[0, 1]`; the last x is exactly one when the
/// last minute is positive. When the maximum input value is positive,
/// every value is divided by it, so the points carrying the maximum
/// map to exactly one; otherwise the values pass through unchanged.
#[verifier::rlimit(60)]
pub fn normalize(input: Vec<PlotData>) -> (out: Vec<PlotData>)
    requires
        input@.len() >= 1,
        pts_valid(pts(input@)),
        minutes_nondec(pts(input@)),
        pv_bounded(pts(input@), NZ_NUM_BOUND as int, NZ_DEN_BOUND as int),
    ensures
        out@.len() == input@.len(),
        pts(out@) == normalize_model(pts(input@)),
        pts_valid(pts(out@)),
        forall|i: int|
            0 <= i < out@.len() ==> q_nonneg((#[trigger] pts(out@)[i]).x) && q_le(
                pts(out@)[i].x,
                q_one(),
            ),
        pts(input@)[input@.len() - 1].minute > 0 ==> q_eq(pts(out@)[out@.len() - 1].x, q_one()),
        forall|i: int|
            0 <= i < out@.len() && q_pos(max_pv(pts(input@))) && q_eq(
                (#[trigger] pts(input@)[i]).pv,
                max_pv(pts(input@)),
            ) ==> q_eq(pts(out@)[i].pv, q_one()),
        forall|i: int|
            0 <= i < out@.len() && q_pos(max_pv(pts(input@))) ==> q_le(
                (#[trigger] pts(out@)[i]).pv,
                q_one(),
            ),
        (forall|i: int| 0 <= i < input@.len() ==> q_nonneg((#[trigger] pts(input@)[i]).pv))
            ==> forall|i: int| 0 <= i < out@.len() ==> q_nonneg((#[trigger] pts(out@)[i]).pv),
{
    let ghost mi = pts(input@);
    let n = input.len();
    let endm = input[n - 1].minutes;
    proof {
        lemma_minutes_nondec_pairwise(mi);
        lemma_max_pv_bounded(mi, NZ_NUM_BOUND as int, NZ_DEN_BOUND as int);
    }
    let mut maxr = Rat::zero();
    proof {
        assert(mi.subrange(0, 0) =~= Seq::<PPoint>::empty());
    }
    let mut i: usize = 0;
    while i < n
        invariant
            n == input@.len(),
            mi == pts(input@),
            pts_valid(mi),
            pv_bounded(mi, NZ_NUM_BOUND as int, NZ_DEN_BOUND as int),
            0 <= i <= n,
            maxr@ == max_pv(mi.subrange(0, i as int)),
            maxr.wf(),
            q_bounded(maxr@, NZ_NUM_BOUND as int, NZ_DEN_BOUND as int),
        decreases n - i,
    {
        let pv = input[i].pv;
        proof {
            let cur = mi.subrange(0, i + 1);
            assert(cur.drop_last() =~= mi.subrange(0, i as int));
            assert(cur.last() == mi[i as int]);
            assert(q_bounded(mi[i as int].pv, NZ_NUM_BOUND as int, NZ_DEN_BOUND as int));
            lemma_nz_mul_fits(maxr@.n, maxr@.d, pv@.n, pv@.d);
        }
        if maxr.lt(pv) {
            maxr = pv;
        }
        i += 1;
    }
    proof {
        assert(mi.subrange(0, n as int) =~= mi);
    }
    let pos = maxr.is_pos();
    let mut out: Vec<PlotData> = Vec::new();
    let mut j: usize = 0;
    while j < n
        invariant
            n == input@.len(),
            1 <= n,
            mi == pts(input@),
            pts_valid(mi),
            pv_bounded(mi, NZ_NUM_BOUND as int, NZ_DEN_BOUND as int),
            endm == mi[n - 1].minute,
            maxr@ == max_pv(mi),
            maxr.wf(),
            q_bounded(maxr@, NZ_NUM_BOUND as int, NZ_DEN_BOUND as int),
            pos == q_pos(max_pv(mi)),
            0 <= j <= n,
            out@.len() == j,
            forall|a: int| 0 <= a < j ==> #[trigger] pts(out@)[a] == normalize_model(mi)[a],
        decreases n - j,
    {
        let p = input[j];
        proof {
            assert(pt_valid(mi[j as int]));
            assert(q_bounded(mi[j as int].pv, NZ_NUM_BOUND as int, NZ_DEN_BOUND as int));
            lemma_nz_mul_fits(p.pv@.n, p.pv@.d, maxr@.n, maxr@.d);
            if pos {
                lemma_pos_mul(p.pv@.d, maxr@.n);
            }
        }
        let x = if endm > 0 {
            Rat::new(p.minutes as i128, endm as i128)
        } else {
            Rat::zero()
        };
        let newpv = if pos {
            p.pv.div(maxr)
        } else {
            p.pv
        };
        let ghost oprev = pts(out@);
        out.push(PlotData { minutes: p.minutes, x, pv: newpv });
        proof {
            assert forall|a: int| 0 <= a < j + 1 implies #[trigger] pts(out@)[a]
                == normalize_model(mi)[a] by {
                if a < j {
                    assert(pts(out@)[a] == oprev[a]);
                } else {
                    assert(pts(out@)[a] == normalize_model(mi)[a]);
                }
            }
        }
        j += 1;
    }
    proof {
        assert(pts(out@) =~= normalize_model(mi));
        assert forall|a: int| 0 <= a < out@.len() implies pt_valid(#[trigger] pts(out@)[a])
            && q_nonneg(pts(out@)[a].x) && q_le(pts(out@)[a].x, q_one()) by {
            assert(pts(out@)[a] == normalize_model(mi)[a]);
            assert(pt_valid(mi[a]));
            assert(mi[a].minute <= mi[n - 1].minute);
            if q_pos(max_pv(mi)) {
                lemma_pos_mul(mi[a].pv.d, max_pv(mi).n);
            }
        }
        if mi[n - 1].minute > 0 {
            assert(q_eq(pts(out@)[n - 1].x, q_one()));
        }
        assert forall|a: int|
            0 <= a < out@.len() && q_pos(max_pv(mi)) && q_eq(
                (#[trigger] pts(input@)[a]).pv,
                max_pv(mi),
            ) implies q_eq(pts(out@)[a].pv, q_one()) by {
            let mx = max_pv(mi);
            let p = mi[a].pv;
            assert(pts(out@)[a].pv == q_div(p, mx));
            vstd::arithmetic::mul::lemma_mul_is_commutative(p.d, mx.n);
        }
        assert forall|a: int| 0 <= a < out@.len() && q_pos(max_pv(mi)) implies q_le(
            (#[trigger] pts(out@)[a]).pv,
            q_one(),
        ) by {
            let mx = max_pv(mi);
            let p = mi[a].pv;
            lemma_max_pv_ge(mi, a);
            assert(pts(out@)[a].pv == q_div(p, mx));
            vstd::arithmetic::mul::lemma_mul_is_commutative(p.d, mx.n);
        }
        if forall|a: int| 0 <= a < input@.len() ==> q_nonneg((#[trigger] pts(input@)[a]).pv) {
            assert forall|a: int| 0 <= a < out@.len() implies q_nonneg(
                (#[trigger] pts(out@)[a]).pv,
            ) by {
                assert(q_nonneg(mi[a].pv));
                if q_pos(max_pv(mi)) {
                    vstd::arithmetic::mul::lemma_mul_nonnegative(mi[a].pv.n, max_pv(mi).d);
                }
            }
        }
    }
    out
}

} // verus!
