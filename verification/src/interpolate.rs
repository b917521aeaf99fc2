//! The interpolator: walks the stretched, gap-containing sequence and
//! fills every missing integer minute with a point on the straight
//! line through the two bracketing known points. Input points are
//! passed through unchanged; a pair of points sharing a minute gets no
//! synthesis and both points are kept.

use vstd::prelude::*;
use crate::model::{
    minutes_nondec, minutes_strict, pt_valid, pts_valid, pv_bounded, q_add, q_bounded, q_div_int,
    q_eq, q_mul_int, q_sub, q_valid, PPoint, Q,
};
use crate::point::{pts, PlotData};
use crate::rat::Rat;

verus! {

/// Numerator magnitude admitted by the interpolator (2^80).
pub const IP_NUM_BOUND: i128 = 0x1_0000_0000_0000_0000_0000;

/// Denominator magnitude admitted by the interpolator (2^20).
pub const IP_DEN_BOUND: i128 = 0x10_0000;

/// How many minutes are strictly between two points.
pub open spec fn gap(a: PPoint, b: PPoint) -> int {
    if b.minute > a.minute + 1 {
        b.minute - a.minute - 1
    } else {
        0
    }
}

/// The value of the line through `a` and `b` at minute `t`, as one
/// exact fraction.
pub open spec fn synth_pv(a: PPoint, b: PPoint, t: int) -> Q {
    Q {
        n: (a.pv.n * b.pv.d) * (b.minute - t) + (b.pv.n * a.pv.d) * (t - a.minute),
        d: (a.pv.d * b.pv.d) * (b.minute - a.minute),
    }
}

/// A synthesized point at minute `t` between `a` and `b`.
pub open spec fn synth_pt(a: PPoint, b: PPoint, t: int) -> PPoint {
    PPoint { minute: t, x: Q { n: t, d: 60 }, pv: synth_pv(a, b, t) }
}

/// What one consecutive input pair contributes: the left point, then
/// one synthesized point for every minute strictly between the two.
pub open spec fn seg(a: PPoint, b: PPoint) -> Seq<PPoint> {
    seq![a] + Seq::new(gap(a, b) as nat, |k: int| synth_pt(a, b, a.minute + 1 + k))
}

/// The interpolated sequence: every consecutive pair contributes its
/// segment, and the last input point closes the sequence.
pub open spec fn interp_model(s: Seq<PPoint>) -> Seq<PPoint>
    decreases s.len(),
{
    if s.len() <= 1 {
        s
    } else {
        seg(s[0], s[1]) + interp_model(s.drop_first())
    }
}

/// Every product computed while synthesizing a point stays far inside
/// `i128`, under the interpolator's admitted magnitudes.
proof fn lemma_synth_fits(na: int, da: int, nb: int, db: int, t1: int, t2: int, t: int)
    by (nonlinear_arith)
    requires
        -0x1_0000_0000_0000_0000_0000 <= na <= 0x1_0000_0000_0000_0000_0000,
        -0x1_0000_0000_0000_0000_0000 <= nb <= 0x1_0000_0000_0000_0000_0000,
        0 < da <= 0x10_0000,
        0 < db <= 0x10_0000,
        0 <= t1 < t < t2 <= 1439,
    ensures
        -0x1000_0000_0000_0000_0000_0000_0000 <= na * db <= 0x1000_0000_0000_0000_0000_0000_0000,
        -0x1000_0000_0000_0000_0000_0000_0000 <= nb * da <= 0x1000_0000_0000_0000_0000_0000_0000,
        -0x8000_0000_0000_0000_0000_0000_0000_00 <= (na * db) * (t2 - t)
            <= 0x8000_0000_0000_0000_0000_0000_0000_00,
        -0x8000_0000_0000_0000_0000_0000_0000_00 <= (nb * da) * (t - t1)
            <= 0x8000_0000_0000_0000_0000_0000_0000_00,
        -0x1_0000_0000_0000_0000_0000_0000_0000_00 <= (na * db) * (t2 - t) + (nb * da) * (t - t1)
            <= 0x1_0000_0000_0000_0000_0000_0000_0000_00,
        0 < da * db <= 0x100_0000_0000,
        0 < (da * db) * (t2 - t1) <= 0x8_0000_0000_0000,
{
}

/// Symbolic bound for a synthesized value: between points bounded by
/// `(bn, bd)` it is bounded by `(2878*bn*bd, 1439*bd*bd)`.
proof fn lemma_synth_bound(na: int, da: int, nb: int, db: int, t1: int, t2: int, t: int, bn: int, bd: int)
    by (nonlinear_arith)
    requires
        -bn <= na <= bn,
        -bn <= nb <= bn,
        0 < da <= bd,
        0 < db <= bd,
        0 <= t1 < t < t2 <= 1439,
    ensures
        -(2878 * bn * bd) <= (na * db) * (t2 - t) + (nb * da) * (t - t1) <= 2878 * bn * bd,
        0 < (da * db) * (t2 - t1) <= 1439 * bd * bd,
{
}

/// A value bounded by `(bn, bd)` is also bounded by the widened pair
/// `(2878*bn*bd, 1439*bd*bd)`.
proof fn lemma_interp_widen(n: int, d: int, bn: int, bd: int)
    by (nonlinear_arith)
    requires
        -bn <= n <= bn,
        0 < d <= bd,
    ensures
        -(2878 * bn * bd) <= n <= 2878 * bn * bd,
        0 < d <= 1439 * bd * bd,
{
}

/// Interpolation keeps every point well formed and bounds the
/// synthesized values from the bounds of the input values.
pub proof fn lemma_interp_model_bounds(s: Seq<PPoint>, bn: int, bd: int)
    requires
        pts_valid(s),
        minutes_nondec(s),
        pv_bounded(s, bn, bd),
    ensures
        pts_valid(interp_model(s)),
        pv_bounded(interp_model(s), 2878 * bn * bd, 1439 * bd * bd),
    decreases s.len(),
{
    if s.len() <= 1 {
        assert forall|i: int| 0 <= i < interp_model(s).len() implies pt_valid(
            #[trigger] interp_model(s)[i],
        ) && q_bounded(interp_model(s)[i].pv, 2878 * bn * bd, 1439 * bd * bd) by {
            lemma_interp_widen(s[i].pv.n, s[i].pv.d, bn, bd);
        }
    } else {
        let s1 = s.drop_first();
        assert forall|i: int| 0 <= i < s1.len() implies pt_valid(#[trigger] s1[i]) && q_bounded(
            s1[i].pv,
            bn,
            bd,
        ) by {
            assert(s1[i] == s[i + 1]);
        }
        lemma_interp_model_bounds(s1, bn, bd);
        let sg = seg(s[0], s[1]);
        let r = interp_model(s);
        assert forall|i: int| 0 <= i < r.len() implies pt_valid(#[trigger] r[i]) && q_bounded(
            r[i].pv,
            2878 * bn * bd,
            1439 * bd * bd,
        ) by {
            if i < sg.len() {
                assert(r[i] == sg[i]);
                if i == 0 {
                    lemma_interp_widen(s[0].pv.n, s[0].pv.d, bn, bd);
                } else {
                    let a = s[0];
                    let b = s[1];
                    let t = a.minute + 1 + (i - 1);
                    assert(sg[i] == synth_pt(a, b, t));
                    lemma_synth_bound(
                        a.pv.n,
                        a.pv.d,
                        b.pv.n,
                        b.pv.d,
                        a.minute,
                        b.minute,
                        t,
                        bn,
                        bd,
                    );
                }
            } else {
                assert(r[i] == interp_model(s1)[i - sg.len()]);
            }
        }
    }
}

/// Running the interpolator over an already-dense sequence (every
/// adjacent pair of minutes differing by exactly one) returns the
/// input unchanged.
pub proof fn lemma_interp_idempotent(s: Seq<PPoint>)
    requires
        s.len() >= 1,
        forall|i: int| 0 <= i < s.len() - 1 ==> (#[trigger] s[i]).minute + 1 == s[i + 1].minute,
    ensures
        interp_model(s) == s,
    decreases s.len(),
{
    if s.len() > 1 {
        let s1 = s.drop_first();
        assert forall|i: int| 0 <= i < s1.len() - 1 implies (#[trigger] s1[i]).minute + 1 == s1[i
            + 1].minute by {
            assert(s1[i] == s[i + 1]);
            assert(s1[i + 1] == s[i + 2]);
        }
        lemma_interp_idempotent(s1);
        assert(gap(s[0], s[1]) == 0);
        assert(seg(s[0], s[1]) =~= seq![s[0]]);
        assert(interp_model(s) =~= s);
    }
}

/// Over a strictly increasing input the interpolated sequence is
/// dense: it holds one point for every integer minute from the first
/// input minute to the last, in order.
pub proof fn lemma_interp_dense(s: Seq<PPoint>)
    requires
        s.len() >= 1,
        minutes_strict(s),
    ensures
        interp_model(s).len() == s[s.len() - 1].minute - s[0].minute + 1,
        forall|j: int|
            0 <= j < interp_model(s).len() ==> (#[trigger] interp_model(s)[j]).minute == s[0].minute
                + j,
    decreases s.len(),
{
    if s.len() == 1 {
    } else {
        let s1 = s.drop_first();
        assert forall|i: int| 0 <= i < s1.len() - 1 implies (#[trigger] s1[i]).minute < s1[i
            + 1].minute by {
            assert(s1[i] == s[i + 1]);
            assert(s1[i + 1] == s[i + 2]);
        }
        lemma_interp_dense(s1);
        let sg = seg(s[0], s[1]);
        let rest = interp_model(s1);
        let r = interp_model(s);
        assert(s[0].minute < s[1].minute);
        assert(sg.len() == s[1].minute - s[0].minute);
        assert(s1[0] == s[1]);
        assert(s1[s1.len() - 1] == s[s.len() - 1]);
        assert(r.len() == sg.len() + rest.len());
        assert forall|j: int| 0 <= j < r.len() implies (#[trigger] r[j]).minute == s[0].minute
            + j by {
            if j < sg.len() {
                assert(r[j] == sg[j]);
                if j > 0 {
                    assert(sg[j] == synth_pt(s[0], s[1], s[0].minute + 1 + (j - 1)));
                }
            } else {
                assert(r[j] == rest[j - sg.len()]);
                assert(rest[j - sg.len()].minute == s1[0].minute + (j - sg.len()));
            }
        }
    }
}

/// A synthesized value is exactly the linear interpolation formula
/// `v1 + (v2 - v1) * (t - t1) / (t2 - t1)` between its bracketing
/// points, as rational values.
pub proof fn lemma_synth_linear(a: PPoint, b: PPoint, t: int)
    requires
        q_valid(a.pv),
        q_valid(b.pv),
        a.minute < b.minute,
    ensures
        q_eq(
            synth_pv(a, b, t),
            q_add(a.pv, q_div_int(q_mul_int(q_sub(b.pv, a.pv), t - a.minute), b.minute - a.minute)),
        ),
{
    let na = a.pv.n;
    let da = a.pv.d;
    let nb = b.pv.n;
    let db = b.pv.d;
    let t1 = a.minute;
    let t2 = b.minute;
    let aa = (na * db) * (t2 - t) + (nb * da) * (t - t1);
    let ff = (db * da) * (t2 - t1);
    let gg = (da * db) * (t2 - t1);
    lemma_rn_collapse(na, da, nb, db, t - t1, t2 - t);
    assert(t2 - t1 == (t - t1) + (t2 - t));
    lemma_mul_comm(db, da);
    assert(ff == gg);
    lemma_mul_shuffle(aa, da, ff);
    assert(aa * (da * ff) == (na * ff + ((nb * da - na * db) * (t - t1)) * da) * gg);
}

proof fn lemma_mul_comm(x: int, y: int)
    by (nonlinear_arith)
    ensures
        x * y == y * x,
{
}

proof fn lemma_mul_shuffle(x: int, y: int, z: int)
    by (nonlinear_arith)
    ensures
        x * (y * z) == (y * x) * z,
{
}

proof fn lemma_ac_left(na: int, db: int, da: int, u: int)
    by (nonlinear_arith)
    ensures
        na * ((db * da) * u) == ((na * db) * u) * da,
{
}

proof fn lemma_ac_right(na: int, db: int, da: int, v: int)
    by (nonlinear_arith)
    ensures
        na * ((db * da) * v) == da * ((na * db) * v),
{
}

/// Collapsing the linear-interpolation numerator: distributing the
/// left denominator through the formula gives the single-fraction
/// numerator (`u` is the distance from the left point, `v` the
/// distance to the right point).
proof fn lemma_rn_collapse(na: int, da: int, nb: int, db: int, u: int, v: int)
    ensures
        na * ((db * da) * (u + v)) + ((nb * da - na * db) * u) * da == da * ((na * db) * v + (nb
            * da) * u),
{
    let m = db * da;
    vstd::arithmetic::mul::lemma_mul_is_distributive_add(m, u, v);
    vstd::arithmetic::mul::lemma_mul_is_distributive_add(na, m * u, m * v);
    vstd::arithmetic::mul::lemma_mul_is_distributive_sub_other_way(u, nb * da, na * db);
    vstd::arithmetic::mul::lemma_mul_is_distributive_sub_other_way(
        da,
        (nb * da) * u,
        (na * db) * u,
    );
    lemma_ac_left(na, db, da, u);
    lemma_ac_right(na, db, da, v);
    vstd::arithmetic::mul::lemma_mul_is_commutative((nb * da) * u, da);
    vstd::arithmetic::mul::lemma_mul_is_distributive_add(da, (na * db) * v, (nb * da) * u);
}

/// Fill every missing integer minute between consecutive input points
/// with a linearly interpolated value.
///
/// Input points pass through unchanged. When two consecutive input
/// points share a minute (tolerated here, although this crate's
/// stretcher provably never produces one), no synthesis happens
/// for that pair and both points are kept. Over a strictly increasing
/// input the output is dense: one point per minute from the first to
/// the last input minute.
#[verifier::rlimit(60)]
pub fn interpolate(input: Vec<PlotData>) -> (out: Vec<PlotData>)
    requires
        input@.len() >= 1,
        pts_valid(pts(input@)),
        minutes_nondec(pts(input@)),
        pv_bounded(pts(input@), IP_NUM_BOUND as int, IP_DEN_BOUND as int),
    ensures
        pts(out@) == interp_model(pts(input@)),
        pts_valid(pts(out@)),
        out@.len() >= 1,
        out@[out@.len() - 1] == input@[input@.len() - 1],
        minutes_strict(pts(input@)) ==> out@.len() == pts(input@)[input@.len() - 1].minute - pts(
            input@,
        )[0].minute + 1,
        minutes_strict(pts(input@)) ==> forall|j: int|
            0 <= j < out@.len() ==> (#[trigger] pts(out@)[j]).minute == pts(input@)[0].minute + j,
        (forall|i: int|
            0 <= i < input@.len() - 1 ==> (#[trigger] pts(input@)[i]).minute + 1 == pts(input@)[i
                + 1].minute) ==> out@ == input@,
{
    let ghost mi = pts(input@);
    let n = input.len();
    let mut out: Vec<PlotData> = Vec::new();
    proof {
        assert(mi.skip(0) =~= mi);
        assert(pts(out@) =~= Seq::<PPoint>::empty());
        assert(pts(out@) + interp_model(mi.skip(0)) =~= interp_model(mi));
    }
    let mut i: usize = 1;
    while i < n
        invariant
            n == input@.len(),
            1 <= n,
            mi == pts(input@),
            pts_valid(mi),
            minutes_nondec(mi),
            pv_bounded(mi, IP_NUM_BOUND as int, IP_DEN_BOUND as int),
            1 <= i <= n,
            interp_model(mi) == pts(out@) + interp_model(mi.skip(i - 1)),
        decreases n - i,
    {
        let ghost a = mi[i - 1];
        let ghost b = mi[i as int];
        proof {
            assert(pt_valid(mi[i - 1]));
            assert(pt_valid(mi[i as int]));
            assert(mi[i - 1].minute <= mi[i as int].minute);
        }
        let m1 = input[i - 1].minutes;
        let m2 = input[i].minutes;
        let p1 = input[i - 1];
        let ghost base = pts(out@);
        out.push(p1);
        proof {
            assert(pts(out@) =~= base + seq![a]);
        }
        let mut t: u32 = m1 + 1;
        while t < m2
            invariant
                n == input@.len(),
                mi == pts(input@),
                pts_valid(mi),
                pv_bounded(mi, IP_NUM_BOUND as int, IP_DEN_BOUND as int),
                1 <= i < n,
                a == mi[i - 1],
                b == mi[i as int],
                m1 == a.minute,
                m2 == b.minute,
                m1 <= m2 <= 1439,
                p1 == input@[i - 1],
                m1 + 1 <= t,
                t <= m2 || t == m1 + 1,
                pts(out@) =~= base + seq![a] + Seq::new(
                    (t - (m1 + 1)) as nat,
                    |k: int| synth_pt(a, b, m1 + 1 + k),
                ),
            decreases m2 - t,
        {
            proof {
                assert(q_bounded(mi[i - 1].pv, IP_NUM_BOUND as int, IP_DEN_BOUND as int));
                assert(q_bounded(mi[i as int].pv, IP_NUM_BOUND as int, IP_DEN_BOUND as int));
                lemma_synth_fits(
                    a.pv.n,
                    a.pv.d,
                    b.pv.n,
                    b.pv.d,
                    m1 as int,
                    m2 as int,
                    t as int,
                );
            }
            let pa = input[i - 1].pv;
            let pb = input[i].pv;
            let num: i128 = pa.num * pb.den * ((m2 - t) as i128) + pb.num * pa.den * ((t
                - m1) as i128);
            let den: i128 = pa.den * pb.den * ((m2 - m1) as i128);
            let ghost oprev = pts(out@);
            out.push(PlotData { minutes: t, x: Rat::new(t as i128, 60), pv: Rat::new(num, den) });
            proof {
                assert(pts(out@) =~= oprev.push(synth_pt(a, b, t as int)));
                assert(pts(out@) =~= base + seq![a] + Seq::new(
                    (t + 1 - (m1 + 1)) as nat,
                    |k: int| synth_pt(a, b, m1 + 1 + k),
                ));
            }
            t += 1;
        }
        proof {
            assert(pts(out@) =~= base + seg(a, b));
            let suf = mi.skip(i - 1);
            assert(suf.len() == n - i + 1 >= 2);
            assert(suf[0] == a && suf[1] == b);
            assert(suf.drop_first() =~= mi.skip(i as int));
            assert(interp_model(suf) == seg(a, b) + interp_model(mi.skip(i as int)));
            assert(interp_model(mi) =~= pts(out@) + interp_model(mi.skip(i as int)));
        }
        i += 1;
    }
    let p_last = input[n - 1];
    let ghost base = pts(out@);
    out.push(p_last);
    proof {
        let suf = mi.skip(n - 1);
        assert(suf.len() == 1);
        assert(interp_model(suf) == suf);
        assert(suf =~= seq![mi[n - 1]]);
        assert(pts(out@) =~= base + seq![mi[n - 1]]);
        assert(pts(out@) =~= interp_model(mi));
        lemma_interp_model_bounds(mi, IP_NUM_BOUND as int, IP_DEN_BOUND as int);
        if minutes_strict(mi) {
            lemma_interp_dense(mi);
        }
        if forall|k: int|
            0 <= k < input@.len() - 1 ==> (#[trigger] mi[k]).minute + 1 == mi[k + 1].minute {
            lemma_interp_idempotent(mi);
            assert forall|k: int| 0 <= k < out@.len() implies #[trigger] out@[k] == input@[k] by {
                assert(pts(out@)[k] == pts(input@)[k]);
                assert(out@[k]@ == input@[k]@);
            }
            assert(out@ =~= input@);
        }
    }
    out
}

} // verus!
