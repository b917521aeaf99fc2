//! The full pipeline: two rounds of smoothing, then stretching, gap
//! interpolation, and normalization, composed over one day's samples.

use vstd::prelude::*;
use crate::interpolate::{interp_model, interpolate, lemma_interp_model_bounds};
use crate::model::{
    minutes_nondec, minutes_strict, pt_valid, pts_valid, pv_bounded, q_bounded, q_int, q_zero,
    PPoint,
};
use crate::normalize::{normalize, normalize_model};
use crate::point::{pts, PlotData};
use crate::rat::Rat;
use crate::smooth::{lemma_smooth_model_bounds, smooth, smooth_model};
use crate::stretch::{
    keep_pos, lemma_stretch_model_pv_bounded, stretch, stretch_model, StretchError,
};

verus! {

/// One observed reading: the minute of day it was taken, and the
/// scaled power value as a whole number of value units.
#[derive(Clone, Copy, PartialEq, Eq, Structural, Debug)]
pub struct Sample {
    pub minute: u32,
    pub pv: u64,
}

/// Largest admitted sample value (2^32 value units).
pub const PV_LIMIT: u64 = 0x1_0000_0000;

/// The points a day of samples enters the pipeline as: x starts at
/// zero and the value is the sample value as an exact rational.
pub open spec fn init_model(s: Seq<Sample>) -> Seq<PPoint> {
    Seq::new(
        s.len(),
        |i: int| PPoint { minute: s[i].minute as int, x: q_zero(), pv: q_int(s[i].pv as int) },
    )
}

/// The sequence the positive-sample filter sees: the samples after
/// both rounds of smoothing.
pub open spec fn smoothed_model(s: Seq<Sample>) -> Seq<PPoint> {
    smooth_model(smooth_model(init_model(s)))
}

/// The finished curve: smoothed twice, stretched, interpolated,
/// normalized.
pub open spec fn curve_model(s: Seq<Sample>) -> Seq<PPoint> {
    normalize_model(interp_model(stretch_model(smoothed_model(s))))
}

/// Run the whole pipeline over one day of samples.
///
/// Succeeds exactly when, after smoothing, at least two points carry a
/// strictly positive value; the result is then a dense normalized
/// curve with one point per minute of the day.
#[verifier::rlimit(100)]
pub fn build_pv_curve(samples: &Vec<Sample>) -> (out: Result<Vec<PlotData>, StretchError>)
    requires
        samples@.len() >= 3,
        forall|i: int| 0 <= i < samples@.len() ==> (#[trigger] samples@[i]).minute <= 1439,
        forall|i: int|
            0 <= i < samples@.len() - 1 ==> (#[trigger] samples@[i]).minute < samples@[i
                + 1].minute,
        forall|i: int| 0 <= i < samples@.len() ==> (#[trigger] samples@[i]).pv <= PV_LIMIT,
    ensures
        match out {
            Ok(v) => {
                &&& pts(v@) == curve_model(samples@)
                &&& v@.len() == 1440
                &&& forall|j: int| 0 <= j < v@.len() ==> (#[trigger] pts(v@)[j]).minute == j
            },
            Err(e) => {
                &&& e == StretchError::NoPositiveSamples <==> keep_pos(smoothed_model(samples@)).len()
                    == 0
                &&& e == StretchError::InsufficientData <==> keep_pos(smoothed_model(samples@)).len()
                    == 1
            },
        },
{
    let ghost m0 = init_model(samples@);
    let n = samples.len();
    let mut pd: Vec<PlotData> = Vec::new();
    let mut i: usize = 0;
    while i < n
        invariant
            n == samples@.len(),
            m0 == init_model(samples@),
            forall|k: int| 0 <= k < n ==> (#[trigger] samples@[k]).minute <= 1439,
            forall|k: int| 0 <= k < n ==> (#[trigger] samples@[k]).pv <= PV_LIMIT,
            0 <= i <= n,
            pd@.len() == i,
            forall|k: int| 0 <= k < i ==> #[trigger] pts(pd@)[k] == m0[k],
        decreases n - i,
    {
        let s = samples[i];
        let ghost prev = pts(pd@);
        pd.push(PlotData { minutes: s.minute, x: Rat::zero(), pv: Rat::new(s.pv as i128, 1) });
        proof {
            assert forall|k: int| 0 <= k < i + 1 implies #[trigger] pts(pd@)[k] == m0[k] by {
                if k < i {
                    assert(pts(pd@)[k] == prev[k]);
                }
            }
        }
        i += 1;
    }
    proof {
        assert(pts(pd@) =~= m0);
        assert forall|k: int| 0 <= k < m0.len() implies pt_valid(#[trigger] m0[k]) && q_bounded(
            m0[k].pv,
            0x1_0000_0000,
            1,
        ) by {
            assert(samples@[k].minute <= 1439 && samples@[k].pv <= PV_LIMIT);
        }
        assert(pv_bounded(m0, 0x1_0000_0000, 1));
        assert(pts_valid(m0));
        assert(pv_bounded(
            m0,
            crate::smooth::SM_NUM_BOUND as int,
            crate::smooth::SM_DEN_BOUND as int,
        ));
        lemma_smooth_model_bounds(m0, 0x1_0000_0000, 1);
    }
    let p1 = smooth(pd);
    let ghost s1 = smooth_model(m0);
    proof {
        assert(pv_bounded(s1, 3int * 0x1_0000_0000 * 1 * 1, 3int * 1 * 1 * 1));
        assert(pv_bounded(
            s1,
            crate::smooth::SM_NUM_BOUND as int,
            crate::smooth::SM_DEN_BOUND as int,
        ));
        lemma_smooth_model_bounds(s1, 3int * 0x1_0000_0000, 3);
    }
    let p2 = smooth(p1);
    let ghost s2 = smooth_model(s1);
    proof {
        assert(pts(p2@) == s2);
        assert(pv_bounded(s2, 3int * (3 * 0x1_0000_0000) * 3 * 3, 3int * 3 * 3 * 3));
        assert forall|k: int| 0 <= k < s2.len() - 1 implies (#[trigger] s2[k]).minute < s2[k
            + 1].minute by {
            assert(s2[k].minute == s1[k].minute && s1[k].minute == m0[k].minute);
            assert(s2[k + 1].minute == s1[k + 1].minute && s1[k + 1].minute == m0[k + 1].minute);
            assert(samples@[k].minute < samples@[k + 1].minute);
        }
        assert(minutes_strict(s2));
    }
    let p3 = match stretch(p2) {
        Ok(v) => v,
        Err(e) => {
            return Err(e);
        },
    };
    let ghost s3 = stretch_model(s2);
    proof {
        assert(pts(p3@) == s3);
        lemma_stretch_model_pv_bounded(s2, 3int * (3 * 0x1_0000_0000) * 3 * 3, 3int * 3 * 3 * 3);
        assert(pv_bounded(
            s3,
            crate::interpolate::IP_NUM_BOUND as int,
            crate::interpolate::IP_DEN_BOUND as int,
        ));
        assert(minutes_nondec(pts(p3@)));
        lemma_interp_model_bounds(s3, 3int * (3 * 0x1_0000_0000) * 3 * 3, 3int * 3 * 3 * 3);
    }
    let p4 = interpolate(p3);
    let ghost s4 = interp_model(s3);
    proof {
        assert(pts(p4@) == s4);
        assert(pts(p3@)[0].minute == 0 && pts(p3@)[p3@.len() - 1].minute == 1439);
        assert(p4@.len() == 1440);
        assert forall|j: int| 0 <= j < p4@.len() implies (#[trigger] pts(p4@)[j]).minute == j by {
            assert(pts(p4@)[j].minute == pts(p3@)[0].minute + j);
        }
        assert(minutes_nondec(pts(p4@)));
        assert(pv_bounded(
            s4,
            2878int * (3 * (3 * 0x1_0000_0000) * 3 * 3) * (3 * 3 * 3 * 3),
            1439int * (3 * 3 * 3 * 3) * (3 * 3 * 3 * 3),
        ));
        assert forall|k: int| 0 <= k < pts(p4@).len() implies q_bounded(
            (#[trigger] pts(p4@)[k]).pv,
            crate::normalize::NZ_NUM_BOUND as int,
            crate::normalize::NZ_DEN_BOUND as int,
        ) by {
            assert(q_bounded(
                s4[k].pv,
                2878int * (3 * (3 * 0x1_0000_0000) * 3 * 3) * (3 * 3 * 3 * 3),
                1439int * (3 * 3 * 3 * 3) * (3 * 3 * 3 * 3),
            ));
            assert(2878int * (3 * (3 * 0x1_0000_0000) * 3 * 3) * (3 * 3 * 3 * 3)
                <= 0x1000_0000_0000_0000_0000_0000) by (nonlinear_arith);
            assert(1439int * (3 * 3 * 3 * 3) * (3 * 3 * 3 * 3) <= 0x4000_0000) by (nonlinear_arith);
        }
        assert(pv_bounded(
            pts(p4@),
            crate::normalize::NZ_NUM_BOUND as int,
            crate::normalize::NZ_DEN_BOUND as int,
        ));
    }
    let out = normalize(p4);
    proof {
        assert(pts(out@) == normalize_model(s4));
        assert forall|j: int| 0 <= j < out@.len() implies (#[trigger] pts(out@)[j]).minute == j by {
            assert(pts(out@)[j].minute == pts(p4@)[j].minute);
        }
    }
    Ok(out)
}

} // verus!
