//! The stretcher: discards non-positive samples, then rescales the
//! surviving time axis so the first kept sample lands on minute 0 and
//! the last on minute 1439. The chart x coordinate keeps the exact,
//! unrounded scaled minute divided by 60; the stored minute is the
//! half-up rounded integer, which provably lands inside the day, so
//! no clamping is ever needed.

use vstd::prelude::*;
use crate::model::{
    minutes_strict, pt_valid, pts_valid, pv_bounded, q_bounded, q_pos, q_valid, PPoint, Q,
};
use crate::point::{pts, PlotData};
use crate::rat::Rat;
use vstd::arithmetic::div_mod::{
    lemma_div_is_ordered, lemma_div_plus_one, lemma_div_pos_is_pos,
    lemma_fundamental_div_mod_converse_div,
};

verus! {

/// Why stretching can refuse an input.
#[derive(Clone, Copy, PartialEq, Eq, Structural, Debug)]
pub enum StretchError {
    /// No sample had a strictly positive value: there is no daylight
    /// window to stretch.
    NoPositiveSamples,
    /// Exactly one sample survived the filter: a single point spans no
    /// interval, so there is nothing to rescale.
    InsufficientData,
}

/// Round `n / d` to the nearest integer, halves rounding up
/// (`n >= 0`, `d > 0`).
pub open spec fn rnd(n: int, d: int) -> int {
    (2 * n + d) / (2 * d)
}

/// The subsequence of points with strictly positive `pv`, in order.
pub open spec fn keep_pos(s: Seq<PPoint>) -> Seq<PPoint>
    decreases s.len(),
{
    if s.len() == 0 {
        Seq::empty()
    } else if q_pos(s.last().pv) {
        keep_pos(s.drop_last()).push(s.last())
    } else {
        keep_pos(s.drop_last())
    }
}

/// One kept point, rescaled over the window `[start, endm]`.
pub open spec fn stretch_pt(p: PPoint, start: int, endm: int) -> PPoint {
    PPoint {
        minute: rnd((p.minute - start) * 1439, endm - start),
        x: Q { n: (p.minute - start) * 1439, d: (endm - start) * 60 },
        pv: p.pv,
    }
}

/// The stretched sequence: the kept points, each rescaled over the
/// window from the first to the last kept minute.
pub open spec fn stretch_model(s: Seq<PPoint>) -> Seq<PPoint> {
    let f = keep_pos(s);
    Seq::new(f.len(), |i: int| stretch_pt(f[i], f[0].minute, f[f.len() - 1].minute))
}

pub proof fn lemma_keep_pos_len(s: Seq<PPoint>)
    ensures
        keep_pos(s).len() <= s.len(),
    decreases s.len(),
{
    if s.len() > 0 {
        lemma_keep_pos_len(s.drop_last());
    }
}

/// Every kept point is one of the input points.
pub proof fn lemma_keep_pos_sub(s: Seq<PPoint>)
    ensures
        forall|i: int| 0 <= i < keep_pos(s).len() ==> s.contains(#[trigger] keep_pos(s)[i]),
        forall|i: int| 0 <= i < keep_pos(s).len() ==> q_pos(#[trigger] keep_pos(s)[i].pv),
    decreases s.len(),
{
    if s.len() > 0 {
        lemma_keep_pos_sub(s.drop_last());
        assert forall|i: int| 0 <= i < keep_pos(s).len() implies s.contains(
            #[trigger] keep_pos(s)[i],
        ) && q_pos(keep_pos(s)[i].pv) by {
            let f = keep_pos(s);
            if q_pos(s.last().pv) && i == f.len() - 1 {
                assert(s[s.len() - 1] == f[i]);
            } else {
                let p = keep_pos(s.drop_last())[i];
                let w = choose|k: int| 0 <= k < s.drop_last().len() && s.drop_last()[k] == p;
                assert(s[w] == p);
            }
        }
    }
}

/// Filtering keeps well-formedness.
pub proof fn lemma_keep_pos_valid(s: Seq<PPoint>)
    requires
        pts_valid(s),
    ensures
        pts_valid(keep_pos(s)),
{
    lemma_keep_pos_sub(s);
    assert forall|i: int| 0 <= i < keep_pos(s).len() implies pt_valid(
        #[trigger] keep_pos(s)[i],
    ) by {
        let p = keep_pos(s)[i];
        let w = choose|k: int| 0 <= k < s.len() && s[k] == p;
    }
}

/// Filtering keeps any value bound.
pub proof fn lemma_keep_pos_bounded(s: Seq<PPoint>, bn: int, bd: int)
    requires
        pv_bounded(s, bn, bd),
    ensures
        pv_bounded(keep_pos(s), bn, bd),
{
    lemma_keep_pos_sub(s);
    assert forall|i: int| 0 <= i < keep_pos(s).len() implies q_bounded(
        (#[trigger] keep_pos(s)[i]).pv,
        bn,
        bd,
    ) by {
        let p = keep_pos(s)[i];
        let w = choose|k: int| 0 <= k < s.len() && s[k] == p;
    }
}

/// Filtering a strictly increasing sequence leaves it strictly
/// increasing, even pairwise.
pub proof fn lemma_keep_pos_strict(s: Seq<PPoint>)
    requires
        forall|i: int, j: int| 0 <= i < j < s.len() ==> #[trigger] s[i].minute < #[trigger] s[j].minute,
    ensures
        forall|i: int, j: int|
            0 <= i < j < keep_pos(s).len() ==> #[trigger] keep_pos(s)[i].minute
                < #[trigger] keep_pos(s)[j].minute,
    decreases s.len(),
{
    if s.len() > 0 {
        let s1 = s.drop_last();
        lemma_keep_pos_strict(s1);
        lemma_keep_pos_sub(s1);
        assert forall|i: int, j: int| 0 <= i < j < keep_pos(s).len() implies #[trigger] keep_pos(
            s,
        )[i].minute < #[trigger] keep_pos(s)[j].minute by {
            let f = keep_pos(s);
            if q_pos(s.last().pv) && j == f.len() - 1 {
                let p = keep_pos(s1)[i];
                let w = choose|k: int| 0 <= k < s1.len() && s1[k] == p;
                assert(s[w] == p);
                assert(s[w].minute < s[s.len() - 1].minute);
            } else {
            }
        }
    }
}

/// The values of the stretched sequence are the kept input values, so
/// any bound on the input values carries over.
pub proof fn lemma_stretch_model_pv_bounded(s: Seq<PPoint>, bn: int, bd: int)
    requires
        pv_bounded(s, bn, bd),
    ensures
        pv_bounded(stretch_model(s), bn, bd),
{
    lemma_keep_pos_bounded(s, bn, bd);
    assert forall|i: int| 0 <= i < stretch_model(s).len() implies q_bounded(
        (#[trigger] stretch_model(s)[i]).pv,
        bn,
        bd,
    ) by {
        assert(stretch_model(s)[i].pv == keep_pos(s)[i].pv);
    }
}

/// Rounding the scaled minute stays within the day and moves strictly
/// forward from one kept sample to the next.
proof fn lemma_rnd_range(n: int, d: int)
    requires
        0 <= n <= 1439 * d,
        0 < d,
    ensures
        0 <= rnd(n, d) <= 1439,
{
    lemma_div_pos_is_pos(2 * n + d, 2 * d);
    lemma_div_is_ordered(2 * n + d, 2 * (1439 * d) + d, 2 * d);
    lemma_fundamental_div_mod_converse_div(2 * (1439 * d) + d, 2 * d, 1439, d);
}

proof fn lemma_rnd_step(n1: int, n2: int, d: int)
    requires
        0 <= n1,
        n1 + d <= n2,
        0 < d,
    ensures
        rnd(n1, d) < rnd(n2, d),
{
    lemma_div_is_ordered(2 * n1 + d + 2 * d, 2 * n2 + d, 2 * d);
    lemma_div_plus_one(2 * n1 + d, 2 * d);
}

proof fn lemma_rnd_zero(d: int)
    requires
        0 < d,
    ensures
        rnd(0, d) == 0,
{
    lemma_fundamental_div_mod_converse_div(d, 2 * d, 0, d);
}

proof fn lemma_rnd_full(d: int)
    requires
        0 < d,
    ensures
        rnd(1439 * d, d) == 1439,
{
    lemma_fundamental_div_mod_converse_div(2 * (1439 * d) + d, 2 * d, 1439, d);
}

/// Keep only the points with strictly positive value, in order.
fn filter_pos(input: &Vec<PlotData>) -> (kept: Vec<PlotData>)
    requires
        pts_valid(pts(input@)),
    ensures
        pts(kept@) == keep_pos(pts(input@)),
        kept@.len() == keep_pos(pts(input@)).len(),
{
    let ghost mi = pts(input@);
    let mut kept: Vec<PlotData> = Vec::new();
    proof {
        assert(pts(kept@) =~= keep_pos(mi.subrange(0, 0)));
    }
    let mut i: usize = 0;
    while i < input.len()
        invariant
            mi == pts(input@),
            pts_valid(mi),
            0 <= i <= input@.len(),
            pts(kept@) == keep_pos(mi.subrange(0, i as int)),
        decreases input@.len() - i,
    {
        proof {
            let pre = mi.subrange(0, i as int);
            let cur = mi.subrange(0, i + 1);
            assert(cur.drop_last() =~= pre);
            assert(cur.last() == mi[i as int]);
            assert(pt_valid(mi[i as int]));
            assert(input@[i as int]@ == mi[i as int]);
        }
        let ghost kprev = kept@;
        if input[i].pv.is_pos() {
            kept.push(input[i]);
            proof {
                assert(pts(kept@) =~= pts(kprev).push(mi[i as int]));
                assert(pts(kept@) =~= keep_pos(mi.subrange(0, i + 1)));
            }
        } else {
            proof {
                assert(pts(kept@) =~= keep_pos(mi.subrange(0, i + 1)));
            }
        }
        i += 1;
    }
    proof {
        assert(mi.subrange(0, input@.len() as int) =~= mi);
    }
    kept
}

/// Stretch the positive part of the day across the full day.
///
/// Succeeds exactly when at least two samples have a strictly positive
/// value; the output then starts at minute 0, ends at minute 1439, and
/// keeps the samples' order and values.
#[verifier::rlimit(60)]
pub fn stretch(input: Vec<PlotData>) -> (out: Result<Vec<PlotData>, StretchError>)
    requires
        pts_valid(pts(input@)),
        minutes_strict(pts(input@)),
    ensures
        match out {
            Ok(v) => {
                &&& keep_pos(pts(input@)).len() >= 2
                &&& pts(v@) == stretch_model(pts(input@))
                &&& v@.len() == keep_pos(pts(input@)).len()
                &&& v@.len() <= input@.len()
                &&& pts_valid(pts(v@))
                &&& minutes_strict(pts(v@))
                &&& v@[0].minutes == 0
                &&& v@[v@.len() - 1].minutes == 1439
                &&& forall|i: int| 0 <= i < v@.len() ==> q_pos((#[trigger] pts(v@)[i]).pv)
            },
            Err(e) => {
                &&& e == StretchError::NoPositiveSamples <==> keep_pos(pts(input@)).len() == 0
                &&& e == StretchError::InsufficientData <==> keep_pos(pts(input@)).len() == 1
            },
        },
{
    let ghost mi = pts(input@);
    proof {
        crate::model::lemma_minutes_strict_pairwise(mi);
        lemma_keep_pos_strict(mi);
        lemma_keep_pos_sub(mi);
        lemma_keep_pos_len(mi);
        lemma_keep_pos_valid(mi);
    }
    let kept = filter_pos(&input);
    let ghost f = keep_pos(mi);
    if kept.len() == 0 {
        return Err(StretchError::NoPositiveSamples);
    }
    if kept.len() == 1 {
        return Err(StretchError::InsufficientData);
    }
    let klen = kept.len();
    let start = kept[0].minutes;
    let endm = kept[klen - 1].minutes;
    proof {
        assert(f[0] == pts(kept@)[0]);
        assert(f[klen - 1] == pts(kept@)[klen - 1]);
        assert(f[0].minute < f[klen - 1].minute);
        assert(pt_valid(f[0]) && pt_valid(f[klen - 1]));
    }
    let d64: u64 = (endm - start) as u64;
    let mut v: Vec<PlotData> = Vec::new();
    let mut j: usize = 0;
    while j < klen
        invariant
            mi == pts(input@),
            f == keep_pos(mi),
            pts(kept@) == f,
            kept@.len() == klen,
            2 <= klen,
            0 <= j <= klen,
            start == f[0].minute,
            endm == f[klen - 1].minute,
            0 <= start < endm <= 1439,
            d64 == endm - start,
            forall|a: int, b: int| 0 <= a < b < klen ==> #[trigger] f[a].minute < #[trigger] f[b].minute,
            forall|a: int| 0 <= a < klen ==> pt_valid(#[trigger] f[a]),
            forall|a: int| 0 <= a < klen ==> q_pos((#[trigger] f[a]).pv),
            v@.len() == j,
            forall|a: int|
                0 <= a < j ==> #[trigger] pts(v@)[a] == stretch_pt(f[a], start as int, endm as int),
        decreases klen - j,
    {
        let p = kept[j];
        proof {
            assert(f[j as int] == pts(kept@)[j as int]);
            if j > 0 {
                assert(f[0].minute < f[j as int].minute);
            }
            if j < klen - 1 {
                assert(f[j as int].minute < f[klen - 1].minute);
            }
        }
        let n64: u64 = ((p.minutes - start) as u64) * 1439;
        let newmin: u64 = (2 * n64 + d64) / (2 * d64);
        proof {
            assert(n64 as int == (f[j as int].minute - start) * 1439);
            assert(n64 <= 1439 * (d64 as int));
            lemma_rnd_range(n64 as int, d64 as int);
            assert(newmin as int == rnd((f[j as int].minute - start) * 1439, d64 as int));
        }
        let x = Rat::new(n64 as i128, (d64 * 60) as i128);
        let ghost vprev = v@;
        v.push(PlotData { minutes: newmin as u32, x, pv: p.pv });
        proof {
            assert(v@ == vprev.push(PlotData { minutes: newmin as u32, x, pv: p.pv }));
            assert forall|a: int| 0 <= a < j implies #[trigger] pts(v@)[a] == stretch_pt(
                f[a],
                start as int,
                endm as int,
            ) by {
                assert(v@[a] == vprev[a]);
                assert(pts(vprev)[a] == stretch_pt(f[a], start as int, endm as int));
            }
            assert(pts(v@)[j as int] == stretch_pt(f[j as int], start as int, endm as int));
        }
        j += 1;
    }
    proof {
        assert(pts(v@) =~= stretch_model(mi));
        assert(pts(v@)[0].minute == rnd(0, d64 as int));
        lemma_rnd_zero(d64 as int);
        assert(pts(v@)[klen - 1].minute == rnd((endm - start) * 1439, d64 as int));
        lemma_rnd_full(d64 as int);
        assert forall|a: int| 0 <= a < v@.len() implies pt_valid(#[trigger] pts(v@)[a])
            && 0 <= pts(v@)[a].minute <= 1439 by {
            assert(pts(v@)[a] == stretch_pt(f[a], start as int, endm as int));
            assert(pt_valid(f[a]));
            if a > 0 {
                assert(f[0].minute < f[a].minute);
            }
            if a < klen - 1 {
                assert(f[a].minute < f[klen - 1].minute);
            }
            lemma_rnd_range((f[a].minute - start) * 1439, d64 as int);
        }
        assert forall|a: int| 0 <= a < v@.len() - 1 implies (#[trigger] pts(v@)[a]).minute < pts(
            v@,
        )[a + 1].minute by {
            assert(pts(v@)[a] == stretch_pt(f[a], start as int, endm as int));
            assert(pts(v@)[a + 1] == stretch_pt(f[a + 1], start as int, endm as int));
            assert(f[a].minute < f[a + 1].minute);
            if a > 0 {
                assert(f[0].minute < f[a].minute);
            }
            let nprev = (f[a].minute - start) * 1439;
            let ncur = (f[a + 1].minute - start) * 1439;
            lemma_rnd_step(nprev, ncur, d64 as int);
        }
    }
    Ok(v)
}

} // verus!
