use pv_curve::pipeline::{build_pv_curve, Sample};
use pv_curve::point::PlotData;
use pv_curve::rat::Rat;
use pv_curve::smooth::smooth;
use pv_curve::stretch::{stretch, StretchError};
use pv_curve::interpolate::interpolate;
use pv_curve::normalize::normalize;

fn pd(minutes: u32, num: i128, den: i128) -> PlotData {
    PlotData { minutes, x: Rat { num: 0, den: 1 }, pv: Rat { num, den } }
}

fn rat(num: i128, den: i128) -> Rat {
    Rat { num, den }
}

#[test]
fn smoother_means_interior() {
    let input = vec![pd(0, 3, 1), pd(1, 6, 1), pd(2, 9, 1), pd(3, 30, 1), pd(4, 3, 1)];
    let out = smooth(input.clone());
    assert_eq!(out.len(), 5);
    // endpoints are bit-identical to the input
    assert_eq!(out[0], input[0]);
    assert_eq!(out[4], input[4]);
    // interior points are the exact mean of the three neighbours
    assert!(out[1].pv.eq_val(rat(6, 1)));
    assert!(out[2].pv.eq_val(rat(15, 1)));
    assert!(out[3].pv.eq_val(rat(14, 1)));
    // minutes and x pass through unchanged
    for i in 0..5 {
        assert_eq!(out[i].minutes, input[i].minutes);
        assert_eq!(out[i].x, input[i].x);
    }
}

#[test]
fn smoother_shortest_input() {
    let input = vec![pd(10, 1, 1), pd(11, 7, 1), pd(12, 1, 1)];
    let out = smooth(input.clone());
    assert_eq!(out.len(), 3);
    assert_eq!(out[0], input[0]);
    assert_eq!(out[2], input[2]);
    assert!(out[1].pv.eq_val(rat(3, 1)));
}

#[test]
fn stretcher_spans_day() {
    let input = vec![pd(300, 1, 1), pd(600, 2, 1), pd(900, 1, 1)];
    let out = stretch(input.clone()).unwrap();
    assert_eq!(out.len(), 3);
    assert!(out.len() <= input.len());
    // first and last minute land exactly on the day's ends
    assert_eq!(out[0].minutes, 0);
    assert_eq!(out[2].minutes, 1439);
    // 1439 * 300 / 600 = 719.5 rounds half up
    assert_eq!(out[1].minutes, 720);
    // x keeps the unrounded scaled minute over 60
    assert!(out[1].x.eq_val(rat(300 * 1439, 600 * 60)));
    // values pass through and stay strictly positive
    for (o, i) in out.iter().zip(input.iter()) {
        assert!(o.pv.eq_val(i.pv));
        assert!(o.pv.num > 0);
    }
}

#[test]
fn stretcher_rejects_no_positive() {
    let input = vec![pd(100, 0, 1), pd(200, 0, 1), pd(300, -1, 1)];
    assert_eq!(stretch(input), Err(StretchError::NoPositiveSamples));
}

#[test]
fn stretcher_rejects_empty_input() {
    assert_eq!(stretch(Vec::new()), Err(StretchError::NoPositiveSamples));
}

#[test]
fn stretcher_rejects_single_positive() {
    // Five samples, only the midday one positive: a single point spans
    // no interval, so stretching refuses the day.
    let input = vec![
        pd(0, 0, 1),
        pd(360, 0, 1),
        pd(720, 10, 1),
        pd(1080, 0, 1),
        pd(1439, 0, 1),
    ];
    assert_eq!(stretch(input), Err(StretchError::InsufficientData));
}

#[test]
fn interpolator_keeps_dense_run() {
    let input = vec![pd(600, 2, 1), pd(601, 4, 1), pd(602, 6, 1)];
    let out = interpolate(input.clone());
    assert_eq!(out, input);
}

#[test]
fn interpolator_fills_gap_linearly() {
    let input = vec![pd(100, 0, 1), pd(105, 10, 1)];
    let out = interpolate(input);
    assert_eq!(out.len(), 6);
    let expect: [i128; 6] = [0, 2, 4, 6, 8, 10];
    for (i, o) in out.iter().enumerate() {
        assert_eq!(o.minutes, 100 + i as u32);
        assert!(o.pv.eq_val(rat(expect[i], 1)));
    }
    // synthesized points carry x = minute / 60
    for o in out.iter().take(5).skip(1) {
        assert!(o.x.eq_val(rat(o.minutes as i128, 60)));
    }
}

#[test]
fn interpolator_keeps_duplicate_minutes() {
    let input = vec![pd(700, 2, 1), pd(700, 4, 1)];
    let out = interpolate(input.clone());
    assert_eq!(out, input);
}

#[test]
fn normalizer_scales_both_axes() {
    let input = vec![pd(0, 1, 1), pd(60, 4, 1), pd(120, 2, 1)];
    let out = normalize(input);
    assert_eq!(out.len(), 3);
    // x = minute / last minute, ending exactly at one
    assert!(out[0].x.eq_val(rat(0, 1)));
    assert!(out[1].x.eq_val(rat(1, 2)));
    assert!(out[2].x.eq_val(rat(1, 1)));
    // pv = pv / max, the maximum mapping to exactly one
    assert!(out[0].pv.eq_val(rat(1, 4)));
    assert!(out[1].pv.eq_val(rat(1, 1)));
    assert!(out[2].pv.eq_val(rat(1, 2)));
}

#[test]
fn normalizer_zero_max_keeps_values() {
    let input = vec![pd(0, 0, 1), pd(100, 0, 1)];
    let out = normalize(input);
    assert!(out[0].pv.eq_val(rat(0, 1)));
    assert!(out[1].pv.eq_val(rat(0, 1)));
    assert!(out[1].x.eq_val(rat(1, 1)));
}

#[test]
fn normalizer_single_point_at_minute_zero() {
    let input = vec![pd(0, 7, 2)];
    let out = normalize(input);
    assert_eq!(out.len(), 1);
    // last minute is zero, so x falls back to zero
    assert!(out[0].x.eq_val(rat(0, 1)));
    // the single value is its own maximum
    assert!(out[0].pv.eq_val(rat(1, 1)));
}

#[test]
fn pipeline_builds_dense_normalized_curve() {
    let samples = vec![
        Sample { minute: 0, pv: 0 },
        Sample { minute: 200, pv: 0 },
        Sample { minute: 400, pv: 5000 },
        Sample { minute: 600, pv: 9000 },
        Sample { minute: 800, pv: 4000 },
        Sample { minute: 1000, pv: 0 },
        Sample { minute: 1439, pv: 0 },
    ];
    let curve = build_pv_curve(&samples).unwrap();
    assert_eq!(curve.len(), 1440);
    for (j, p) in curve.iter().enumerate() {
        assert_eq!(p.minutes, j as u32);
        // every value is non-negative and no larger than the peak
        assert!(p.pv.num >= 0);
        assert!(p.pv.le(rat(1, 1)));
        // x stays inside the unit interval
        assert!(p.x.num >= 0);
        assert!(p.x.le(rat(1, 1)));
    }
    // both axes end exactly at one
    assert!(curve[1439].x.eq_val(rat(1, 1)));
    let peak = curve.iter().any(|p| p.pv.eq_val(rat(1, 1)));
    assert!(peak);
}

#[test]
fn pipeline_rejects_day_without_daylight() {
    let samples = vec![
        Sample { minute: 0, pv: 0 },
        Sample { minute: 700, pv: 0 },
        Sample { minute: 1439, pv: 0 },
    ];
    assert_eq!(build_pv_curve(&samples), Err(StretchError::NoPositiveSamples));
}

#[test]
fn pipeline_rejects_single_daylight_sample() {
    // Smoothing twice spreads the lone burst only into the interior
    // point itself, so exactly one positive point survives the filter.
    let samples = vec![
        Sample { minute: 0, pv: 0 },
        Sample { minute: 720, pv: 10 },
        Sample { minute: 1439, pv: 0 },
    ];
    assert_eq!(build_pv_curve(&samples), Err(StretchError::InsufficientData));
}
