use std::f64::consts::PI;

use butterworth::butterworth_filter::{ButterworthFilter, PrototypeSample, WarpedPrototype};
use butterworth::cutoff::{closer_to_target_x, find_3db_index, TARGET_M2};
use butterworth::filter_response::{
    frequency_response_at_omega, FilterResponse, FrequencyResponseSample, UnitPoint,
};
use butterworth::fx::{Fx, SCALE};
use butterworth::rat::Rat;

fn fx(v: f64) -> Fx {
    Fx {
        raw: (v * SCALE as f64).round() as i128,
    }
}

fn fx_f64(x: Fx) -> f64 {
    x.raw as f64 / SCALE as f64
}

fn proto_for(order: usize, cutoff_hz: f64, fs: f64) -> WarpedPrototype {
    let wct = 2.0 * (PI * cutoff_hz / fs).tan();
    let mut pairs = Vec::new();
    for k in 0..order / 2 {
        let theta = PI * (2.0 * k as f64 + order as f64 + 1.0) / (2.0 * order as f64);
        pairs.push(PrototypeSample {
            cos: fx(theta.cos()),
            sin: fx(theta.sin()),
        });
    }
    WarpedPrototype {
        order,
        warped: fx(wct),
        pairs,
    }
}

fn design_lowpass(order: usize, cutoff: f64, fs: f64) -> ButterworthFilter {
    let proto = proto_for(order, cutoff, fs);
    ButterworthFilter::lowpass(&proto, fx(cutoff), fx(fs)).expect("low-pass design")
}

fn design_highpass(order: usize, cutoff: f64, fs: f64) -> ButterworthFilter {
    let proto = proto_for(order, fs / 2.0 - cutoff, fs);
    ButterworthFilter::highpass(&proto, fx(cutoff), fx(fs)).expect("high-pass design")
}

fn unit_point(omega: f64) -> UnitPoint {
    UnitPoint {
        cos: fx(omega.cos()),
        sin: fx(omega.sin()),
    }
}

/// The magnitude at a normalized frequency, through the library's
/// evaluator.
fn magnitude_at(filter: &ButterworthFilter, omega: f64) -> f64 {
    let rv = frequency_response_at_omega(filter, unit_point(omega)).expect("evaluation");
    fx_f64(rv.magnitude_squared).sqrt()
}

/// Scans `n` uniform frequencies of `[lo, hi]` and returns the one whose
/// magnitude is closest to the -3 dB level, through the library's exact
/// comparator.
fn scan_3db(filter: &ButterworthFilter, fs: f64, lo: f64, hi: f64, n: usize) -> f64 {
    let mut samples: Vec<FrequencyResponseSample> = Vec::new();
    let mut freqs: Vec<f64> = Vec::new();
    for i in 0..n {
        let freq = lo + (hi - lo) * i as f64 / n as f64;
        if freq < 0.0 || freq > fs / 2.0 {
            continue;
        }
        let omega = 2.0 * PI * freq / fs;
        let rv = frequency_response_at_omega(filter, unit_point(omega)).expect("evaluation");
        samples.push(FrequencyResponseSample {
            frequency: Rat {
                num: (freq * SCALE as f64).round() as i128,
                den: SCALE,
            },
            response_re: rv.response_re,
            response_im: rv.response_im,
            magnitude_squared: rv.magnitude_squared,
        });
        freqs.push(freq);
    }
    let idx = find_3db_index(&samples).expect("in-range magnitudes");
    freqs[idx]
}

/// Two-phase grid search: a 10000-point coarse scan of [0, fs/2], then a
/// 1000-point fine scan of one coarse step centered on the coarse best.
fn find_3db_cutoff_hz(filter: &ButterworthFilter, fs: f64) -> f64 {
    let nyquist = fs / 2.0;
    let coarse_points = 10000usize;
    let coarse = scan_3db(filter, fs, 0.0, nyquist, coarse_points);
    let step = nyquist / coarse_points as f64;
    scan_3db(filter, fs, coarse - step / 2.0, coarse + step / 2.0, 1000)
}

#[test]
fn lowpass_cutoff_is_accurate() {
    // order 8, fs 22050 Hz, cutoff 4000 Hz: the located -3 dB point lies
    // within one coarse grid step (~1.1 Hz) of the design cutoff.
    let f = design_lowpass(8, 4000.0, 22050.0);
    let found = find_3db_cutoff_hz(&f, 22050.0);
    assert!(
        (found - 4000.0).abs() < 22050.0 / 2.0 / 10000.0,
        "found {}",
        found
    );
}

#[test]
fn highpass_cutoff_is_accurate() {
    let f = design_highpass(8, 3225.1032, 22050.0);
    let found = find_3db_cutoff_hz(&f, 22050.0);
    assert!((found - 3225.1032).abs() < 2.0, "found {}", found);
}

#[test]
fn highpass_attenuates_dc_and_passes_nyquist() {
    // order 8, fs 22050 Hz, cutoff 3225.1032 Hz: deep stopband at DC,
    // unity passband approaching Nyquist.
    let f = design_highpass(8, 3225.1032, 22050.0);
    let db_dc = 20.0 * magnitude_at(&f, 0.0).max(1e-10).log10();
    assert!(db_dc < -20.0, "stopband at DC is {} dB", db_dc);
    let db_nyq = 20.0 * magnitude_at(&f, PI).max(1e-10).log10();
    assert!(db_nyq.abs() < 0.01, "passband at Nyquist is {} dB", db_nyq);
}

#[test]
fn reflection_law_exact_on_mirrored_points() {
    // The high-pass at cutoff fc and the low-pass at the mirrored cutoff
    // have exactly equal squared magnitudes at reflected points: the
    // high-pass response at (cos, sin) equals the low-pass response at
    // (-cos, sin), truncations included.
    let fs = 22050.0;
    let fc = 3000.0;
    let hp = design_highpass(8, fc, fs);
    let lp = design_lowpass(8, fs / 2.0 - fc, fs);
    for i in 1..40 {
        let omega = PI * i as f64 / 40.0;
        let p = unit_point(omega);
        let mirrored = UnitPoint {
            cos: Fx { raw: -p.cos.raw },
            sin: p.sin,
        };
        let hv = frequency_response_at_omega(&hp, p).expect("hp evaluation");
        let lv = frequency_response_at_omega(&lp, mirrored).expect("lp evaluation");
        assert_eq!(
            hv.magnitude_squared.raw, lv.magnitude_squared.raw,
            "at omega {}",
            omega
        );
        assert_eq!(hv.response_re.raw, lv.response_re.raw);
        assert_eq!(hv.response_im.raw, -lv.response_im.raw);
    }
}

#[test]
fn evaluator_grid_spans_zero_to_nyquist() {
    // evaluate(filter, numPoints) returns exactly numPoints/2 + 1 samples,
    // strictly increasing, from 0 to fs/2.
    let f = design_lowpass(4, 1000.0, 8000.0);
    let num_points = 512usize;
    let mut points = Vec::new();
    for k in 0..=num_points / 2 {
        points.push(unit_point(2.0 * PI * k as f64 / num_points as f64));
    }
    let resp = FilterResponse::compute(&f, num_points, &points).expect("sweep");
    assert_eq!(resp.samples.len(), num_points / 2 + 1);
    for w in resp.samples.windows(2) {
        // exact rational comparison over a common denominator
        assert!(w[0].frequency.num * w[1].frequency.den < w[1].frequency.num * w[0].frequency.den);
    }
    let first = &resp.samples[0].frequency;
    assert_eq!(first.num, 0);
    let last = &resp.samples[resp.samples.len() - 1].frequency;
    // exactly fs/2 = 4000 Hz
    assert_eq!(last.num * 2, 8000 * SCALE * last.den / SCALE);
    assert!((last.num as f64 / last.den as f64 - 4000.0).abs() < 1e-12);
    // the DC sample of a unity low-pass has magnitude one up to rounding
    let m0 = fx_f64(resp.samples[0].magnitude_squared);
    assert!((m0 - 1.0).abs() < 1e-6);
}

#[test]
fn comparator_orders_by_magnitude_distance() {
    // t is the squared magnitude of 1/sqrt(2).  u1 = t/2 has magnitude
    // 0.5, distance ~0.207; u2 = 2t has magnitude 1, distance ~0.293: the
    // first is closer, and the comparison is asymmetric.
    let u1 = TARGET_M2 / 2;
    let u2 = 2 * TARGET_M2;
    assert!(closer_to_target_x(u1, u2, TARGET_M2));
    assert!(!closer_to_target_x(u2, u1, TARGET_M2));
    // on a common side the raw order decides
    assert!(closer_to_target_x(
        TARGET_M2 + 5,
        TARGET_M2 + 9,
        TARGET_M2
    ));
    assert!(!closer_to_target_x(
        TARGET_M2 - 9,
        TARGET_M2 - 5,
        TARGET_M2
    ));
    // the level itself is closest to everything
    assert!(closer_to_target_x(TARGET_M2, 0, TARGET_M2));
    assert!(!closer_to_target_x(0, TARGET_M2, TARGET_M2));
}
