use std::f64::consts::PI;

use butterworth::butterworth_filter::{
    lowpass_to_highpass, ButterworthFilter, FilterType, PrototypeSample, WarpedPrototype,
};
use butterworth::fx::{Fx, SCALE};
use butterworth::poles::butterworth_analog_poles;
use butterworth::rat::Rat;
use butterworth::FilterError;

fn fx(v: f64) -> Fx {
    Fx {
        raw: (v * SCALE as f64).round() as i128,
    }
}

fn rat_f64(r: &Rat) -> f64 {
    r.num as f64 / r.den as f64
}

fn proto_for(order: usize, cutoff_hz: f64, fs: f64) -> WarpedPrototype {
    let wct = 2.0 * (PI * cutoff_hz / fs).tan();
    let mut pairs = Vec::new();
    for k in 0..order / 2 {
        let theta = PI * (2.0 * k as f64 + order as f64 + 1.0) / (2.0 * order as f64);
        pairs.push(PrototypeSample {
            cos: fx(theta.cos()),
            sin: fx(theta.sin()),
        });
    }
    WarpedPrototype {
        order,
        warped: fx(wct),
        pairs,
    }
}

fn design_lowpass(order: usize, cutoff: f64, fs: f64) -> ButterworthFilter {
    let proto = proto_for(order, cutoff, fs);
    ButterworthFilter::lowpass(&proto, fx(cutoff), fx(fs)).expect("low-pass design")
}

fn design_highpass(order: usize, cutoff: f64, fs: f64) -> ButterworthFilter {
    let proto = proto_for(order, fs / 2.0 - cutoff, fs);
    ButterworthFilter::highpass(&proto, fx(cutoff), fx(fs)).expect("high-pass design")
}

/// |H(e^{j*omega})| from the rational coefficients, in plain f64.
fn gain_at(filter: &ButterworthFilter, omega: f64) -> f64 {
    let mut num = (0.0f64, 0.0f64);
    let mut den = (0.0f64, 0.0f64);
    for (k, c) in filter.b.iter().enumerate() {
        let ang = -(k as f64) * omega;
        num.0 += rat_f64(c) * ang.cos();
        num.1 += rat_f64(c) * ang.sin();
    }
    for (k, c) in filter.a.iter().enumerate() {
        let ang = -(k as f64) * omega;
        den.0 += rat_f64(c) * ang.cos();
        den.1 += rat_f64(c) * ang.sin();
    }
    (num.0 * num.0 + num.1 * num.1).sqrt() / (den.0 * den.0 + den.1 * den.1).sqrt()
}

#[test]
fn prototype_pole_structure() {
    // Orders 1..=16: all poles strictly in the left half-plane, the set
    // closed under conjugation, exactly one real pole for odd orders and
    // none for even orders.
    for order in 1usize..=16 {
        let poles = butterworth_analog_poles(order).expect("valid order");
        assert_eq!(poles.len(), order);
        let mut real_count = 0;
        for (k, p) in poles.iter().enumerate() {
            assert_eq!(p.num, 2 * k + order + 1);
            assert_eq!(p.den, 2 * order);
            // strictly inside (pi/2, 3*pi/2)
            assert!(p.den < 2 * p.num && 2 * p.num < 3 * p.den);
            // the actual cosine is negative
            let theta = PI * p.num as f64 / p.den as f64;
            assert!(theta.cos() < 0.0);
            // conjugate partner
            let q = &poles[order - 1 - k];
            assert_eq!(p.num + q.num, 2 * p.den);
            if p.num == p.den {
                real_count += 1;
            }
        }
        assert_eq!(real_count, order % 2);
    }
}

#[test]
fn prototype_rejects_order_zero() {
    assert_eq!(
        butterworth_analog_poles(0),
        Err(FilterError::InvalidParameter)
    );
}

#[test]
fn lowpass_dc_gain_is_unity() {
    for &(order, fc, fs) in &[
        (2usize, 1000.0, 8000.0),
        (3, 500.0, 4000.0),
        (8, 4000.0, 22050.0),
        (5, 3000.0, 44100.0),
    ] {
        let f = design_lowpass(order, fc, fs);
        let g = gain_at(&f, 0.0);
        assert!(
            (g - 1.0).abs() < 1e-9,
            "DC gain {} for order {} fc {} fs {}",
            g,
            order,
            fc,
            fs
        );
    }
}

#[test]
fn highpass_nyquist_gain_is_unity() {
    for &(order, fc, fs) in &[
        (2usize, 1000.0, 8000.0),
        (8, 3225.1032, 22050.0),
        (7, 5000.0, 44100.0),
    ] {
        let f = design_highpass(order, fc, fs);
        let g = gain_at(&f, PI);
        assert!(
            (g - 1.0).abs() < 1e-9,
            "Nyquist gain {} for order {} fc {} fs {}",
            g,
            order,
            fc,
            fs
        );
    }
}

#[test]
fn lowpass_magnitude_stays_bounded() {
    // A stable, unity-gain Butterworth response never rises meaningfully
    // above one anywhere on the frequency axis.
    let f = design_lowpass(8, 4000.0, 22050.0);
    for i in 0..=200 {
        let omega = PI * i as f64 / 200.0;
        let g = gain_at(&f, omega);
        assert!(g.is_finite());
        assert!(g < 1.001, "gain {} at omega {}", g, omega);
    }
}

#[test]
fn lowpass_coefficient_shape() {
    // order 8, fs 22050 Hz, cutoff 4000 Hz: 9 coefficients on both sides,
    // a[0] exactly one.
    let f = design_lowpass(8, 4000.0, 22050.0);
    assert_eq!(f.b.len(), 9);
    assert_eq!(f.a.len(), 9);
    assert_eq!(f.a[0].num, f.a[0].den);
    assert!(matches!(f.filter_type, FilterType::Lowpass));
    assert_eq!(f.order, 8);
    // the leading numerator coefficient of a low-pass is positive and small
    assert!(rat_f64(&f.b[0]) > 0.0);
    // f64 cross-check of the classic design: b ~ binomial * gain
    let b0 = rat_f64(&f.b[0]);
    let b4 = rat_f64(&f.b[4]);
    assert!((b4 / b0 - 70.0).abs() < 1e-6, "binomial ratio {}", b4 / b0);
}

#[test]
fn first_order_lowpass_matches_closed_form() {
    // For order 1 the whole design has a closed form: with
    // wct = 2*tan(pi*fc/fs), the digital pole is z = (2-wct)/(2+wct) and
    // H(z) = g*(1 + z^-1) / (1 - z*z^-1) with g = (1-z)/2.  At
    // fc = fs/8, tan(pi/8) = sqrt(2)-1, so z = sqrt(2)-1.
    let f = design_lowpass(1, 1000.0, 8000.0);
    assert_eq!(f.b.len(), 2);
    assert_eq!(f.a.len(), 2);
    let z = 2.0f64.sqrt() - 1.0;
    assert!((rat_f64(&f.a[0]) - 1.0).abs() < 1e-12);
    assert!((rat_f64(&f.a[1]) + z).abs() < 1e-8, "a1 = {}", rat_f64(&f.a[1]));
    let g = (1.0 - z) / 2.0;
    assert!((rat_f64(&f.b[0]) - g).abs() < 1e-8, "b0 = {}", rat_f64(&f.b[0]));
    assert!((rat_f64(&f.b[1]) - g).abs() < 1e-8, "b1 = {}", rat_f64(&f.b[1]));
}

#[test]
fn spectral_inversion_negates_odd_coefficients() {
    let f = design_lowpass(4, 1000.0, 8000.0);
    let (b_hp, a_hp) = lowpass_to_highpass(&f.b, &f.a);
    for k in 0..f.b.len() {
        if k % 2 == 1 {
            assert_eq!(b_hp[k].num, -f.b[k].num);
            assert_eq!(a_hp[k].num, -f.a[k].num);
        } else {
            assert_eq!(b_hp[k], f.b[k]);
            assert_eq!(a_hp[k], f.a[k]);
        }
        assert_eq!(b_hp[k].den, f.b[k].den);
        assert_eq!(a_hp[k].den, f.a[k].den);
    }
}

#[test]
fn invalid_parameters_are_rejected() {
    let proto = proto_for(4, 1000.0, 8000.0);
    // order zero
    let p0 = WarpedPrototype {
        order: 0,
        warped: fx(1.0),
        pairs: Vec::new(),
    };
    assert!(matches!(
        ButterworthFilter::lowpass(&p0, fx(1000.0), fx(8000.0)),
        Err(FilterError::InvalidParameter)
    ));
    // cutoff at zero
    assert!(matches!(
        ButterworthFilter::lowpass(&proto, fx(0.0), fx(8000.0)),
        Err(FilterError::InvalidParameter)
    ));
    // cutoff at the Nyquist frequency
    assert!(matches!(
        ButterworthFilter::lowpass(&proto, fx(4000.0), fx(8000.0)),
        Err(FilterError::InvalidParameter)
    ));
    // non-positive sample rate
    assert!(matches!(
        ButterworthFilter::lowpass(&proto, fx(1000.0), fx(0.0)),
        Err(FilterError::InvalidParameter)
    ));
    // high-pass validates the mirrored cutoff
    assert!(matches!(
        ButterworthFilter::highpass(&proto, fx(0.0), fx(8000.0)),
        Err(FilterError::InvalidParameter)
    ));
    assert!(matches!(
        ButterworthFilter::highpass(&proto, fx(4000.0), fx(8000.0)),
        Err(FilterError::InvalidParameter)
    ));
}

#[test]
fn degenerate_arithmetic_is_reported() {
    // An absurdly large pre-warped cutoff overflows the checked pipeline:
    // the guard that a robust implementation needs near the Nyquist
    // frequency.
    let proto = WarpedPrototype {
        order: 2,
        warped: Fx { raw: i128::MAX / 2 },
        pairs: vec![PrototypeSample {
            cos: fx(-0.7071067811865476),
            sin: fx(0.7071067811865476),
        }],
    };
    assert!(matches!(
        ButterworthFilter::lowpass(&proto, fx(3999.0), fx(8000.0)),
        Err(FilterError::NumericDegenerate)
    ));
}
