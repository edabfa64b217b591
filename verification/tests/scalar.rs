use crawl_race::scalar::Scalar;

fn s(x: f32) -> Scalar {
    Scalar::from_bits(x.to_bits())
}

fn samples() -> Vec<f32> {
    let mut v = vec![
        0.0, -0.0, 1.0, -1.0, 0.5, -0.5, 0.49999997, 0.50000006, 1.5, -1.5, 2.5, -2.5, 3.4999998,
        1e-40, -1e-40, f32::MIN_POSITIVE, f32::MAX, f32::MIN, f32::INFINITY, f32::NEG_INFINITY,
        f32::NAN, 8388607.5, 8388608.0, 16777216.0, 16777217.0, 2147483520.0, 2147483648.0,
        -2147483648.0, -2147483904.0, 4294967296.0, 123.456, -987.654, 1e10, -1e10, 1e-3,
    ];
    let mut x: u32 = 0x1234_5678;
    for _ in 0..2000 {
        x ^= x << 13;
        x ^= x >> 17;
        x ^= x << 5;
        v.push(f32::from_bits(x));
    }
    v
}

#[test]
fn comparison_agrees_with_the_hardware() {
    let v = samples();
    for &a in v.iter().take(300) {
        for &b in v.iter().take(300) {
            assert_eq!(s(a).lt(s(b)), a < b, "{a} < {b}");
            assert_eq!(s(a).gt(s(b)), a > b, "{a} > {b}");
        }
    }
}

#[test]
fn rounding_agrees_with_the_hardware() {
    for a in samples() {
        assert_eq!(s(a).round_to_i32(), a.round() as i32, "{a}");
    }
    for i in -70000..70000 {
        let a = i as f32 / 8.0;
        assert_eq!(s(a).round_to_i32(), a.round() as i32, "{a}");
    }
}

#[test]
fn rounding_exact_values() {
    assert_eq!(s(0.5).round_to_i32(), 1);
    assert_eq!(s(-0.5).round_to_i32(), -1);
    assert_eq!(s(0.49999997).round_to_i32(), 0);
    assert_eq!(s(2.5).round_to_i32(), 3);
    assert_eq!(s(-2.5).round_to_i32(), -3);
    assert_eq!(s(f32::NAN).round_to_i32(), 0);
    assert_eq!(s(f32::INFINITY).round_to_i32(), i32::MAX);
    assert_eq!(s(f32::NEG_INFINITY).round_to_i32(), i32::MIN);
    assert_eq!(s(-2147483648.0).round_to_i32(), i32::MIN);
}

#[test]
fn whole_numbers_agree_with_the_hardware() {
    let mut cases: Vec<i32> = vec![
        0, 1, -1, 2, 3, 8388607, 8388608, 8388609, 16777215, 16777216, 16777217, 16777218,
        16777219, 33554433, 33554434, 33554435, i32::MAX, i32::MIN, i32::MAX - 63, i32::MAX - 64,
        i32::MAX - 65, -16777217, -16777219,
    ];
    let mut x: u32 = 0x9e37_79b9;
    for _ in 0..5000 {
        x ^= x << 13;
        x ^= x >> 17;
        x ^= x << 5;
        cases.push(x as i32);
        cases.push((x >> 7) as i32);
    }
    for n in cases {
        assert_eq!(Scalar::from_i32(n).to_bits(), (n as f32).to_bits(), "{n}");
    }
}

#[test]
fn negation_flips_the_sign() {
    for a in samples() {
        assert_eq!(s(a).neg().to_bits(), (-a).to_bits());
    }
}

#[test]
fn clamp_abs_keeps_within_the_limit() {
    let limits = [0.0f32, 1.0, 0.75, 3.1415927, 100.0, f32::INFINITY];
    for a in samples() {
        for &limit in limits.iter() {
            let r = f32::from_bits(s(a).clamp_abs(s(limit)).to_bits());
            assert!(!r.is_nan());
            assert!(-limit <= r && r <= limit, "{a} clamped to {limit} gave {r}");
            if a.is_nan() {
                assert_eq!(r, limit);
            } else if a < -limit {
                assert_eq!(r, -limit);
            } else if a < limit {
                assert_eq!(r.to_bits(), a.to_bits());
            } else {
                assert_eq!(r, limit);
            }
        }
    }
}

#[test]
fn clamp_abs_exact_values() {
    assert_eq!(s(2.0).clamp_abs(s(1.5)).to_bits(), 1.5f32.to_bits());
    assert_eq!(s(-2.0).clamp_abs(s(1.5)).to_bits(), (-1.5f32).to_bits());
    assert_eq!(s(0.25).clamp_abs(s(1.5)).to_bits(), 0.25f32.to_bits());
    assert_eq!(s(f32::NAN).clamp_abs(s(1.5)).to_bits(), 1.5f32.to_bits());
}

#[test]
fn one_and_zero() {
    assert_eq!(Scalar::one().to_bits(), 1.0f32.to_bits());
    assert_eq!(Scalar::zero().to_bits(), 0.0f32.to_bits());
    assert!(s(f32::NAN).is_nan());
    assert!(!s(f32::INFINITY).is_nan());
    assert!(!s(f32::INFINITY).is_finite());
    assert!(s(f32::MAX).is_finite());
}
