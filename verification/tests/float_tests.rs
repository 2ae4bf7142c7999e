use bnum::{BUint, Float, FpCategory};

fn f64_bits(x: f64) -> Float {
    Float::from_bits(BUint::from_digit(x.to_bits(), 1), 52)
}

#[test]
fn is_zero() {
    let z1 = f64_bits(0f64);
    let z2 = f64_bits(-0f64);
    assert!(z1.is_zero());
    assert!(z2.is_zero());
    assert!(!f64_bits(1f64).is_zero());
}

#[test]
fn maximum() {
    // black_box keeps the compiler from folding the native min of the two
    // zeros at compile time, where this toolchain picks the other zero than
    // the machine does at run time
    let f1 = std::hint::black_box(0f64);
    let f2 = std::hint::black_box(-0f64);
    let a = f64_bits(f1).min(f64_bits(f2)).to_bits();
    let b = f1.min(f2).to_bits();
    assert!(a == BUint::from_digit(b, 1));
}

#[test]
fn classify_infinite_and_nan() {
    // all exponent bits set, mantissa zero: infinity
    let inf = f64_bits(f64::INFINITY);
    assert_eq!(inf.classify(), FpCategory::Infinite);
    assert!(inf.is_infinite());
    assert!(!inf.is_nan());
    // flipping any mantissa bit while the exponent stays all ones gives NaN
    let low_bit = Float::from_bits(BUint::from_digit(0x7FF0_0000_0000_0001, 1), 52);
    assert_eq!(low_bit.classify(), FpCategory::Nan);
    assert!(low_bit.is_nan());
    let top_bit = Float::from_bits(BUint::from_digit(0x7FF8_0000_0000_0000, 1), 52);
    assert_eq!(top_bit.classify(), FpCategory::Nan);
    assert!(top_bit.is_nan());
}

#[test]
fn classify_matches_native() {
    let samples = [
        0f64,
        -0f64,
        1f64,
        -1.5f64,
        f64::MIN_POSITIVE,
        f64::MIN_POSITIVE / 2.0,
        5e-324f64,
        f64::MAX,
        f64::INFINITY,
        f64::NEG_INFINITY,
        f64::NAN,
    ];
    for &x in samples.iter() {
        let f = f64_bits(x);
        assert_eq!(f.is_nan(), x.is_nan());
        assert_eq!(f.is_infinite(), x.is_infinite());
        assert_eq!(f.is_finite(), x.is_finite());
        assert_eq!(f.is_subnormal(), x.is_subnormal());
        assert_eq!(f.is_normal(), x.is_normal());
        assert_eq!(f.is_sign_negative(), x.is_sign_negative());
        assert_eq!(f.is_sign_positive(), x.is_sign_positive());
        let want = match x.classify() {
            std::num::FpCategory::Nan => FpCategory::Nan,
            std::num::FpCategory::Infinite => FpCategory::Infinite,
            std::num::FpCategory::Zero => FpCategory::Zero,
            std::num::FpCategory::Subnormal => FpCategory::Subnormal,
            std::num::FpCategory::Normal => FpCategory::Normal,
        };
        assert_eq!(f.classify(), want);
    }
}

#[test]
fn quiet_and_signalling_nan() {
    let quiet = Float::from_bits(BUint::from_digit(f64::NAN.to_bits(), 1), 52);
    assert!(quiet.is_quiet_nan());
    assert!(!quiet.is_signalling_nan());
    let signalling = Float::from_bits(BUint::from_digit(0x7FF0_0000_0000_0001, 1), 52);
    assert!(signalling.is_signalling_nan());
    assert!(!signalling.is_quiet_nan());
    assert!(!quiet.is_quiet_indefinite_nan());
    assert!(!f64_bits(1.0).is_quiet_indefinite_nan());
    // an infinity has the exponent all ones and the quiet bit clear, but is
    // no NaN of either kind
    let inf = f64_bits(f64::INFINITY);
    assert!(!inf.is_signalling_nan());
    assert!(!inf.is_quiet_nan());
    assert!(!f64_bits(f64::NEG_INFINITY).is_signalling_nan());
}

#[test]
fn min_max_on_two_nans() {
    // with two NaN operands the check on the first fires and hands back the
    // second, payload and all
    let nan_a = Float::from_bits(BUint::from_digit(0x7FF8_0000_0000_0001, 1), 52);
    let nan_b = Float::from_bits(BUint::from_digit(0x7FF8_0000_0000_0002, 1), 52);
    let m = nan_a.clone().max(nan_b.clone());
    assert!(m.to_bits() == BUint::from_digit(0x7FF8_0000_0000_0002, 1));
    let m = nan_a.clone().min(nan_b.clone());
    assert!(m.to_bits() == BUint::from_digit(0x7FF8_0000_0000_0002, 1));
    let m = nan_b.max(nan_a.clone());
    assert!(m.to_bits() == BUint::from_digit(0x7FF8_0000_0000_0001, 1));
}

#[test]
fn total_cmp_matches_native() {
    let samples = [
        0f64,
        -0f64,
        1f64,
        -1f64,
        2.5f64,
        -2.5f64,
        f64::INFINITY,
        f64::NEG_INFINITY,
        f64::NAN,
        -f64::NAN,
        f64::MIN_POSITIVE / 4.0,
    ];
    for &x in samples.iter() {
        for &y in samples.iter() {
            let fx = f64_bits(x);
            let fy = f64_bits(y);
            assert_eq!(fx.total_cmp(&fy), x.total_cmp(&y), "total_cmp({x}, {y})");
            assert_eq!(fx.partial_cmp(&fy), x.partial_cmp(&y), "partial_cmp({x}, {y})");
            assert_eq!(fx.eq(&fy), x == y, "eq({x}, {y})");
        }
    }
}

#[test]
fn min_max_match_native() {
    let samples = [0f64, -0f64, 1f64, -1f64, f64::INFINITY, f64::NEG_INFINITY, f64::NAN];
    for &x in samples.iter() {
        for &y in samples.iter() {
            let a = f64_bits(x).max(f64_bits(y)).to_bits();
            let b = x.max(y).to_bits();
            assert!(a == BUint::from_digit(b, 1), "max({x}, {y})");
            let a = f64_bits(x).min(f64_bits(y)).to_bits();
            let b = x.min(y).to_bits();
            assert!(a == BUint::from_digit(b, 1), "min({x}, {y})");
            // the total-order variants keep a NaN operand instead of
            // dropping it, and order the rest by total_cmp
            let want_max = if x.is_nan() {
                x
            } else if y.is_nan() {
                y
            } else if x.total_cmp(&y) == std::cmp::Ordering::Less {
                y
            } else {
                x
            };
            let a = f64_bits(x).maximum(f64_bits(y)).to_bits();
            assert!(a == BUint::from_digit(want_max.to_bits(), 1), "maximum({x}, {y})");
            let want_min = if x.is_nan() {
                x
            } else if y.is_nan() {
                y
            } else if x.total_cmp(&y) == std::cmp::Ordering::Greater {
                y
            } else {
                x
            };
            let a = f64_bits(x).minimum(f64_bits(y)).to_bits();
            assert!(a == BUint::from_digit(want_min.to_bits(), 1), "minimum({x}, {y})");
        }
    }
}

#[test]
fn clamp_matches_native() {
    let cases = [
        (1.5f64, 0f64, 1f64),
        (-2.0f64, -1f64, 3f64),
        (0.5f64, 0f64, 1f64),
        (f64::NAN, 0f64, 1f64),
        (f64::NEG_INFINITY, -1f64, 1f64),
    ];
    for &(x, lo, hi) in cases.iter() {
        let a = f64_bits(x).clamp(f64_bits(lo), f64_bits(hi)).to_bits();
        let b = x.clamp(lo, hi).to_bits();
        assert!(a == BUint::from_digit(b, 1), "clamp({x}, {lo}, {hi})");
    }
}

#[test]
fn wider_float_format() {
    // a 128-bit format with 100 mantissa bits: the infinity pattern has the
    // 27 exponent bits set and nothing else
    let exp_ones = ((1u128 << 27) - 1) << 100;
    let inf = Float::from_bits(BUint::from_u128(exp_ones, 2), 100);
    assert_eq!(inf.classify(), FpCategory::Infinite);
    let nan = Float::from_bits(BUint::from_u128(exp_ones | 1, 2), 100);
    assert_eq!(nan.classify(), FpCategory::Nan);
    let sub = Float::from_bits(BUint::from_u128(12345, 2), 100);
    assert_eq!(sub.classify(), FpCategory::Subnormal);
    let zero = Float::from_bits(BUint::from_u128(0, 2), 100);
    assert_eq!(zero.classify(), FpCategory::Zero);
    let normal = Float::from_bits(BUint::from_u128(1u128 << 101, 2), 100);
    assert_eq!(normal.classify(), FpCategory::Normal);
}
