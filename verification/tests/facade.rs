//! The facade path — narrow, apply a single-precision provider, widen —
//! exercised end to end through the verified conversions, with the
//! platform's single-precision operations standing in as the provider.

use bitfloat::narrow::narrow;
use bitfloat::sign::{abs_double, copysign_double};
use bitfloat::widen::widen;

fn to_single(x: f64) -> f32 {
    f32::from_bits(narrow(x.to_bits()))
}

fn to_double(x: f32) -> f64 {
    f64::from_bits(widen(x.to_bits()))
}

fn unary(x: f64, op: impl Fn(f32) -> f32) -> f64 {
    to_double(op(to_single(x)))
}

fn binary(x: f64, y: f64, op: impl Fn(f32, f32) -> f32) -> f64 {
    to_double(op(to_single(x), to_single(y)))
}

/// The facade's `abs` strips the sign exactly and keeps the magnitude
/// that the precision reduction allows.
#[test]
fn abs_strips_sign() {
    let values: [f64; 7] = [0.0, -0.0, 1.0, -1.0, -core::f64::consts::PI, 1e30, -1e30];
    for &x in values.iter() {
        let r = f64::from_bits(abs_double(x.to_bits()));
        assert!(r.is_sign_positive(), "value {x:e}");
        assert_eq!(r, to_double(to_single(x).abs()), "value {x:e}");
        // the result retains no precision beyond the round trip
        assert_eq!(widen(narrow(r.to_bits())), r.to_bits(), "value {x:e}");
    }
    assert!(f64::from_bits(abs_double(f64::NEG_INFINITY.to_bits())) == f64::INFINITY);
}

/// Sign fidelity: `copysign(x, s)` returns the magnitude of `abs(x)`
/// under the sign of `s`, for every finite `x`, a negative zero `s`
/// included.
#[test]
fn copysign_sign_fidelity() {
    let magnitudes: [f64; 5] = [0.0, 1.0, core::f64::consts::PI, 1e-320, 1e30];
    let signs: [f64; 6] = [0.0, -0.0, 2.5, -2.5, f64::INFINITY, f64::NEG_INFINITY];
    for &x in magnitudes.iter() {
        for &s in signs.iter() {
            let r = f64::from_bits(copysign_double(x.to_bits(), s.to_bits()));
            assert_eq!(r.is_sign_negative(), s.is_sign_negative(), "x {x:e} s {s:e}");
            assert_eq!(r.abs(), f64::from_bits(abs_double(x.to_bits())), "x {x:e} s {s:e}");
            assert_eq!(widen(narrow(r.to_bits())), r.to_bits(), "x {x:e} s {s:e}");
        }
    }
}

/// Error-bound conformance: over a grid of each function's documented
/// domain, the facade's result stays within the documented bound of the
/// exact value.
#[test]
fn error_bounds_on_grids() {
    // sin and cos over [0, 2*pi), bound 0.002
    for i in 0..1000 {
        let x = (i as f64) * core::f64::consts::TAU / 1000.0;
        assert!((unary(x, f32::sin) - x.sin()).abs() <= 0.002, "sin at {x}");
        assert!((unary(x, f32::cos) - x.cos()).abs() <= 0.002, "cos at {x}");
    }
    // asin and acos over [-1, 1]
    for i in 0..=1000 {
        let x = -1.0 + (i as f64) / 500.0;
        assert!((unary(x, f32::asin) - x.asin()).abs() <= 0.002, "asin at {x}");
        assert!((unary(x, f32::acos) - x.acos()).abs() <= 0.002, "acos at {x}");
    }
    // atan over a wide range, bound 0.002
    for i in 0..=1000 {
        let x = -50.0 + (i as f64) / 10.0;
        assert!((unary(x, f32::atan) - x.atan()).abs() <= 0.002, "atan at {x}");
    }
    // tan away from its asymptotes, bound 0.6
    for i in 0..=1000 {
        let x = -1.5 + 3.0 * (i as f64) / 1000.0;
        assert!((unary(x, f32::tan) - x.tan()).abs() <= 0.6, "tan at {x}");
    }
}

/// Average-deviation conformance: the mean relative deviation of `inv`,
/// `invsqrt` and `sqrt` over a broad positive sample stays within ~8%,
/// ~5% and ~5%.
#[test]
fn average_deviation_bounds() {
    let mut inv_dev = 0.0f64;
    let mut invsqrt_dev = 0.0f64;
    let mut sqrt_dev = 0.0f64;
    let n = 10_000;
    for i in 1..=n {
        let x = (i as f64) / 100.0;
        inv_dev += ((unary(x, |v| 1.0 / v) - 1.0 / x) / (1.0 / x)).abs();
        invsqrt_dev += ((unary(x, |v| 1.0 / v.sqrt()) - 1.0 / x.sqrt()) / (1.0 / x.sqrt())).abs();
        sqrt_dev += ((unary(x, f32::sqrt) - x.sqrt()) / x.sqrt()).abs();
    }
    assert!(inv_dev / (n as f64) <= 0.08);
    assert!(invsqrt_dev / (n as f64) <= 0.05);
    assert!(sqrt_dev / (n as f64) <= 0.05);
}

/// Euclidean identity: `div_euclid(a, other) * other + rem_euclid(a,
/// other)` approximates `a` within the composed conversion error, and the
/// remainder is never negative.
#[test]
fn euclidean_identity() {
    let dividends: [f64; 6] = [7.5, -7.5, 0.0, 123.25, -0.875, 1000.5];
    let divisors: [f64; 6] = [1.0, -1.0, 2.5, -2.5, 0.125, 11.0];
    for &a in dividends.iter() {
        for &other in divisors.iter() {
            let d = binary(a, other, f32::div_euclid);
            let r = binary(a, other, f32::rem_euclid);
            assert!(r >= 0.0, "a {a} other {other}");
            assert!(r < other.abs(), "a {a} other {other}");
            let err = (d * other + r - a).abs();
            assert!(err <= 1e-3 * (1.0 + a.abs()), "a {a} other {other} err {err}");
        }
    }
}

/// Scenario: the four-quadrant arctangent of (1, 1) is a quarter turn,
/// in radians within 0.002 and on the normalized [0, 4) scale within the
/// equivalent tolerance.
#[test]
fn atan2_quarter_turn() {
    let r = binary(1.0, 1.0, f32::atan2);
    assert!((r - core::f64::consts::FRAC_PI_4).abs() <= 0.002);
    // normalized scale: a quarter turn is 0.5 on [0, 4); 0.1620 degrees
    // of tolerance is 0.0018 on that scale
    let norm = binary(1.0, 1.0, |y, x| {
        let a = y.atan2(x) / core::f32::consts::FRAC_PI_2;
        if a < 0.0 { a + 4.0 } else { a }
    });
    assert!((norm - 0.5).abs() <= 0.0018);
}

/// Scenario: two to the tenth through the facade's integer power.
#[test]
fn powi_two_to_ten() {
    let r = to_double(to_single(2.0).powi(10));
    assert!((r - 1024.0).abs() <= 1e-6);
}
