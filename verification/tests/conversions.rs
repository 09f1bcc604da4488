//! The verified conversions against the machine's own ones.

use bitfloat::narrow::narrow;
use bitfloat::widen::widen;

/// `widen` agrees with the hardware widening cast on every class of
/// non-NaN input.
#[test]
fn widen_matches_hardware() {
    let patterns: [u32; 16] = [
        0x0000_0000, // +0
        0x8000_0000, // -0
        0x0000_0001, // smallest subnormal
        0x8000_0001,
        0x0000_7fff, // subnormal, several leading zeros
        0x007f_ffff, // largest subnormal
        0x807f_ffff,
        0x0080_0000, // smallest normal
        0x3f80_0000, // 1.0
        0xbf80_0000, // -1.0
        0x4049_0fdb, // pi
        0x7f7f_ffff, // largest finite
        0xff7f_ffff,
        0x7f80_0000, // +inf
        0xff80_0000, // -inf
        0x3f80_0001, // 1.0 + one ulp
    ];
    for &b in patterns.iter() {
        let expected = (f32::from_bits(b) as f64).to_bits();
        assert_eq!(widen(b), expected, "pattern {b:#010x}");
    }
}

/// `widen` agrees with the hardware cast over a pseudo-random sweep of
/// non-NaN patterns.
#[test]
fn widen_matches_hardware_sweep() {
    let mut state: u64 = 0x9e37_79b9_7f4a_7c15;
    for _ in 0..200_000 {
        state = state.wrapping_mul(6364136223846793005).wrapping_add(1442695040888963407);
        let b = (state >> 32) as u32;
        if f32::from_bits(b).is_nan() {
            continue;
        }
        let expected = (f32::from_bits(b) as f64).to_bits();
        assert_eq!(widen(b), expected, "pattern {b:#010x}");
    }
}

/// `narrow` agrees with the hardware narrowing cast on handpicked
/// rounding cases: exact values, round down, round up, ties to even in
/// both directions, overflow to infinity, underflow to zero, and
/// subnormal results.
#[test]
fn narrow_matches_hardware() {
    let values: [f64; 22] = [
        0.0,
        -0.0,
        1.0,
        -1.0,
        1.5,
        core::f64::consts::PI,
        -core::f64::consts::PI,
        1.0 + (2f64).powi(-23), // exactly representable in single precision
        1.0 + (2f64).powi(-24), // tie between 1.0 and the next single: to even (1.0)
        1.0 + 3.0 * (2f64).powi(-24), // tie: to even (up)
        1.0 + (2f64).powi(-25), // below the tie: down
        1.0 + 3.0 * (2f64).powi(-25), // above the tie: up
        3.4028234663852886e38,  // largest finite single
        3.4028235e38,
        3.4028236e38,           // rounds to infinity
        -3.4028236e38,
        1e39,                   // far beyond the single range
        1e-45,                  // near the smallest subnormal
        2f64.powi(-150),        // exactly half the smallest subnormal: tie to zero
        7.1e-46,                // just above the tie: up to the smallest subnormal
        1e-300,                 // deep in the range that rounds to zero
        -1e-320,                // a binary64 subnormal
    ];
    for &x in values.iter() {
        let expected = (x as f32).to_bits();
        assert_eq!(narrow(x.to_bits()), expected, "value {x:e}");
    }
}

/// `narrow` agrees with the hardware cast over a pseudo-random sweep of
/// non-NaN patterns.
#[test]
fn narrow_matches_hardware_sweep() {
    let mut state: u64 = 0x2545_f491_4f6c_dd1d;
    for _ in 0..200_000 {
        state = state.wrapping_mul(6364136223846793005).wrapping_add(1442695040888963407);
        let b = state;
        if f64::from_bits(b).is_nan() {
            continue;
        }
        let expected = (f64::from_bits(b) as f32).to_bits();
        assert_eq!(narrow(b), expected, "pattern {b:#018x}");
    }
}

/// Round-trip idempotence of precision reduction: narrowing a double
/// whose magnitude and mantissa are exactly representable in single
/// precision, then widening, is a no-op; and narrowing after widening
/// returns every non-NaN single unchanged.
#[test]
fn round_trip_is_identity() {
    let patterns: [u32; 10] = [
        0x0000_0000,
        0x8000_0000,
        0x0000_0001,
        0x007f_ffff,
        0x0080_0000,
        0x3f80_0000,
        0xbf80_0000,
        0x7f7f_ffff,
        0x7f80_0000,
        0xff80_0000,
    ];
    for &s in patterns.iter() {
        assert_eq!(narrow(widen(s)), s, "single pattern {s:#010x}");
        let d = widen(s);
        assert_eq!(widen(narrow(d)), d, "double pattern {d:#018x}");
    }
    // a double that is not single-representable is changed by the trip
    let x: f64 = 1.0 + (2f64).powi(-40);
    assert_ne!(f64::from_bits(widen(narrow(x.to_bits()))), x);
}

/// The overflow threshold sits exactly at the midpoint between the
/// largest finite single and the next grid point: the midpoint itself
/// carries to infinity (ties to even), one step below stays finite.
#[test]
fn narrow_overflow_boundary() {
    let midpoint: f64 = 33554431.0 * 2f64.powi(103); // (2^25 - 1) * 2^103
    assert_eq!(narrow(midpoint.to_bits()), f32::INFINITY.to_bits());
    assert_eq!(narrow((-midpoint).to_bits()), f32::NEG_INFINITY.to_bits());
    let below: f64 = midpoint - 2f64.powi(75); // one binary64 ulp below
    assert_eq!(narrow(below.to_bits()), f32::MAX.to_bits());
}

/// A quiet NaN keeps its payload through both conversions; a signalling
/// NaN is quieted.
#[test]
fn nan_payloads() {
    let qnan: u32 = 0x7fc0_1234;
    assert_eq!(narrow(widen(qnan)), qnan);
    assert!(f64::from_bits(widen(qnan)).is_nan());
    let snan: u32 = 0x7f80_1234;
    assert_eq!(narrow(widen(snan)), snan | 0x0040_0000);
    let dnan: u64 = 0x7ff8_0000_0000_0001;
    assert!(f32::from_bits(narrow(dnan)).is_nan());
}
