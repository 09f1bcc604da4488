//! The laws the precision-reduction policy obeys.
//!
//! Widening is injective on non-NaN patterns and narrowing undoes it
//! exactly: narrowing after widening is the identity, and widening after
//! narrowing is the identity on every binary64 whose magnitude and
//! mantissa are exactly representable in single precision.  So a value
//! that once passed through the facade passes through every further
//! facade conversion unchanged, and results never carry more precision
//! than one narrow-widen round trip allows.

use vstd::prelude::*;

verus! {

use vstd::arithmetic::power2::{
    pow2,
    lemma_pow2_adds,
    lemma_pow2_unfold,
    lemma_pow2_pos,
    lemma_pow2_strictly_increases,
    lemma2_to64,
    lemma2_to64_rest,
};
use vstd::arithmetic::div_mod::{
    lemma_div_multiples_vanish,
    lemma_div_is_ordered_by_denominator,
    lemma_div_pos_is_pos,
    lemma_fundamental_div_mod,
    lemma_fundamental_div_mod_converse,
};
use vstd::arithmetic::mul::{
    lemma_mul_inequality,
    lemma_mul_strict_inequality,
    lemma_mul_is_commutative,
    lemma_mul_is_associative,
    lemma_mul_is_distributive_add_other_way,
    lemma_mul_is_distributive_sub_other_way,
    lemma_mul_upper_bound,
    lemma_mul_left_inequality,
};
use crate::fields::{
    s_bits,
    s_sign,
    s_exp,
    s_man,
    s_is_nan,
    s_is_finite,
    s_mag,
    quiet_s,
    d_exp,
    d_man,
    d_sign,
    d_is_finite,
    d_mag,
    lemma_s_bits_fields,
    lemma_s_bits_reconstruct,
    lemma_d_bits_fields,
};
use crate::widen::{widen_spec, ilog2, lemma_ilog2_man};
use crate::narrow::{narrow_spec, rne_div, lemma_rne_exact, lemma_rne_bounds, lemma_rne_error};

/// Narrowing undoes widening: every binary32 pattern except a signalling
/// NaN comes back unchanged from the binary64 round trip, and a
/// signalling NaN comes back with only its quiet bit added.
pub proof fn lemma_narrow_widen(s: u32)
    ensures
        !s_is_nan(s) ==> narrow_spec(widen_spec(s)) == s,
        s_is_nan(s) ==> narrow_spec(widen_spec(s)) == s_bits(
            s_sign(s),
            0xff,
            quiet_s(s_man(s)) as int,
        ),
{
    let sign = s_sign(s);
    let e = s_exp(s);
    let m = s_man(s);
    lemma_s_bits_reconstruct(s);
    lemma2_to64();
    lemma2_to64_rest();
    if e == 0xff {
        if m == 0 {
            lemma_d_bits_fields(sign, 0x7ff, 0);
        } else {
            let mq = quiet_s(m);
            assert(0 < mq * 0x2000_0000 < 0x10_0000_0000_0000) by {
                assert(1 <= mq < 0x80_0000);
                lemma_mul_inequality(1, mq as int, 0x2000_0000);
                lemma_mul_strict_inequality(mq as int, 0x80_0000, 0x2000_0000);
            }
            lemma_d_bits_fields(sign, 0x7ff, mq * 0x2000_0000);
            let w = widen_spec(s);
            assert(d_man(w) / 0x2000_0000 == mq) by {
                lemma_mul_is_commutative(mq as int, 0x2000_0000);
                lemma_div_multiples_vanish(mq as int, 0x2000_0000);
            }
            assert(quiet_s(mq) == mq);
        }
    } else if e == 0 {
        if m == 0 {
            lemma_d_bits_fields(sign, 0, 0);
        } else {
            let k = ilog2(m);
            lemma_ilog2_man(m);
            let p = pow2((52 - k) as nat);
            lemma_pow2_adds(k as nat, (52 - k) as nat);
            lemma_pow2_adds((k + 1) as nat, (52 - k) as nat);
            lemma_mul_inequality(pow2(k) as int, m as int, p as int);
            lemma_mul_strict_inequality(m as int, pow2((k + 1) as nat) as int, p as int);
            let m64 = (m as int) * p - 0x10_0000_0000_0000;
            lemma_d_bits_fields(sign, 874 + k as int, m64);
            let w = widen_spec(s);
            // the narrowing branch for exponents 1 through 896 divides by
            // pow2(926 - (874 + k)) == pow2(52 - k), which recovers m exactly
            assert(0x10_0000_0000_0000 + d_man(w) == (m as int) * p);
            lemma_rne_exact(m as int, (52 - k) as nat);
            assert(narrow_spec(w) == s_bits(sign, 0, m as int));
        }
    } else {
        assert(0 <= m * 0x2000_0000 < 0x10_0000_0000_0000) by {
            lemma_mul_strict_inequality(m as int, 0x80_0000, 0x2000_0000);
            lemma_mul_is_commutative(m as int, 0x2000_0000);
        }
        lemma_d_bits_fields(sign, e + 896, m * 0x2000_0000);
        let w = widen_spec(s);
        assert(0x10_0000_0000_0000 + d_man(w) == (0x80_0000 + m as int) * 0x2000_0000) by {
            lemma_mul_is_distributive_add_other_way(0x2000_0000, 0x80_0000, m as int);
        }
        lemma_rne_exact(0x80_0000 + m as int, 29);
        assert(rne_div(0x10_0000_0000_0000 + d_man(w) as int, 29) == 0x80_0000 + m);
        assert(narrow_spec(w) == s_bits(sign, e as int, m as int));
    }
}

/// A binary64 pattern whose magnitude and mantissa are exactly
/// representable in single precision: the widening of some non-NaN
/// binary32 pattern.
pub open spec fn single_representable(b: u64) -> bool {
    exists|s: u32| !s_is_nan(s) && widen_spec(s) == b
}

/// Round-trip idempotence of precision reduction: on every binary64
/// pattern that is exactly representable in single precision,
/// narrow-then-widen is a no-op.
pub proof fn lemma_widen_narrow_roundtrip(b: u64)
    requires
        single_representable(b),
    ensures
        widen_spec(narrow_spec(b)) == b,
{
    let s = choose|s: u32| !s_is_nan(s) && widen_spec(s) == b;
    lemma_narrow_widen(s);
}

/// A binary32 pattern whose round trip through binary64 is the identity:
/// everything but a signalling NaN.
pub proof fn lemma_quiet_round_trip(t: u32)
    requires
        !s_is_nan(t) || s_man(t) >= 0x40_0000,
    ensures
        narrow_spec(widen_spec(t)) == t,
{
    lemma_narrow_widen(t);
    if s_is_nan(t) {
        lemma_s_bits_reconstruct(t);
    }
}

/// The facade never retains extra precision: the result of each exact
/// facade operation passes through a further narrow-widen round trip
/// unchanged.
pub proof fn lemma_results_keep_no_precision(x: u64, s: u64)
    ensures
        widen_spec(narrow_spec(crate::sign::abs_double_spec(x))) == crate::sign::abs_double_spec(
            x,
        ),
        widen_spec(narrow_spec(crate::sign::copysign_double_spec(x, s)))
            == crate::sign::copysign_double_spec(x, s),
{
    let nx = narrow_spec(x);
    let ns = narrow_spec(s);
    crate::narrow::lemma_narrow_class(x);
    crate::narrow::lemma_narrow_class(s);
    lemma_s_bits_reconstruct(nx);
    // the stripped pattern keeps the exponent and mantissa of nx
    let a = crate::sign::abs_single_spec(nx);
    assert(s_exp(nx % 0x8000_0000) == s_exp(nx) && s_man(nx % 0x8000_0000) == s_man(nx))
        by (bit_vector);
    lemma_quiet_round_trip(a);
    // the sign-transfer pattern keeps the exponent and mantissa of nx
    let c = crate::sign::copysign_single_spec(nx, ns);
    lemma_s_bits_fields(s_sign(ns), s_exp(nx) as int, s_man(nx) as int);
    lemma_quiet_round_trip(c);
}

/// The spacing of the binary32 grid around a finite binary64 magnitude,
/// in binary64 magnitude units: one smallest subnormal over the
/// subnormal range, one unit in the last place within each normal
/// binade.
pub open spec fn narrow_step(b: u64) -> int
    recommends
        d_is_finite(b),
{
    if d_exp(b) <= 896 {
        pow2(925) as int
    } else {
        pow2((d_exp(b) + 28) as nat) as int
    }
}

/// Scaling an error bound by a positive factor keeps it, and a scaled
/// error sits exactly on the bound only where the unscaled one does.
proof fn lemma_scale_error(qd: int, sig: int, d: int, p: int)
    requires
        2 * (qd - sig) <= d,
        2 * (sig - qd) <= d,
        p > 0,
    ensures
        2 * (qd * p - sig * p) <= d * p,
        2 * (sig * p - qd * p) <= d * p,
        2 * (qd * p - sig * p) == d * p ==> 2 * (qd - sig) == d,
        2 * (sig * p - qd * p) == d * p ==> 2 * (sig - qd) == d,
{
    lemma_mul_inequality(2 * (qd - sig), d, p);
    lemma_mul_inequality(2 * (sig - qd), d, p);
    lemma_mul_is_associative(2, qd - sig, p);
    lemma_mul_is_associative(2, sig - qd, p);
    lemma_mul_is_distributive_sub_other_way(p, qd, sig);
    lemma_mul_is_distributive_sub_other_way(p, sig, qd);
    if 2 * (qd - sig) < d {
        lemma_mul_strict_inequality(2 * (qd - sig), d, p);
    }
    if 2 * (sig - qd) < d {
        lemma_mul_strict_inequality(2 * (sig - qd), d, p);
    }
}

/// Error-bound conformance of the conversion itself: whenever narrowing
/// a finite binary64 gives a finite binary32, the magnitude moves by at
/// most half a binary32 grid step, and by exactly half a step only onto
/// an even mantissa.
pub proof fn lemma_narrow_error(b: u64)
    requires
        d_is_finite(b),
        s_is_finite(narrow_spec(b)),
    ensures
        2 * (s_mag(narrow_spec(b)) * pow2(925) - d_mag(b)) <= narrow_step(b),
        2 * (d_mag(b) - s_mag(narrow_spec(b)) * pow2(925)) <= narrow_step(b),
        2 * (s_mag(narrow_spec(b)) * pow2(925) - d_mag(b)) == narrow_step(b) ==> s_man(
            narrow_spec(b),
        ) % 2 == 0,
        2 * (d_mag(b) - s_mag(narrow_spec(b)) * pow2(925)) == narrow_step(b) ==> s_man(
            narrow_spec(b),
        ) % 2 == 0,
{
    let sign = d_sign(b);
    let e = d_exp(b);
    let m = d_man(b);
    let r = narrow_spec(b);
    assert((b / 0x10_0000_0000_0000) % 0x800 < 0x800 && b % 0x10_0000_0000_0000
        < 0x10_0000_0000_0000) by (bit_vector);
    lemma2_to64();
    lemma2_to64_rest();
    if e == 0 {
        // a binary64 subnormal: rounds to zero, and sits below half the
        // smallest binary32 subnormal
        lemma_s_bits_fields(sign, 0, 0);
        lemma_pow2_strictly_increases(53, 925);
        assert(s_mag(r) == 0);
        assert(s_mag(r) * pow2(925) == 0) by (nonlinear_arith)
            requires
                s_mag(r) == 0,
        ;
    } else if e <= 896 {
        let sig = 0x10_0000_0000_0000 + m as int;
        let sh = (926 - e) as nat;
        let q = rne_div(sig, sh);
        lemma_rne_bounds(sig, sh);
        lemma_pow2_pos(sh);
        if 30 < sh {
            lemma_pow2_strictly_increases(30, sh);
        }
        lemma_div_is_ordered_by_denominator(sig, 0x4000_0000, pow2(sh) as int);
        assert((0x10_0000_0000_0000 + m) / 0x4000_0000 < 0x80_0000) by (bit_vector)
            requires
                m < 0x10_0000_0000_0000,
        ;
        lemma_div_pos_is_pos(sig, pow2(sh) as int);
        if q == 0x80_0000 {
            lemma_s_bits_fields(sign, 1, 0);
            assert(s_mag(r) == q);
        } else {
            lemma_s_bits_fields(sign, 0, q);
            assert(s_mag(r) == q);
        }
        let p = pow2((e - 1) as nat) as int;
        lemma_pow2_pos((e - 1) as nat);
        lemma_rne_error(sig, sh);
        lemma_scale_error(q * pow2(sh), sig, pow2(sh) as int, p);
        lemma_mul_is_associative(q, pow2(sh) as int, p);
        lemma_pow2_adds(sh, (e - 1) as nat);
        assert(s_mag(r) * pow2(925) == (q * pow2(sh)) * p);
        assert(pow2(sh) as int * p == pow2(925));
        assert(d_mag(b) == sig * p);
    } else {
        let sig = 0x10_0000_0000_0000 + m as int;
        let q = rne_div(sig, 29);
        lemma_rne_bounds(sig, 29);
        assert((0x10_0000_0000_0000 + m) / 0x2000_0000 >= 0x80_0000 && (0x10_0000_0000_0000 + m)
            / 0x2000_0000 < 0x100_0000)
            by (bit_vector)
            requires
                m < 0x10_0000_0000_0000,
        ;
        if q == 0x100_0000 {
            if e - 895 >= 0xff {
                lemma_s_bits_fields(sign, 0xff, 0);
                assert(false);
            } else {
                lemma_s_bits_fields(sign, e - 895, 0);
                // 2^23 * 2^(e - 896) is 2^24 * 2^(e - 897)
                lemma_pow2_unfold((e - 896) as nat);
                lemma_mul_is_associative(0x80_0000, 2, pow2((e - 897) as nat) as int);
                assert(s_mag(r) == q * pow2((e - 897) as nat));
            }
        } else {
            if e - 896 >= 0xff {
                lemma_s_bits_fields(sign, 0xff, 0);
                assert(false);
            } else {
                lemma_s_bits_fields(sign, e - 896, q - 0x80_0000);
                assert(s_mag(r) == q * pow2((e - 897) as nat));
                assert(q % 2 == 0 ==> (q - 0x80_0000) % 2 == 0) by {
                    if q % 2 == 0 {
                        lemma_fundamental_div_mod(q, 2);
                        vstd::arithmetic::div_mod::lemma_mod_multiples_basic(
                            q / 2 - 0x40_0000,
                            2,
                        );
                    }
                }
            }
        }
        let p = pow2((e - 1) as nat) as int;
        lemma_pow2_pos((e - 1) as nat);
        lemma_rne_error(sig, 29);
        lemma_scale_error(q * pow2(29), sig, pow2(29) as int, p);
        lemma_mul_is_associative(q, pow2(29) as int, p);
        lemma_pow2_adds(29, (e - 1) as nat);
        lemma_mul_is_associative(q, pow2((e - 897) as nat) as int, pow2(925) as int);
        lemma_pow2_adds((e - 897) as nat, 925);
        assert(s_mag(r) * pow2(925) == q * pow2((e + 28) as nat));
        assert((q * pow2(29)) * p == q * pow2((e + 28) as nat));
        assert(pow2(29) as int * p == pow2((e + 28) as nat));
        assert(d_mag(b) == sig * p);
    }
}

/// When narrowing owes a finite answer: a finite binary64 narrows to a
/// finite binary32 exactly when its magnitude lies below the midpoint
/// between the largest finite binary32 and the next grid point — the
/// point from which round-to-nearest-even carries into infinity.
pub proof fn lemma_narrow_finite(b: u64)
    requires
        d_is_finite(b),
    ensures
        s_is_finite(narrow_spec(b)) <==> d_mag(b) < (0x200_0000 - 1) * pow2(1177),
{
    let sign = d_sign(b);
    let e = d_exp(b);
    let m = d_man(b);
    let r = narrow_spec(b);
    let t = (0x200_0000 - 1) * pow2(1177) as int;
    assert((b / 0x10_0000_0000_0000) % 0x800 < 0x800 && b % 0x10_0000_0000_0000
        < 0x10_0000_0000_0000) by (bit_vector);
    lemma2_to64();
    lemma2_to64_rest();
    lemma_pow2_pos(1177);
    assert((pow2(1177) as int) <= t) by {
        lemma_mul_inequality(1, 0x200_0000 - 1, pow2(1177) as int);
    }
    if e == 0 {
        lemma_s_bits_fields(sign, 0, 0);
        lemma_pow2_strictly_increases(52, 1177);
    } else if e <= 896 {
        let sig = 0x10_0000_0000_0000 + m as int;
        let sh = (926 - e) as nat;
        let q = rne_div(sig, sh);
        lemma_rne_bounds(sig, sh);
        lemma_pow2_pos(sh);
        if 30 < sh {
            lemma_pow2_strictly_increases(30, sh);
        }
        lemma_div_is_ordered_by_denominator(sig, 0x4000_0000, pow2(sh) as int);
        assert((0x10_0000_0000_0000 + m) / 0x4000_0000 < 0x80_0000) by (bit_vector)
            requires
                m < 0x10_0000_0000_0000,
        ;
        lemma_div_pos_is_pos(sig, pow2(sh) as int);
        if q == 0x80_0000 {
            lemma_s_bits_fields(sign, 1, 0);
        } else {
            lemma_s_bits_fields(sign, 0, q);
        }
        // the magnitude is far below the threshold
        lemma_pow2_pos((e - 1) as nat);
        if e < 896 {
            lemma_pow2_strictly_increases((e - 1) as nat, 895);
        }
        lemma_mul_upper_bound(sig, 0x20_0000_0000_0000 - 1, pow2((e - 1) as nat) as int, pow2(895) as int);
        lemma_pow2_adds(53, 895);
        lemma_mul_inequality(0x20_0000_0000_0000 - 1, 0x20_0000_0000_0000, pow2(895) as int);
        lemma_pow2_strictly_increases(948, 1177);
        assert(0x20_0000_0000_0000 * pow2(895) == pow2(948) as int);
    } else {
        let sig = 0x10_0000_0000_0000 + m as int;
        let q = rne_div(sig, 29);
        let q0 = sig / 0x2000_0000;
        let rem = sig % 0x2000_0000;
        lemma_fundamental_div_mod(sig, 0x2000_0000);
        vstd::arithmetic::div_mod::lemma_mod_bound(sig, 0x2000_0000);
        assert((0x10_0000_0000_0000 + m) / 0x2000_0000 >= 0x80_0000 && (0x10_0000_0000_0000 + m)
            / 0x2000_0000 < 0x100_0000)
            by (bit_vector)
            requires
                m < 0x10_0000_0000_0000,
        ;
        let p = pow2((e - 1) as nat) as int;
        lemma_pow2_pos((e - 1) as nat);
        // the rounded significand carries to 2^24 exactly from
        // 2^53 - 2^28 upward
        assert(q == 0x100_0000 <==> sig >= 0x1f_ffff_f000_0000) by {
            if q == 0x100_0000 {
                assert(q0 == 0xff_ffff);
                assert(2 * rem >= 0x2000_0000);
            }
            if sig >= 0x1f_ffff_f000_0000 {
                lemma_fundamental_div_mod_converse(
                    sig,
                    0x2000_0000,
                    0xff_ffff,
                    sig - 0x1f_ffff_e000_0000,
                );
                assert(q0 == 0xff_ffff && 2 * rem >= 0x2000_0000);
            }
        }
        if e >= 1151 {
            // infinite on both paths, and the magnitude is above the
            // threshold
            lemma_s_bits_fields(sign, 0xff, 0);
            lemma_mul_inequality(0x10_0000_0000_0000, sig, p);
            if e > 1151 {
                lemma_pow2_strictly_increases(1150, (e - 1) as nat);
            }
            assert((pow2(1150) as int) <= p);
            lemma_mul_left_inequality(0x10_0000_0000_0000, pow2(1150) as int, p);
            lemma_pow2_adds(52, 1150);
            lemma_pow2_adds(25, 1177);
            assert(0x10_0000_0000_0000 * pow2(1150) == pow2(1202) as int);
            assert(t < (pow2(1202) as int)) by {
                lemma_mul_strict_inequality(0x200_0000 - 1, 0x200_0000, pow2(1177) as int);
                assert(0x200_0000 * pow2(1177) == pow2(1202) as int);
            }
        } else if e <= 1149 {
            // finite on both paths, and the magnitude is below the
            // threshold
            if q == 0x100_0000 {
                lemma_s_bits_fields(sign, e - 895, 0);
            } else {
                lemma_s_bits_fields(sign, e - 896, q - 0x80_0000);
            }
            if e < 1149 {
                lemma_pow2_strictly_increases((e - 1) as nat, 1148);
            }
            lemma_mul_upper_bound(sig, 0x20_0000_0000_0000 - 1, p, pow2(1148) as int);
            lemma_mul_inequality(0x20_0000_0000_0000 - 1, 0x20_0000_0000_0000, pow2(1148) as int);
            lemma_pow2_adds(53, 1148);
            lemma_pow2_adds(24, 1177);
            assert(0x20_0000_0000_0000 * pow2(1148) == pow2(1201) as int);
            assert((pow2(1201) as int) < t) by {
                lemma_mul_strict_inequality(0x100_0000, 0x200_0000 - 1, pow2(1177) as int);
                assert(0x100_0000 * pow2(1177) == pow2(1201) as int);
            }
        } else {
            // e == 1150: infinity exactly when the carry fires
            lemma_pow2_adds(28, 1149);
            assert(t == 0x1f_ffff_f000_0000 * pow2(1149)) by {
                lemma_mul_is_associative(0x200_0000 - 1, 0x1000_0000, pow2(1149) as int);
            }
            if q == 0x100_0000 {
                lemma_s_bits_fields(sign, 0xff, 0);
                lemma_mul_inequality(0x1f_ffff_f000_0000, sig, p);
            } else {
                lemma_s_bits_fields(sign, e - 896, q - 0x80_0000);
                lemma_mul_strict_inequality(sig, 0x1f_ffff_f000_0000, p);
            }
        }
    }
}

} // verus!
