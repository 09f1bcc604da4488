//! Widening conversion: binary32 to binary64.
//!
//! Widening is lossless: every finite binary32 magnitude is exactly
//! representable as a binary64, so no rounding happens.  A normal input
//! keeps its mantissa (zero-extended by 29 bits) and has its exponent
//! re-biased; a subnormal input is normalized, since every positive
//! binary32 subnormal lands in the binary64 normal range; infinities map
//! to infinities and NaN payloads are kept, quieted.

use vstd::prelude::*;

verus! {

use vstd::arithmetic::power2::{
    pow2,
    lemma_pow2_adds,
    lemma_pow2_strictly_increases,
    lemma2_to64,
};
use vstd::arithmetic::mul::{
    lemma_mul_inequality,
    lemma_mul_strict_inequality,
    lemma_mul_is_commutative,
    lemma_mul_is_associative,
    lemma_mul_is_distributive_sub_other_way,
};
use vstd::bits::lemma_u64_shl_is_mul;
use crate::fields::{
    s_sign,
    s_exp,
    s_man,
    s_is_finite,
    s_mag,
    quiet_s,
    d_bits,
    d_sign,
    d_exp,
    d_man,
    d_is_finite,
    d_is_nan,
    d_is_inf,
    d_mag,
    lemma_d_bits_fields,
};

/// Position of the highest set bit of `m`.
pub open spec fn ilog2(m: u32) -> nat
    recommends
        m >= 1,
    decreases m,
{
    if m < 2 {
        0
    } else {
        (ilog2(m / 2) + 1) as nat
    }
}

/// `ilog2(m)` brackets `m` between two neighbouring powers of two.
pub proof fn lemma_ilog2_bounds(m: u32)
    requires
        m >= 1,
    ensures
        pow2(ilog2(m)) <= m < pow2(ilog2(m) + 1),
    decreases m,
{
    lemma2_to64();
    if m >= 2 {
        lemma_ilog2_bounds(m / 2);
        let k = ilog2(m / 2);
        lemma_pow2_adds(k, 1);
        lemma_pow2_adds(k + 1, 1);
    }
}

/// A mantissa field's leading bit is at position 22 or below.
pub proof fn lemma_ilog2_man(m: u32)
    requires
        1 <= m < 0x80_0000,
    ensures
        ilog2(m) <= 22,
        pow2(ilog2(m)) <= m < pow2(ilog2(m) + 1),
{
    lemma_ilog2_bounds(m);
    lemma2_to64();
    if ilog2(m) > 22 {
        if ilog2(m) > 23 {
            lemma_pow2_strictly_increases(23, ilog2(m));
        }
        assert(pow2(23) <= pow2(ilog2(m)));
    }
}

/// The binary64 pattern a binary32 pattern widens to.
pub open spec fn widen_spec(b: u32) -> u64 {
    let sign = s_sign(b);
    let e = s_exp(b);
    let m = s_man(b);
    if e == 0xff {
        if m == 0 {
            d_bits(sign, 0x7ff, 0)
        } else {
            d_bits(sign, 0x7ff, quiet_s(m) * 0x2000_0000)
        }
    } else if e == 0 {
        if m == 0 {
            d_bits(sign, 0, 0)
        } else {
            let k = ilog2(m);
            d_bits(sign, 874 + k as int, (m as int) * pow2((52 - k) as nat) - 0x10_0000_0000_0000)
        }
    } else {
        d_bits(sign, e + 896, m * 0x2000_0000)
    }
}

/// Widen a binary32 bit pattern to the binary64 bit pattern of the same
/// value.  Lossless; a signalling NaN is quieted, its payload kept.
pub fn widen(b: u32) -> (r: u64)
    ensures
        r == widen_spec(b),
{
    proof {
        assert(s_sign(b) <==> b >= 0x8000_0000) by (bit_vector);
    }
    let sign: u64 = if b >= 0x8000_0000 {
        0x8000_0000_0000_0000
    } else {
        0
    };
    let e: u32 = (b / 0x80_0000) % 0x100;
    let m: u32 = b % 0x80_0000;
    if e == 0xff {
        if m == 0 {
            sign + 0x7ff0_0000_0000_0000
        } else {
            let mq: u64 = if m >= 0x40_0000 {
                m as u64
            } else {
                m as u64 + 0x40_0000
            };
            sign + 0x7ff0_0000_0000_0000 + mq * 0x2000_0000
        }
    } else if e == 0 {
        if m == 0 {
            sign
        } else {
            let mut k: u32 = 0;
            let mut t: u32 = m;
            proof {
                lemma_ilog2_man(m);
            }
            while t >= 2
                invariant
                    1 <= t <= m,
                    m < 0x80_0000,
                    ilog2(m) == k + ilog2(t),
                    ilog2(m) <= 22,
                    k <= ilog2(m),
                decreases t,
            {
                proof {
                    assert(ilog2(t) == ilog2(t / 2) + 1);
                }
                t = t / 2;
                k = k + 1;
            }
            assert(ilog2(m) == k) by {
                assert(ilog2(t) == 0);
            }
            let sh: u32 = 52 - k;
            let d: u64 = 1u64 << (sh as u64);
            proof {
                lemma_pow2_le_u64(sh as nat);
                lemma_u64_shl_is_mul(1u64, sh as u64);
                lemma_ilog2_man(m);
                // m * 2^(52 - k) lies in [2^52, 2^53)
                lemma_pow2_adds(k as nat, (52 - k) as nat);
                lemma_pow2_adds((k + 1) as nat, (52 - k) as nat);
                lemma_mul_inequality(pow2(k as nat) as int, m as int, pow2((52 - k) as nat) as int);
                lemma_mul_strict_inequality(
                    m as int,
                    pow2((k + 1) as nat) as int,
                    pow2((52 - k) as nat) as int,
                );
                lemma2_to64_rest_53();
            }
            let m64: u64 = (m as u64) * d - 0x10_0000_0000_0000;
            let r = sign + ((874 + k) as u64) * 0x10_0000_0000_0000 + m64;
            proof {
                assert(r == d_bits(
                    s_sign(b),
                    874 + ilog2(m) as int,
                    (m as int) * pow2((52 - ilog2(m)) as nat) - 0x10_0000_0000_0000,
                ));
            }
            r
        }
    } else {
        sign + ((e as u64) + 896) * 0x10_0000_0000_0000 + (m as u64) * 0x2000_0000
    }
}

/// Helper: `pow2(n)` fits in a `u64` for `n <= 52`.
proof fn lemma_pow2_le_u64(n: nat)
    requires
        n <= 52,
    ensures
        1 * pow2(n) <= u64::MAX,
        pow2(n) >= 1,
{
    lemma2_to64();
    lemma2_to64_rest_53();
    vstd::arithmetic::power2::lemma_pow2_pos(n);
    if n < 52 {
        lemma_pow2_strictly_increases(n, 52);
    }
}

/// Helper: the concrete values of `pow2(52)` and `pow2(53)`.
proof fn lemma2_to64_rest_53()
    ensures
        pow2(52) == 0x10_0000_0000_0000,
        pow2(53) == 0x20_0000_0000_0000,
{
    vstd::arithmetic::power2::lemma2_to64_rest();
}

/// The exponent and mantissa a pattern widens to depend only on the
/// exponent and mantissa of the input, not on its sign.
pub proof fn lemma_widen_magnitude_fields(a: u32, b: u32)
    requires
        s_exp(a) == s_exp(b),
        s_man(a) == s_man(b),
    ensures
        d_exp(widen_spec(a)) == d_exp(widen_spec(b)),
        d_man(widen_spec(a)) == d_man(widen_spec(b)),
{
    let e = s_exp(a);
    let m = s_man(a);
    assert(s_exp(a) < 0x100 && s_man(a) < 0x80_0000) by (bit_vector);
    lemma2_to64();
    lemma2_to64_rest_53();
    if e == 0xff {
        if m == 0 {
            lemma_d_bits_fields(s_sign(a), 0x7ff, 0);
            lemma_d_bits_fields(s_sign(b), 0x7ff, 0);
        } else {
            assert(0 < quiet_s(m) * 0x2000_0000 < 0x10_0000_0000_0000) by {
                assert(1 <= quiet_s(m) < 0x80_0000);
                lemma_mul_inequality(1, quiet_s(m) as int, 0x2000_0000);
                lemma_mul_strict_inequality(quiet_s(m) as int, 0x80_0000, 0x2000_0000);
            }
            lemma_d_bits_fields(s_sign(a), 0x7ff, quiet_s(m) * 0x2000_0000);
            lemma_d_bits_fields(s_sign(b), 0x7ff, quiet_s(m) * 0x2000_0000);
        }
    } else if e == 0 {
        if m == 0 {
            lemma_d_bits_fields(s_sign(a), 0, 0);
            lemma_d_bits_fields(s_sign(b), 0, 0);
        } else {
            let k = ilog2(m);
            lemma_ilog2_man(m);
            let p = pow2((52 - k) as nat);
            lemma_pow2_adds(k as nat, (52 - k) as nat);
            lemma_pow2_adds((k + 1) as nat, (52 - k) as nat);
            lemma_mul_inequality(pow2(k) as int, m as int, p as int);
            lemma_mul_strict_inequality(m as int, pow2((k + 1) as nat) as int, p as int);
            let m64 = (m as int) * p - 0x10_0000_0000_0000;
            lemma_d_bits_fields(s_sign(a), 874 + k as int, m64);
            lemma_d_bits_fields(s_sign(b), 874 + k as int, m64);
        }
    } else {
        assert(0 <= m * 0x2000_0000 < 0x10_0000_0000_0000) by {
            lemma_mul_strict_inequality(m as int, 0x80_0000, 0x2000_0000);
            lemma_mul_is_commutative(m as int, 0x2000_0000);
        }
        lemma_d_bits_fields(s_sign(a), e + 896, m * 0x2000_0000);
        lemma_d_bits_fields(s_sign(b), e + 896, m * 0x2000_0000);
    }
}

/// Widening keeps the sign and the class of its input, and keeps the
/// magnitude of a finite input exactly: a binary32 magnitude unit of
/// 2^-149 is 2^925 binary64 magnitude units of 2^-1074.
pub proof fn lemma_widen_value(b: u32)
    ensures
        d_sign(widen_spec(b)) == s_sign(b),
        s_is_finite(b) ==> d_is_finite(widen_spec(b)) && d_mag(widen_spec(b)) == s_mag(b) * pow2(
            925,
        ),
        crate::fields::s_is_inf(b) ==> d_is_inf(widen_spec(b)),
        crate::fields::s_is_nan(b) ==> d_is_nan(widen_spec(b)),
{
    let sign = s_sign(b);
    let e = s_exp(b);
    let m = s_man(b);
    assert(s_exp(b) < 0x100 && s_man(b) < 0x80_0000) by (bit_vector);
    lemma2_to64();
    lemma2_to64_rest_53();
    if e == 0xff {
        if m == 0 {
            lemma_d_bits_fields(sign, 0x7ff, 0);
        } else {
            assert(0 < quiet_s(m) * 0x2000_0000 < 0x10_0000_0000_0000) by {
                assert(1 <= quiet_s(m) < 0x80_0000);
                lemma_mul_inequality(1, quiet_s(m) as int, 0x2000_0000);
                lemma_mul_strict_inequality(quiet_s(m) as int, 0x80_0000, 0x2000_0000);
            }
            lemma_d_bits_fields(sign, 0x7ff, quiet_s(m) * 0x2000_0000);
        }
    } else if e == 0 {
        if m == 0 {
            lemma_d_bits_fields(sign, 0, 0);
        } else {
            let k = ilog2(m);
            lemma_ilog2_man(m);
            let p = pow2((52 - k) as nat);
            lemma_pow2_adds(k as nat, (52 - k) as nat);
            lemma_pow2_adds((k + 1) as nat, (52 - k) as nat);
            lemma_mul_inequality(pow2(k) as int, m as int, p as int);
            lemma_mul_strict_inequality(m as int, pow2((k + 1) as nat) as int, p as int);
            let m64 = (m as int) * p - 0x10_0000_0000_0000;
            lemma_d_bits_fields(sign, 874 + k as int, m64);
            let r = d_bits(sign, 874 + k as int, m64);
            // d_mag(r) = (2^52 + m64) * pow2(873 + k) = m * 2^(52-k) * 2^(873+k)
            //          = m * 2^925 = s_mag(b) * 2^925
            assert(d_mag(r) == ((m as int) * p) * pow2((873 + k) as nat));
            lemma_mul_is_associative(m as int, p as int, pow2((873 + k) as nat) as int);
            lemma_pow2_adds((52 - k) as nat, (873 + k) as nat);
            assert(d_mag(r) == (m as int) * pow2(925));
        }
    } else {
        assert(0 <= m * 0x2000_0000 < 0x10_0000_0000_0000) by {
            lemma_mul_strict_inequality(m as int, 0x80_0000, 0x2000_0000);
            lemma_mul_is_commutative(m as int, 0x2000_0000);
        }
        lemma_d_bits_fields(sign, e + 896, m * 0x2000_0000);
        let r = d_bits(sign, e + 896, m * 0x2000_0000);
        // d_mag(r) = (2^52 + m * 2^29) * 2^(e + 895)
        //          = (2^23 + m) * 2^29 * 2^(e + 895) = (2^23 + m) * 2^(e + 924)
        //          = (2^23 + m) * 2^(e - 1) * 2^925 = s_mag(b) * 2^925
        assert(d_mag(r) == (0x10_0000_0000_0000 + m * 0x2000_0000) * pow2((e + 895) as nat));
        assert(0x10_0000_0000_0000 + m * 0x2000_0000 == (0x80_0000 + m) * 0x2000_0000) by {
            lemma_mul_is_distributive_sub_other_way(
                0x2000_0000,
                0x80_0000 + m as int,
                m as int,
            );
        }
        lemma_mul_is_associative(
            0x80_0000 + m as int,
            0x2000_0000,
            pow2((e + 895) as nat) as int,
        );
        lemma_pow2_adds(29, (e + 895) as nat);
        assert(d_mag(r) == (0x80_0000 + m as int) * pow2((e + 924) as nat));
        lemma_pow2_adds((e - 1) as nat, 925);
        lemma_mul_is_associative(
            0x80_0000 + m as int,
            pow2((e - 1) as nat) as int,
            pow2(925) as int,
        );
    }
}

} // verus!
