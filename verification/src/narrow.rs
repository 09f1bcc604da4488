//! Narrowing conversion: binary64 to binary32.
//!
//! Narrowing is the lossy half of the precision-reduction policy.  A
//! finite binary64 magnitude is rounded to the binary32 grid by round to
//! nearest, ties to even; magnitudes beyond the largest binary32 round to
//! infinity, and every binary64 subnormal is far below half the smallest
//! positive binary32 subnormal, so it rounds to zero of the same sign.
//! Infinities map to infinities; NaN payloads are truncated and quieted.

use vstd::prelude::*;

verus! {

use vstd::arithmetic::power2::{
    pow2,
    lemma_pow2_unfold,
    lemma_pow2_strictly_increases,
    lemma_pow2_pos,
    lemma2_to64,
    lemma2_to64_rest,
};
use vstd::arithmetic::div_mod::{
    lemma_fundamental_div_mod,
    lemma_div_multiples_vanish,
    lemma_mod_multiples_basic,
    lemma_div_is_ordered_by_denominator,
    lemma_div_nonincreasing,
    lemma_div_pos_is_pos,
};
use vstd::arithmetic::mul::{
    lemma_mul_is_commutative,
    lemma_mul_is_distributive_add_other_way,
};
use vstd::bits::lemma_u64_shl_is_mul;
use crate::fields::{
    s_bits,
    s_sign,
    s_man,
    s_is_nan,
    s_is_inf,
    quiet_s,
    d_sign,
    d_exp,
    d_man,
    d_is_nan,
    d_is_inf,
    lemma_s_bits_fields,
};

/// Quotient of `n / pow2(sh)`, rounded to the nearest integer with ties
/// going to the even neighbour.
pub open spec fn rne_div(n: int, sh: nat) -> int
    recommends
        n >= 0,
        sh >= 1,
{
    let d = pow2(sh) as int;
    let q = n / d;
    let r = n % d;
    if 2 * r < d {
        q
    } else if 2 * r > d {
        q + 1
    } else if q % 2 == 0 {
        q
    } else {
        q + 1
    }
}

/// Rounding a multiple of `pow2(sh)` is exact.
pub proof fn lemma_rne_exact(a: int, sh: nat)
    requires
        sh >= 1,
    ensures
        rne_div(a * pow2(sh), sh) == a,
{
    let d = pow2(sh) as int;
    lemma_pow2_pos(sh);
    lemma_pow2_unfold(sh);
    lemma_pow2_pos((sh - 1) as nat);
    lemma_mod_multiples_basic(a, d);
    lemma_mul_is_commutative(a, d);
    lemma_div_multiples_vanish(a, d);
}

/// The rounded quotient is the floored quotient or its successor.
pub proof fn lemma_rne_bounds(n: int, sh: nat)
    requires
        sh >= 1,
    ensures
        n / pow2(sh) as int <= rne_div(n, sh) <= n / pow2(sh) as int + 1,
{
    lemma_pow2_pos(sh);
}

/// A magnitude below half of `pow2(sh)` rounds to zero.
pub proof fn lemma_rne_zero(n: int, sh: nat)
    requires
        sh >= 1,
        0 <= 2 * n < pow2(sh),
    ensures
        rne_div(n, sh) == 0,
{
    let d = pow2(sh) as int;
    lemma_pow2_pos(sh);
    vstd::arithmetic::div_mod::lemma_basic_div(n, d);
    vstd::arithmetic::div_mod::lemma_small_mod(n as nat, d as nat);
}

/// Rounding moves the value by at most half a grid step, and by exactly
/// half a step only onto an even neighbour.
pub proof fn lemma_rne_error(n: int, sh: nat)
    requires
        sh >= 1,
    ensures
        2 * (rne_div(n, sh) * pow2(sh) - n) <= pow2(sh),
        2 * (n - rne_div(n, sh) * pow2(sh)) <= pow2(sh),
        2 * (rne_div(n, sh) * pow2(sh) - n) == pow2(sh) ==> rne_div(n, sh) % 2 == 0,
        2 * (n - rne_div(n, sh) * pow2(sh)) == pow2(sh) ==> rne_div(n, sh) % 2 == 0,
{
    let d = pow2(sh) as int;
    lemma_pow2_pos(sh);
    let q = n / d;
    let r = n % d;
    let rd = rne_div(n, sh);
    lemma_fundamental_div_mod(n, d);
    vstd::arithmetic::div_mod::lemma_mod_bound(n, d);
    lemma_mul_is_commutative(q, d);
    assert(q * d == n - r);
    if rd == q {
        assert(rd * d - n == -r);
    } else {
        assert(rd == q + 1);
        assert(2 * r >= d);
        lemma_mul_is_distributive_add_other_way(d, q, 1);
        lemma_mul_is_commutative(q + 1, d);
        assert(rd * d == q * d + 1 * d);
        assert(rd * d - n == d - r);
    }
    if 2 * r == d && q % 2 != 0 {
        assert((q + 1) % 2 == 0) by {
            lemma_fundamental_div_mod(q, 2);
            lemma_fundamental_div_mod(q + 1, 2);
        }
    }
}

/// The binary32 pattern a binary64 pattern narrows to.
pub open spec fn narrow_spec(b: u64) -> u32 {
    let sign = d_sign(b);
    let e = d_exp(b);
    let m = d_man(b);
    if e == 0x7ff {
        if m == 0 {
            s_bits(sign, 0xff, 0)
        } else {
            s_bits(sign, 0xff, quiet_s((m / 0x2000_0000) as u32) as int)
        }
    } else if e == 0 {
        s_bits(sign, 0, 0)
    } else if e >= 897 {
        let q = rne_div(0x10_0000_0000_0000 + m, 29);
        if q == 0x100_0000 {
            if e - 895 >= 0xff {
                s_bits(sign, 0xff, 0)
            } else {
                s_bits(sign, e - 895, 0)
            }
        } else {
            if e - 896 >= 0xff {
                s_bits(sign, 0xff, 0)
            } else {
                s_bits(sign, e - 896, q - 0x80_0000)
            }
        }
    } else {
        let q = rne_div(0x10_0000_0000_0000 + m, (926 - e) as nat);
        if q == 0x80_0000 {
            s_bits(sign, 1, 0)
        } else {
            s_bits(sign, 0, q)
        }
    }
}

/// Round-to-nearest-even division by `pow2(sh)`, executably.
fn rne_shift(n: u64, sh: u64) -> (q: u64)
    requires
        1 <= sh <= 53,
        n < 0x20_0000_0000_0000,
    ensures
        q == rne_div(n as int, sh as nat),
{
    proof {
        lemma2_to64();
        lemma2_to64_rest();
        if sh < 53 {
            lemma_pow2_strictly_increases(sh as nat, 53);
        }
        lemma_u64_shl_is_mul(1u64, sh);
        lemma_pow2_unfold(sh as nat);
        lemma_pow2_pos((sh - 1) as nat);
        lemma_div_nonincreasing(n as int, pow2(sh as nat) as int);
    }
    let d: u64 = 1u64 << sh;
    let q0: u64 = n / d;
    let r: u64 = n % d;
    let h: u64 = d / 2;
    if r < h {
        q0
    } else if r > h {
        q0 + 1
    } else if q0 % 2 == 0 {
        q0
    } else {
        q0 + 1
    }
}

/// Narrow a binary64 bit pattern to the nearest binary32 bit pattern,
/// rounding to nearest with ties to even.  The sign is kept in every
/// case; magnitudes beyond the binary32 range round to infinity, binary64
/// subnormals round to zero, and a NaN stays a NaN with its payload
/// truncated and quieted.
pub fn narrow(b: u64) -> (r: u32)
    ensures
        r == narrow_spec(b),
{
    proof {
        assert(d_sign(b) <==> b >= 0x8000_0000_0000_0000) by (bit_vector);
        assert((b / 0x10_0000_0000_0000) % 0x800 < 0x800 && b % 0x10_0000_0000_0000
            < 0x10_0000_0000_0000) by (bit_vector);
        lemma2_to64();
    }
    let sign: u32 = if b >= 0x8000_0000_0000_0000 {
        0x8000_0000
    } else {
        0
    };
    let e: u64 = (b / 0x10_0000_0000_0000) % 0x800;
    let m: u64 = b % 0x10_0000_0000_0000;
    if e == 0x7ff {
        if m == 0 {
            sign + 0x7f80_0000
        } else {
            let t: u64 = m / 0x2000_0000;
            proof {
                assert(m / 0x2000_0000 < 0x80_0000) by (bit_vector)
                    requires
                        m < 0x10_0000_0000_0000,
                ;
            }
            let tq: u32 = if t >= 0x40_0000 {
                t as u32
            } else {
                (t as u32) + 0x40_0000
            };
            sign + 0x7f80_0000 + tq
        }
    } else if e == 0 {
        sign
    } else if e >= 897 {
        let sig: u64 = 0x10_0000_0000_0000 + m;
        let q: u64 = rne_shift(sig, 29);
        proof {
            lemma_rne_bounds(sig as int, 29);
            assert(sig / 0x2000_0000 >= 0x80_0000 && sig / 0x2000_0000 < 0x100_0000)
                by (bit_vector)
                requires
                    0x10_0000_0000_0000 <= sig < 0x20_0000_0000_0000,
            ;
        }
        if q == 0x100_0000 {
            if e - 895 >= 0xff {
                sign + 0x7f80_0000
            } else {
                sign + ((e - 895) as u32) * 0x80_0000
            }
        } else {
            if e - 896 >= 0xff {
                sign + 0x7f80_0000
            } else {
                sign + ((e - 896) as u32) * 0x80_0000 + (q as u32 - 0x80_0000)
            }
        }
    } else {
        let sig: u64 = 0x10_0000_0000_0000 + m;
        let sh: u64 = 926 - e;
        let q: u64 = if sh > 53 {
            proof {
                lemma2_to64_rest();
                if sh > 54 {
                    lemma_pow2_strictly_increases(54, sh as nat);
                }
                lemma_rne_zero(sig as int, sh as nat);
            }
            0
        } else {
            rne_shift(sig, sh)
        };
        proof {
            if sh <= 53 {
                lemma_rne_bounds(sig as int, sh as nat);
                lemma_pow2_pos(sh as nat);
                lemma2_to64();
                if 30 < sh {
                    lemma_pow2_strictly_increases(30, sh as nat);
                }
                lemma_div_is_ordered_by_denominator(sig as int, 0x4000_0000, pow2(sh as nat) as int);
                assert(sig / 0x4000_0000 < 0x80_0000) by (bit_vector)
                    requires
                        sig < 0x20_0000_0000_0000,
                ;
            }
        }
        if q == 0x80_0000 {
            sign + 0x80_0000
        } else {
            sign + q as u32
        }
    }
}

/// Narrowing keeps the sign and maps each class onto its counterpart;
/// a NaN comes out quiet.
pub proof fn lemma_narrow_class(b: u64)
    ensures
        s_sign(narrow_spec(b)) == d_sign(b),
        s_is_nan(narrow_spec(b)) <==> d_is_nan(b),
        d_is_nan(b) ==> s_man(narrow_spec(b)) >= 0x40_0000,
        d_is_inf(b) ==> s_is_inf(narrow_spec(b)),
{
    let sign = d_sign(b);
    let e = d_exp(b);
    let m = d_man(b);
    assert((b / 0x10_0000_0000_0000) % 0x800 < 0x800 && b % 0x10_0000_0000_0000
        < 0x10_0000_0000_0000) by (bit_vector);
    lemma2_to64();
    if e == 0x7ff {
        if m == 0 {
            lemma_s_bits_fields(sign, 0xff, 0);
        } else {
            assert(m / 0x2000_0000 < 0x80_0000) by (bit_vector)
                requires
                    m < 0x10_0000_0000_0000,
            ;
            let t = (m / 0x2000_0000) as u32;
            assert(0x40_0000 <= quiet_s(t) < 0x80_0000);
            lemma_s_bits_fields(sign, 0xff, quiet_s(t) as int);
        }
    } else if e == 0 {
        lemma_s_bits_fields(sign, 0, 0);
    } else if e >= 897 {
        let sig = 0x10_0000_0000_0000 + m as int;
        let q = rne_div(sig, 29);
        lemma_rne_bounds(sig, 29);
        assert((0x10_0000_0000_0000 + m) / 0x2000_0000 >= 0x80_0000 && (0x10_0000_0000_0000 + m)
            / 0x2000_0000 < 0x100_0000)
            by (bit_vector)
            requires
                m < 0x10_0000_0000_0000,
        ;
        if q == 0x100_0000 {
            if e - 895 >= 0xff {
                lemma_s_bits_fields(sign, 0xff, 0);
            } else {
                lemma_s_bits_fields(sign, e - 895, 0);
            }
        } else {
            if e - 896 >= 0xff {
                lemma_s_bits_fields(sign, 0xff, 0);
            } else {
                lemma_s_bits_fields(sign, e - 896, q - 0x80_0000);
            }
        }
    } else {
        let sig = 0x10_0000_0000_0000 + m as int;
        let sh = (926 - e) as nat;
        let q = rne_div(sig, sh);
        lemma_rne_bounds(sig, sh);
        lemma_pow2_pos(sh);
        if 30 < sh {
            lemma_pow2_strictly_increases(30, sh);
        }
        lemma_div_is_ordered_by_denominator(sig, 0x4000_0000, pow2(sh) as int);
        assert((0x10_0000_0000_0000 + m) / 0x4000_0000 < 0x80_0000) by (bit_vector)
            requires
                m < 0x10_0000_0000_0000,
        ;
        if q == 0x80_0000 {
            lemma_s_bits_fields(sign, 1, 0);
        } else {
            assert(q >= 0) by {
                lemma_div_pos_is_pos(sig, pow2(sh) as int);
            }
            lemma_s_bits_fields(sign, 0, q);
        }
    }
}

} // verus!
