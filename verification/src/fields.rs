//! Bit-field model of IEEE-754 binary32 and binary64.
//!
//! A binary32 pattern is one sign bit, an 8-bit biased exponent (bias 127)
//! and a 23-bit mantissa; a binary64 pattern is one sign bit, an 11-bit
//! biased exponent (bias 1023) and a 52-bit mantissa.  The spec functions
//! here take patterns apart, put them together, and give each finite
//! pattern its magnitude as an exact integer: a binary32 magnitude in
//! units of 2^-149 (the smallest positive binary32), a binary64 magnitude
//! in units of 2^-1074 (the smallest positive binary64).

use vstd::prelude::*;

verus! {

use vstd::arithmetic::power2::pow2;

// ---------------------------------------------------------------------
// binary32 fields
// ---------------------------------------------------------------------

/// Sign bit of a binary32 pattern.
pub open spec fn s_sign(b: u32) -> bool {
    b / 0x8000_0000 == 1
}

/// Biased exponent field of a binary32 pattern (8 bits).
pub open spec fn s_exp(b: u32) -> u32 {
    (b / 0x80_0000) % 0x100
}

/// Mantissa field of a binary32 pattern (23 bits).
pub open spec fn s_man(b: u32) -> u32 {
    b % 0x80_0000
}

/// The binary32 pattern with the given fields.
pub open spec fn s_bits(sign: bool, e: int, m: int) -> u32
    recommends
        0 <= e < 0x100,
        0 <= m < 0x80_0000,
{
    ((if sign {
        0x8000_0000int
    } else {
        0int
    }) + e * 0x80_0000 + m) as u32
}

pub open spec fn s_is_nan(b: u32) -> bool {
    s_exp(b) == 0xff && s_man(b) != 0
}

pub open spec fn s_is_inf(b: u32) -> bool {
    s_exp(b) == 0xff && s_man(b) == 0
}

pub open spec fn s_is_finite(b: u32) -> bool {
    s_exp(b) != 0xff
}

/// Magnitude of a finite binary32 pattern, in units of 2^-149.
pub open spec fn s_mag(b: u32) -> int
    recommends
        s_is_finite(b),
{
    if s_exp(b) == 0 {
        s_man(b) as int
    } else {
        (0x80_0000 + s_man(b)) * pow2((s_exp(b) - 1) as nat)
    }
}

/// A binary32 NaN mantissa with its quiet bit (bit 22) forced on.
///
/// Both conversions quiet a signalling NaN while keeping the rest of its
/// payload, as the widening and narrowing instructions of common hardware
/// do.
pub open spec fn quiet_s(m: u32) -> u32 {
    if m >= 0x40_0000 {
        m
    } else {
        (m + 0x40_0000) as u32
    }
}

// ---------------------------------------------------------------------
// binary64 fields
// ---------------------------------------------------------------------

/// Sign bit of a binary64 pattern.
pub open spec fn d_sign(b: u64) -> bool {
    b / 0x8000_0000_0000_0000 == 1
}

/// Biased exponent field of a binary64 pattern (11 bits).
pub open spec fn d_exp(b: u64) -> u64 {
    (b / 0x10_0000_0000_0000) % 0x800
}

/// Mantissa field of a binary64 pattern (52 bits).
pub open spec fn d_man(b: u64) -> u64 {
    b % 0x10_0000_0000_0000
}

/// The binary64 pattern with the given fields.
pub open spec fn d_bits(sign: bool, e: int, m: int) -> u64
    recommends
        0 <= e < 0x800,
        0 <= m < 0x10_0000_0000_0000,
{
    ((if sign {
        0x8000_0000_0000_0000int
    } else {
        0int
    }) + e * 0x10_0000_0000_0000 + m) as u64
}

pub open spec fn d_is_nan(b: u64) -> bool {
    d_exp(b) == 0x7ff && d_man(b) != 0
}

pub open spec fn d_is_inf(b: u64) -> bool {
    d_exp(b) == 0x7ff && d_man(b) == 0
}

pub open spec fn d_is_finite(b: u64) -> bool {
    d_exp(b) != 0x7ff
}

/// Magnitude of a finite binary64 pattern, in units of 2^-1074.
pub open spec fn d_mag(b: u64) -> int
    recommends
        d_is_finite(b),
{
    if d_exp(b) == 0 {
        d_man(b) as int
    } else {
        (0x10_0000_0000_0000 + d_man(b)) * pow2((d_exp(b) - 1) as nat)
    }
}

// ---------------------------------------------------------------------
// Field lemmas
// ---------------------------------------------------------------------

/// Field extraction inverts `s_bits`.
pub proof fn lemma_s_bits_fields(sign: bool, e: int, m: int)
    requires
        0 <= e < 0x100,
        0 <= m < 0x80_0000,
    ensures
        s_sign(s_bits(sign, e, m)) == sign,
        s_exp(s_bits(sign, e, m)) == e,
        s_man(s_bits(sign, e, m)) == m,
{
    let eu = e as u32;
    let mu = m as u32;
    if sign {
        let b = s_bits(true, e, m);
        assert(b == 0x8000_0000 + eu * 0x80_0000 + mu);
        assert(b / 0x8000_0000 == 1 && (b / 0x80_0000) % 0x100 == eu && b % 0x80_0000 == mu)
            by (bit_vector)
            requires
                b == 0x8000_0000 + eu * 0x80_0000 + mu,
                eu < 0x100,
                mu < 0x80_0000,
        ;
    } else {
        let b = s_bits(false, e, m);
        assert(b == eu * 0x80_0000 + mu);
        assert(b / 0x8000_0000 == 0 && (b / 0x80_0000) % 0x100 == eu && b % 0x80_0000 == mu)
            by (bit_vector)
            requires
                b == eu * 0x80_0000 + mu,
                eu < 0x100,
                mu < 0x80_0000,
        ;
    }
}

/// Every binary32 pattern is `s_bits` of its own fields.
pub proof fn lemma_s_bits_reconstruct(b: u32)
    ensures
        s_exp(b) < 0x100,
        s_man(b) < 0x80_0000,
        b == s_bits(s_sign(b), s_exp(b) as int, s_man(b) as int),
{
    assert((b / 0x80_0000) % 0x100 < 0x100 && b % 0x80_0000 < 0x80_0000 && b == (if b
        / 0x8000_0000 == 1 {
        0x8000_0000u32
    } else {
        0u32
    }) + ((b / 0x80_0000) % 0x100) * 0x80_0000 + (b % 0x80_0000)) by (bit_vector);
}

/// Field extraction inverts `d_bits`.
pub proof fn lemma_d_bits_fields(sign: bool, e: int, m: int)
    requires
        0 <= e < 0x800,
        0 <= m < 0x10_0000_0000_0000,
    ensures
        d_sign(d_bits(sign, e, m)) == sign,
        d_exp(d_bits(sign, e, m)) == e,
        d_man(d_bits(sign, e, m)) == m,
{
    let eu = e as u64;
    let mu = m as u64;
    if sign {
        let b = d_bits(true, e, m);
        assert(b == 0x8000_0000_0000_0000 + eu * 0x10_0000_0000_0000 + mu);
        assert(b / 0x8000_0000_0000_0000 == 1 && (b / 0x10_0000_0000_0000) % 0x800 == eu && b
            % 0x10_0000_0000_0000 == mu)
            by (bit_vector)
            requires
                b == 0x8000_0000_0000_0000 + eu * 0x10_0000_0000_0000 + mu,
                eu < 0x800,
                mu < 0x10_0000_0000_0000,
        ;
    } else {
        let b = d_bits(false, e, m);
        assert(b == eu * 0x10_0000_0000_0000 + mu);
        assert(b / 0x8000_0000_0000_0000 == 0 && (b / 0x10_0000_0000_0000) % 0x800 == eu && b
            % 0x10_0000_0000_0000 == mu)
            by (bit_vector)
            requires
                b == eu * 0x10_0000_0000_0000 + mu,
                eu < 0x800,
                mu < 0x10_0000_0000_0000,
        ;
    }
}

} // verus!
