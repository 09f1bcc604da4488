//! The two facade operations whose results are exact: absolute value and
//! sign transfer.
//!
//! Both are sign-bit manipulations and lose nothing, yet the facade still
//! routes them through single precision — narrow, operate, widen — so the
//! result is the same bit pattern the other facade operations would hand
//! back for the same magnitude.  The single-precision step is a single
//! mask (and, for `copysign`, an or) of the sign bit: straight-line code
//! whose control flow never depends on the data, so the operations are
//! as constant-time as the conversions around them.

use vstd::prelude::*;

verus! {

use crate::fields::{
    s_bits,
    s_sign,
    s_exp,
    s_man,
    d_sign,
    d_exp,
    d_man,
    lemma_s_bits_fields,
    lemma_s_bits_reconstruct,
};
use crate::narrow::{narrow, narrow_spec, lemma_narrow_class};
use crate::widen::{widen, widen_spec, lemma_widen_value, lemma_widen_magnitude_fields};

/// The binary32 pattern with its sign bit cleared.
pub open spec fn abs_single_spec(b: u32) -> u32 {
    b % 0x8000_0000
}

/// The binary32 pattern carrying the magnitude of `x` under the sign of
/// `s`.
pub open spec fn copysign_single_spec(x: u32, s: u32) -> u32 {
    s_bits(s_sign(s), s_exp(x) as int, s_man(x) as int)
}

/// Clear the sign bit of a binary32 pattern.  The body is one mask, free
/// of branches on the value.
pub fn abs_single(b: u32) -> (r: u32)
    ensures
        r == abs_single_spec(b),
        !s_sign(r),
        s_exp(r) == s_exp(b),
        s_man(r) == s_man(b),
{
    proof {
        assert((b & 0x7fff_ffff) == b % 0x8000_0000 && !s_sign(b % 0x8000_0000) && s_exp(
            b % 0x8000_0000,
        ) == s_exp(b) && s_man(b % 0x8000_0000) == s_man(b)) by (bit_vector);
    }
    b & 0x7fff_ffff
}

/// Combine the magnitude bits of `x` with the sign bit of `s`.  The body
/// is one mask and one or, free of branches on either value.
pub fn copysign_single(x: u32, s: u32) -> (r: u32)
    ensures
        r == copysign_single_spec(x, s),
        s_sign(r) == s_sign(s),
        s_exp(r) == s_exp(x),
        s_man(r) == s_man(x),
{
    let r = (x & 0x7fff_ffff) | (s & 0x8000_0000);
    proof {
        assert(s_sign(r) == s_sign(s) && s_exp(r) == s_exp(x) && s_man(r) == s_man(x))
            by (bit_vector)
            requires
                r == (x & 0x7fff_ffff) | (s & 0x8000_0000),
        ;
        lemma_s_bits_reconstruct(r);
        lemma_s_bits_reconstruct(x);
    }
    r
}

/// The pattern the facade's absolute value returns: narrow, strip the
/// sign, widen.
pub open spec fn abs_double_spec(b: u64) -> u64 {
    widen_spec(abs_single_spec(narrow_spec(b)))
}

/// The pattern the facade's sign transfer returns: narrow both operands,
/// move the sign bit, widen.
pub open spec fn copysign_double_spec(x: u64, s: u64) -> u64 {
    widen_spec(copysign_single_spec(narrow_spec(x), narrow_spec(s)))
}

/// The facade's absolute value on binary64 patterns.  Exact
/// sign-stripping: the result is never negative, and its magnitude is the
/// narrowed-then-widened magnitude of the input.  Every step is
/// branch-free in the sign bit.
pub fn abs_double(b: u64) -> (r: u64)
    ensures
        r == abs_double_spec(b),
        !d_sign(r),
{
    let n = narrow(b);
    let a = abs_single(n);
    proof {
        lemma_widen_value(a);
    }
    widen(a)
}

/// The facade's sign transfer on binary64 patterns.  The result carries
/// the sign of `s` exactly — a negative zero `s` gives a negative result
/// — over the narrowed-then-widened magnitude of `x`.
pub fn copysign_double(x: u64, s: u64) -> (r: u64)
    ensures
        r == copysign_double_spec(x, s),
        d_sign(r) == d_sign(s),
{
    let nx = narrow(x);
    let ns = narrow(s);
    let c = copysign_single(nx, ns);
    proof {
        lemma_narrow_class(s);
        lemma_widen_value(c);
    }
    widen(c)
}

/// Sign fidelity of the facade's sign transfer: the result has the sign
/// of `s` and, field for field, the magnitude that the facade's absolute
/// value gives `x`.
pub proof fn lemma_copysign_fidelity(x: u64, s: u64)
    ensures
        d_sign(copysign_double_spec(x, s)) == d_sign(s),
        d_exp(copysign_double_spec(x, s)) == d_exp(abs_double_spec(x)),
        d_man(copysign_double_spec(x, s)) == d_man(abs_double_spec(x)),
{
    let nx = narrow_spec(x);
    let ns = narrow_spec(s);
    let c = copysign_single_spec(nx, ns);
    let a = abs_single_spec(nx);
    lemma_s_bits_reconstruct(nx);
    lemma_s_bits_fields(s_sign(ns), s_exp(nx) as int, s_man(nx) as int);
    assert(s_exp(nx % 0x8000_0000) == s_exp(nx) && s_man(nx % 0x8000_0000) == s_man(nx) && !s_sign(
        nx % 0x8000_0000,
    )) by (bit_vector);
    lemma_widen_magnitude_fields(c, a);
    lemma_widen_value(c);
    lemma_narrow_class(s);
}

} // verus!
