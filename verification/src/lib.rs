//! Bit-level model of the precision-reduction policy behind a
//! double-precision approximation facade.
//!
//! Every double-precision operation of the facade is realized by narrowing
//! its operands to single precision, invoking a single-precision provider,
//! and widening the result back.  This crate verifies the part of that
//! policy that is exact arithmetic on IEEE-754 bit patterns:
//!
//! * [`widen::widen`] — the lossless binary32 → binary64 conversion;
//! * [`narrow::narrow`] — the binary64 → binary32 conversion with
//!   round-to-nearest, ties-to-even;
//! * [`sign::abs_double`] and [`sign::copysign_double`] — the two facade
//!   operations whose results are exact, carried out branch-free on the
//!   sign bit;
//! * [`laws`] — what the policy guarantees: narrowing after widening is
//!   the identity; widening after narrowing is the identity on every
//!   double whose magnitude is exactly representable in single
//!   precision; narrowing moves a magnitude by at most half a grid step,
//!   ties landing on even mantissas; and the result is finite exactly
//!   below the documented overflow midpoint.
//!
//! Values are carried as raw bit patterns (`u32` for binary32, `u64` for
//! binary64); callers convert with `f32::to_bits` / `f64::from_bits` and
//! their kin.

pub mod fields;
pub mod laws;
pub mod narrow;
pub mod sign;
pub mod widen;
