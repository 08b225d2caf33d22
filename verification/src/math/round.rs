//! Rounding to the nearest whole number, ties away from zero, for each format.

use vstd::prelude::*;
use crate::float::{format_of, Float};
use crate::float::formats::{F16, F32, F64, F128};
use crate::math::generic::rounding::{rounds_to_value, round_mag};


verus! {

/// Round `x` to the nearest integer, breaking ties away from zero.
pub fn roundf16(x: F16) -> (r: F16)
    ensures
        rounds_to_value(
            format_of::<F16>(),
            x.spec_repr(),
            r.spec_repr(),
            round_mag(format_of::<F16>(), x.spec_repr()),
        ),
{
    crate::math::generic::round(x)
}

/// Round `x` to the nearest integer, breaking ties away from zero.
pub fn roundf(x: F32) -> (r: F32)
    ensures
        rounds_to_value(
            format_of::<F32>(),
            x.spec_repr(),
            r.spec_repr(),
            round_mag(format_of::<F32>(), x.spec_repr()),
        ),
{
    crate::math::generic::round(x)
}

/// Round `x` to the nearest integer, breaking ties away from zero.
pub fn round(x: F64) -> (r: F64)
    ensures
        rounds_to_value(
            format_of::<F64>(),
            x.spec_repr(),
            r.spec_repr(),
            round_mag(format_of::<F64>(), x.spec_repr()),
        ),
{
    crate::math::generic::round(x)
}

/// Round `x` to the nearest integer, breaking ties away from zero.
pub fn roundf128(x: F128) -> (r: F128)
    ensures
        rounds_to_value(
            format_of::<F128>(),
            x.spec_repr(),
            r.spec_repr(),
            round_mag(format_of::<F128>(), x.spec_repr()),
        ),
{
    crate::math::generic::round(x)
}

} // verus!
