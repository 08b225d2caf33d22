//! Rounding to the nearest whole number, ties to even, for each format.

use vstd::prelude::*;
use crate::float::{format_of, Float};
use crate::float::formats::{F16, F32, F64, F128};
use crate::math::generic::rounding::{rounds_to_value, roundeven_mag};
use crate::math::generic::rint_round;
use crate::support::env::Round;

verus! {

/// Round `x` to the nearest integer, breaking ties toward even. This is IEEE 754
/// `roundToIntegralTiesToEven`.
pub fn roundevenf16(x: F16) -> (r: F16)
    ensures
        rounds_to_value(
            format_of::<F16>(),
            x.spec_repr(),
            r.spec_repr(),
            roundeven_mag(format_of::<F16>(), x.spec_repr()),
        ),
{
    roundeven_impl(x)
}

/// Round `x` to the nearest integer, breaking ties toward even. This is IEEE 754
/// `roundToIntegralTiesToEven`.
pub fn roundevenf(x: F32) -> (r: F32)
    ensures
        rounds_to_value(
            format_of::<F32>(),
            x.spec_repr(),
            r.spec_repr(),
            roundeven_mag(format_of::<F32>(), x.spec_repr()),
        ),
{
    roundeven_impl(x)
}

/// Round `x` to the nearest integer, breaking ties toward even. This is IEEE 754
/// `roundToIntegralTiesToEven`.
pub fn roundeven(x: F64) -> (r: F64)
    ensures
        rounds_to_value(
            format_of::<F64>(),
            x.spec_repr(),
            r.spec_repr(),
            roundeven_mag(format_of::<F64>(), x.spec_repr()),
        ),
{
    roundeven_impl(x)
}

/// Round `x` to the nearest integer, breaking ties toward even. This is IEEE 754
/// `roundToIntegralTiesToEven`.
pub fn roundevenf128(x: F128) -> (r: F128)
    ensures
        rounds_to_value(
            format_of::<F128>(),
            x.spec_repr(),
            r.spec_repr(),
            roundeven_mag(format_of::<F128>(), x.spec_repr()),
        ),
{
    roundeven_impl(x)
}

/// Rounds to the nearest whole number, ties to even, in any format.
pub fn roundeven_impl<F: Float>(x: F) -> (r: F)
    ensures
        rounds_to_value(
            format_of::<F>(),
            x.spec_repr(),
            r.spec_repr(),
            roundeven_mag(format_of::<F>(), x.spec_repr()),
        ),
{
    rint_round(x, Round::Nearest).val
}

} // verus!
