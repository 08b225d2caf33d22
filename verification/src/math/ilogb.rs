//! The binary exponent of a float, for each format.

use vstd::prelude::*;
use crate::float::{format_of, Float};
use crate::float::formats::{F16, F32, F64, F128};
use crate::math::generic::frexp::ilogb_spec;

verus! {

/// Extract the binary exponent of `x`.
pub fn ilogbf16(x: F16) -> (r: i32)
    ensures
        format_of::<F16>().is_nan(x.spec_repr()) || format_of::<F16>().is_zero(x.spec_repr())
            ==> r == i32::MIN,
        format_of::<F16>().is_inf(x.spec_repr()) ==> r == i32::MAX,
        format_of::<F16>().is_finite(x.spec_repr()) && !format_of::<F16>().is_zero(
            x.spec_repr(),
        ) ==> r == ilogb_spec(format_of::<F16>(), x.spec_repr()),
{
    crate::math::generic::ilogb(x)
}

/// Extract the binary exponent of `x`.
pub fn ilogbf(x: F32) -> (r: i32)
    ensures
        format_of::<F32>().is_nan(x.spec_repr()) || format_of::<F32>().is_zero(x.spec_repr())
            ==> r == i32::MIN,
        format_of::<F32>().is_inf(x.spec_repr()) ==> r == i32::MAX,
        format_of::<F32>().is_finite(x.spec_repr()) && !format_of::<F32>().is_zero(
            x.spec_repr(),
        ) ==> r == ilogb_spec(format_of::<F32>(), x.spec_repr()),
{
    crate::math::generic::ilogb(x)
}

/// Extract the binary exponent of `x`.
pub fn ilogb(x: F64) -> (r: i32)
    ensures
        format_of::<F64>().is_nan(x.spec_repr()) || format_of::<F64>().is_zero(x.spec_repr())
            ==> r == i32::MIN,
        format_of::<F64>().is_inf(x.spec_repr()) ==> r == i32::MAX,
        format_of::<F64>().is_finite(x.spec_repr()) && !format_of::<F64>().is_zero(
            x.spec_repr(),
        ) ==> r == ilogb_spec(format_of::<F64>(), x.spec_repr()),
{
    crate::math::generic::ilogb(x)
}

/// Extract the binary exponent of `x`.
pub fn ilogbf128(x: F128) -> (r: i32)
    ensures
        format_of::<F128>().is_nan(x.spec_repr()) || format_of::<F128>().is_zero(x.spec_repr())
            ==> r == i32::MIN,
        format_of::<F128>().is_inf(x.spec_repr()) ==> r == i32::MAX,
        format_of::<F128>().is_finite(x.spec_repr()) && !format_of::<F128>().is_zero(
            x.spec_repr(),
        ) ==> r == ilogb_spec(format_of::<F128>(), x.spec_repr()),
{
    crate::math::generic::ilogb(x)
}

} // verus!
