//! Splitting a float into a fraction and a power of two, for each format.

use vstd::prelude::*;
use crate::float::{format_of, Float};
use crate::float::formats::{F16, F32, F64, F128};
use crate::math::generic::frexp::frexp_spec;

verus! {

/// Decompose a float into a normalized value within the range `[0.5, 1)`, and a power of 2.
///
/// That is, `x * 2^p` will represent the input value.
pub fn frexpf16(x: F16) -> (r: (F16, i32))
    ensures
        frexp_spec(format_of::<F16>(), x.spec_repr(), r.0.spec_repr(), r.1 as int),
{
    crate::math::generic::frexp(x)
}

/// Decompose a float into a normalized value within the range `[0.5, 1)`, and a power of 2.
///
/// That is, `x * 2^p` will represent the input value.
pub fn frexpf(x: F32) -> (r: (F32, i32))
    ensures
        frexp_spec(format_of::<F32>(), x.spec_repr(), r.0.spec_repr(), r.1 as int),
{
    crate::math::generic::frexp(x)
}

/// Decompose a float into a normalized value within the range `[0.5, 1)`, and a power of 2.
///
/// That is, `x * 2^p` will represent the input value.
pub fn frexp(x: F64) -> (r: (F64, i32))
    ensures
        frexp_spec(format_of::<F64>(), x.spec_repr(), r.0.spec_repr(), r.1 as int),
{
    crate::math::generic::frexp(x)
}

/// Decompose a float into a normalized value within the range `[0.5, 1)`, and a power of 2.
///
/// That is, `x * 2^p` will represent the input value.
pub fn frexpf128(x: F128) -> (r: (F128, i32))
    ensures
        frexp_spec(format_of::<F128>(), x.spec_repr(), r.0.spec_repr(), r.1 as int),
{
    crate::math::generic::frexp(x)
}

} // verus!
