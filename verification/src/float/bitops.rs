//! Operations on the sign bit.

use vstd::prelude::*;
use crate::arith::lemma_pow2_values;
use crate::float::{format_of, Float};
use crate::float::model::{lemma_fields, lemma_format_basics, lemma_with_sign};

verus! {

/// The magnitude of `x`: `x` with the sign bit cleared, a NaN's too.
pub fn fabs<F: Float>(x: F) -> (r: F)
    ensures
        r.spec_repr() == format_of::<F>().abs(x.spec_repr()),
{
    proof {
        F::lemma_format();
        x.lemma_repr();
        lemma_fields(format_of::<F>(), x.spec_repr());
        lemma_with_sign(format_of::<F>(), false, format_of::<F>().abs(x.spec_repr()));
    }
    let bits = x.repr();
    let sign = F::sign_mask();
    if bits >= sign {
        F::from_repr(bits - sign)
    } else {
        x
    }
}

/// The magnitude of `magnitude` with the sign of `sign`.
pub fn copysign<F: Float>(magnitude: F, sign: F) -> (r: F)
    ensures
        r.spec_repr() == format_of::<F>().with_sign(
            format_of::<F>().sign(sign.spec_repr()),
            format_of::<F>().abs(magnitude.spec_repr()),
        ),
{
    let ghost fmt = format_of::<F>();
    proof {
        F::lemma_format();
        magnitude.lemma_repr();
        lemma_format_basics(fmt);
        lemma_fields(fmt, magnitude.spec_repr());
        lemma_with_sign(fmt, fmt.sign(sign.spec_repr()), fmt.abs(magnitude.spec_repr()));
        lemma_pow2_values();
    }
    let abs = fabs(magnitude).repr();
    if sign.is_sign_negative() {
        F::from_repr(abs + F::sign_mask())
    } else {
        F::from_repr(abs)
    }
}

} // verus!
