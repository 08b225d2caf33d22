//! Rounding toward negative infinity.

use vstd::prelude::*;
use vstd::arithmetic::power2::*;
use crate::arith::{
    lemma_div_mod, lemma_div_mod_unique, lemma_u128_and_mask, lemma_u128_and_not, shr_u128,
};
use crate::float::{format_of, Float};
use crate::float::model::{lemma_emag_values, lemma_fields, lemma_format_basics, lemma_with_sign};
use crate::math::generic::rounding::{
    lemma_below_one, lemma_bump, lemma_round_forms, lemma_fraction_mask, lemma_integral, rounds_to,
    rounds_to_value, signed_zero_or_one, floor_mag,
};
use crate::support::env::{FpResult, Status};

verus! {

/// Rounds toward negative infinity: the greatest whole number not above `x`.
pub fn floor<F: Float>(x: F) -> (r: F)
    ensures
        rounds_to_value(
            format_of::<F>(),
            x.spec_repr(),
            r.spec_repr(),
            floor_mag(format_of::<F>(), x.spec_repr()),
        ),
{
    floor_status(x).val
}

/// Rounds toward negative infinity: the greatest whole number not above `x`.
/// Reports whether the result is exact.
pub fn floor_status<F: Float>(x: F) -> (res: FpResult<F>)
    ensures
        rounds_to(
            format_of::<F>(),
            x.spec_repr(),
            res.val.spec_repr(),
            res.status,
            floor_mag(format_of::<F>(), x.spec_repr()),
        ),
        res.status == Status::OK <==> res.val.spec_repr() == x.spec_repr(),
{
    let ghost fmt = format_of::<F>();
    let ghost xs = x.spec_repr();
    proof {
        F::lemma_format();
        x.lemma_repr();
        lemma_format_basics(fmt);
        lemma_fields(fmt, xs);
        lemma_emag_values(fmt);
        lemma_round_forms(fmt.mag(xs), fmt.unit());
    }
    let mut ix = x.repr();
    let e = x.exp_unbiased();

    // If the represented value has no fractional part, no truncation is needed.
    if e >= F::significand_bits() as i32 {
        proof {
            lemma_integral(fmt, xs);
            lemma_div_mod(fmt.mag(xs) as int, fmt.unit() as int);
        }
        return FpResult::ok(x);
    }

    if e >= 0 {
        // |x| >= 1.0
        let m = shr_u128(F::significand_mask(), e as u32);
        let ghost k = (fmt.sig_bits - e) as nat;
        let ghost pk = pow2(k);
        proof {
            lemma_fraction_mask(fmt, e as nat);
            lemma_u128_and_mask(ix, k as u128);
            lemma_bump(fmt, xs, k, false);
            lemma_bump(fmt, xs, k, true);
            lemma_div_mod(fmt.mag(xs) as int, fmt.unit() as int);
        }
        if (ix & m) == 0 {
            // Portion to be masked is already zero; no adjustment needed.
            return FpResult::ok(x);
        }
        // Otherwise, raise an inexact exception.
        if x.is_sign_negative() {
            proof {
                let r = xs % pk;
                lemma_div_mod(xs as int, pk as int);
                let q = xs as int / pk as int;
                assert((q + 1) * pk == q * pk + pk) by (nonlinear_arith);
                lemma_div_mod_unique(xs + pk - 1, pk as int, q + 1, r - 1);
                crate::arith::lemma_pow2_values();
                assert(ix + m < pow2(fmt.bits));
                lemma_u128_and_mask((ix + m) as u128, k as u128);
            }
            ix += m;
        }
        proof {
            lemma_u128_and_mask(ix, k as u128);
            lemma_u128_and_not(ix, m);
        }
        ix &= !m;
        FpResult::new(F::from_repr(ix), Status::INEXACT)
    } else {
        // |x| < 1.0, raise an inexact exception since truncation will happen (unless x == 0).
        proof {
            lemma_below_one(fmt, xs);
            lemma_with_sign(fmt, fmt.sign(xs), 0);
            lemma_with_sign(fmt, fmt.sign(xs), fmt.one());
        }
        let status = if ix == 0 || ix == F::sign_mask() {
            Status::OK
        } else {
            Status::INEXACT
        };
        let res = if x.is_sign_positive() {
            // 0.0 <= x < 1.0; rounding down goes toward +0.0.
            signed_zero_or_one(x, false)
        } else if status == Status::INEXACT {
            // -1.0 < x < -0.0; rounding down goes toward -1.0.
            signed_zero_or_one(x, true)
        } else {
            // a zero remains unchanged
            x
        };
        proof {
            let rs = res.spec_repr();
            res.lemma_repr();
            lemma_fields(fmt, rs);
            if fmt.abs(rs) > 0 {
                crate::float::model::lemma_emag_increases(fmt, 0, fmt.abs(rs));
            }
            if fmt.abs(rs) < fmt.one() {
                crate::float::model::lemma_emag_increases(fmt, fmt.abs(rs), fmt.one());
            } else if fmt.abs(rs) > fmt.one() {
                crate::float::model::lemma_emag_increases(fmt, fmt.one(), fmt.abs(rs));
            }
        }
        FpResult::new(res, status)
    }
}

} // verus!
