//! Rounding to the nearest whole number, ties away from zero.

use vstd::prelude::*;
use vstd::arithmetic::power2::*;
use crate::arith::{lemma_div_mod, lemma_u128_and_mask, shr_u128};
use crate::float::{format_of, Float};
use crate::float::model::{
    lemma_emag_increases, lemma_emag_values, lemma_field_bits, lemma_fields,
    lemma_format_basics,
};
use crate::math::generic::rounding::{
    lemma_below_one, lemma_bump, lemma_fraction_mask, lemma_integral, lemma_round_forms,
    rounds_to, rounds_to_value, signed_zero_or_one, round_mag,
};
use crate::support::env::{FpResult, Status};

verus! {

/// Rounds to the nearest whole number; a value halfway between two goes to
/// the one further from zero.
pub fn round<F: Float>(x: F) -> (r: F)
    ensures
        rounds_to_value(
            format_of::<F>(),
            x.spec_repr(),
            r.spec_repr(),
            round_mag(format_of::<F>(), x.spec_repr()),
        ),
{
    round_status(x).val
}

/// Rounds to the nearest whole number, ties away from zero, and reports
/// whether the result is exact.
pub fn round_status<F: Float>(x: F) -> (res: FpResult<F>)
    ensures
        rounds_to(
            format_of::<F>(),
            x.spec_repr(),
            res.val.spec_repr(),
            res.status,
            round_mag(format_of::<F>(), x.spec_repr()),
        ),
        res.status == Status::OK <==> res.val.spec_repr() == x.spec_repr(),
{
    let ghost fmt = format_of::<F>();
    let ghost xs = x.spec_repr();
    proof {
        F::lemma_format();
        x.lemma_repr();
        lemma_format_basics(fmt);
        lemma_fields(fmt, xs);
        lemma_field_bits(fmt, xs);
        lemma_emag_values(fmt);
        lemma_round_forms(fmt.mag(xs), fmt.unit());
        crate::arith::lemma_pow2_values();
    }
    let ix = x.repr();
    let e = x.exp_unbiased();

    // A value without a fractional part is its own rounding.
    if e >= F::significand_bits() as i32 {
        proof {
            lemma_integral(fmt, xs);
            lemma_div_mod(fmt.mag(xs) as int, fmt.unit() as int);
        }
        return FpResult::ok(x);
    }
    if e >= 0 {
        // |x| >= 1.0: the low `k` bits of the significand hold the fraction.
        let k = F::significand_bits() - e as u32;
        let m = shr_u128(F::significand_mask(), e as u32);
        let ghost pk = pow2(k as nat);
        proof {
            lemma_fraction_mask(fmt, e as nat);
            lemma_u128_and_mask(ix, k as u128);
            lemma_bump(fmt, xs, k as nat, false);
            lemma_bump(fmt, xs, k as nat, true);
            lemma_div_mod(fmt.mag(xs) as int, fmt.unit() as int);
        }
        let r = ix & m;
        if r == 0 {
            return FpResult::ok(x);
        }
        let half = m / 2 + 1;
        let mut res = ix - r;
        if r >= half {
            res += m + 1;
        }
        FpResult::new(F::from_repr(res), Status::INEXACT)
    } else {
        // |x| < 1.0: the result is a zero or a one with the sign of `x`.
        proof {
            lemma_below_one(fmt, xs);
        }
        let abs = if ix >= F::sign_mask() {
            ix - F::sign_mask()
        } else {
            ix
        };
        if abs == 0 {
            return FpResult::ok(x);
        }
        let half = F::one_int() - F::implicit_bit();
        let res = signed_zero_or_one(x, abs >= half);
        proof {
            let rs = res.spec_repr();
            res.lemma_repr();
            lemma_fields(fmt, rs);
            if fmt.abs(rs) < fmt.abs(xs) {
                lemma_emag_increases(fmt, fmt.abs(rs), fmt.abs(xs));
            } else if fmt.abs(rs) > fmt.abs(xs) {
                lemma_emag_increases(fmt, fmt.abs(xs), fmt.abs(rs));
            }
        }
        FpResult::new(res, Status::INEXACT)
    }
}

} // verus!
