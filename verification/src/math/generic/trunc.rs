//! Rounding toward zero.

use vstd::prelude::*;
use vstd::arithmetic::power2::*;
use crate::arith::{lemma_div_mod, lemma_u128_and_mask, lemma_u128_xor_clear, shr_u128};
use crate::float::{format_of, Float};
use crate::float::model::{lemma_fields, lemma_field_bits, lemma_format_basics, lemma_emag_values};
use crate::math::generic::rounding::{
    lemma_below_one, lemma_fraction_case, lemma_integral, lemma_round_scale, round_down,
    rounds_to, rounds_to_value, trunc_mag,
};
use crate::support::env::{FpResult, Status};

verus! {

/// Rounds toward zero: the whole number of the same sign whose magnitude is
/// the largest not above that of `x`.
pub fn trunc<F: Float>(x: F) -> (r: F)
    ensures
        rounds_to_value(
            format_of::<F>(),
            x.spec_repr(),
            r.spec_repr(),
            trunc_mag(format_of::<F>(), x.spec_repr()),
        ),
{
    trunc_status(x).val
}

/// Rounds toward zero and reports whether the result is exact.
pub fn trunc_status<F: Float>(x: F) -> (res: FpResult<F>)
    ensures
        rounds_to(
            format_of::<F>(),
            x.spec_repr(),
            res.val.spec_repr(),
            res.status,
            trunc_mag(format_of::<F>(), x.spec_repr()),
        ),
        res.status == Status::OK <==> res.val.spec_repr() == x.spec_repr(),
{
    let ghost fmt = format_of::<F>();
    let ghost xs = x.spec_repr();
    proof {
        F::lemma_format();
        x.lemma_repr();
        lemma_format_basics(fmt);
        lemma_fields(fmt, xs);
        lemma_emag_values(fmt);
    }
    let xi: u128 = x.repr();
    let e: i32 = x.exp_unbiased();

    // The represented value has no fractional part, so no truncation is needed
    if e >= F::significand_bits() as i32 {
        proof {
            lemma_integral(fmt, xs);
            lemma_div_mod(fmt.mag(xs) as int, fmt.unit() as int);
        }
        return FpResult::ok(x);
    }
    let clear_mask = if e < 0 {
        // If the exponent is negative, the result will be zero so we clear everything
        // except the sign.
        F::sign_mask() - 1
    } else {
        // Otherwise, we keep `e` fractional bits and clear the rest.
        shr_u128(F::significand_mask(), e as u32)
    };
    let ghost k: nat = if e < 0 {
        (fmt.bits - 1) as nat
    } else {
        (fmt.sig_bits - e) as nat
    };
    proof {
        if e >= 0 {
            crate::arith::lemma_pow2_split(fmt.sig_bits, e as nat);
            let pe = pow2(e as nat) as int;
            let pk = pow2(k) as int;
            assert(fmt.sig_mask() == (pk - 1) * pe + (pe - 1)) by (nonlinear_arith)
                requires fmt.sig_mask() == pe * pk - 1;
            crate::arith::lemma_div_mod_unique(fmt.sig_mask() as int, pe, pk - 1, pe - 1);
        }
        lemma_u128_and_mask(xi, k as u128);
        lemma_u128_xor_clear(xi, clear_mask);
    }
    let cleared = xi & clear_mask;
    let status = if cleared == 0 {
        // If the to-be-zeroed portion is already zero, we have an exact result.
        Status::OK
    } else {
        // Otherwise the result is inexact and we will truncate, so indicate `FE_INEXACT`.
        Status::INEXACT
    };
    proof {
        let u = fmt.unit();
        let m = fmt.mag(xs);
        if e < 0 {
            lemma_below_one(fmt, xs);
            lemma_field_bits(fmt, xs);
            crate::arith::lemma_div_mod_unique(m as int, u as int, 0, m as int);
            assert(round_down(m, u) == 0) by (nonlinear_arith)
                requires m / u == 0, round_down(m, u) == (m / u) * u;
            assert(fmt.emag(0) == 0);
            let r = (xi - cleared) as nat;
            assert(fmt.abs(r) == 0);
        } else {
            let f = fmt.frac(xs);
            let n = pow2(fmt.sig_bits) + f;
            let pk = pow2(k);
            lemma_fraction_case(fmt, xs, k, 0);
            let g = (f - cleared) as nat;
            lemma_fraction_case(fmt, xs, k, g);
            let p = pow2((fmt.exp_field(xs) - 1) as nat);
            lemma_round_scale(n, pk, p);
            lemma_div_mod(n as int, pk as int);
            assert(pow2(fmt.sig_bits) + g == round_down(n, pk));
            assert(pk * p == u);
            assert(u == pk * p);
            assert(m == n * p);
        }
    }
    // Now zero the bits we need to truncate and return.
    FpResult::new(F::from_repr(xi ^ cleared), status)
}

} // verus!
