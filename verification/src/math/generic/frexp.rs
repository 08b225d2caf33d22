//! Splitting a float into a fraction and a power of two.

use vstd::prelude::*;
use vstd::arithmetic::power2::*;
use crate::arith::{lemma_pow2_le, lemma_pow2_values, shl_u128};
use crate::float::{format_of, Float};
use crate::float::model::{
    Format, lemma_emag_linear, lemma_field_bits, lemma_fields, lemma_format_basics,
    lemma_subnormal_pattern, lemma_with_sign, lemma_compose,
};
use crate::float::rounding::{lemma_operand_normal, lemma_operand_subnormal};

verus! {

/// What `frexp` returns. A zero, an infinity or a NaN comes back as it is,
/// with exponent zero. Any other `x` is split as `x = m * 2^e` with the
/// fraction `m` of the same sign and of magnitude in `[1/2, 1)`.
pub open spec fn frexp_spec(fmt: Format, x: nat, m: nat, e: int) -> bool {
    if !fmt.is_finite(x) || fmt.is_zero(x) {
        m == x && e == 0
    } else {
        &&& fmt.valid(m)
        &&& fmt.sign(m) == fmt.sign(x)
        &&& fmt.exp_field(m) == fmt.bias() - 1
        &&& if e >= 0 {
            fmt.mag(x) == fmt.mag(m) * pow2(e as nat)
        } else {
            fmt.mag(x) * pow2((-e) as nat) == fmt.mag(m)
        }
    }
}

/// Decompose a float into a normalized value within the range `[0.5, 1)`, and a power of 2.
///
/// That is, `x * 2^p` will represent the input value.
pub fn frexp<F: Float>(x: F) -> (r: (F, i32))
    ensures
        frexp_spec(format_of::<F>(), x.spec_repr(), r.0.spec_repr(), r.1 as int),
{
    let ghost fmt = format_of::<F>();
    let ghost xs = x.spec_repr();
    let ghost ps = pow2(fmt.sig_bits) as int;
    proof {
        F::lemma_format();
        x.lemma_repr();
        lemma_format_basics(fmt);
        lemma_fields(fmt, xs);
        lemma_field_bits(fmt, xs);
        lemma_subnormal_pattern(fmt, xs);
        lemma_pow2_values();
    }
    let ee = x.ex();
    let sig_bits = F::significand_bits();
    let frac = crate::arith::low_bits_u128(x.repr(), sig_bits);
    if ee == F::exponent_max() {
        return (x, 0);
    }
    let sig: u128;
    let exp: i32;
    if ee == 0 {
        if frac == 0 {
            return (x, 0);
        }
        // normalize
        let (e, s) = F::normalize(frac);
        proof {
            lemma_operand_subnormal(fmt, xs, (1 - e) as nat);
        }
        sig = s;
        exp = e;
    } else {
        proof {
            lemma_operand_normal(fmt, xs);
        }
        sig = F::implicit_bit() + frac;
        exp = ee as i32;
    }
    let half = F::exponent_bias() - 1;
    let e = exp - half as i32;
    let sign = if x.is_sign_negative() {
        F::sign_mask()
    } else {
        0
    };
    proof {
        let g = (sig - ps) as nat;
        let h = half as nat;
        lemma_emag_linear(fmt, h, g);
        lemma_compose(fmt, h, g);
        assert(h * ps + g < fmt.exp_mask()) by (nonlinear_arith)
            requires g < ps, h + 1 <= fmt.exp_max(), fmt.exp_mask() == fmt.exp_max() * ps, ps > 0;
        lemma_with_sign(fmt, fmt.sign(xs), (h * ps + g) as nat);
        assert(h * ps < 0x1_0000 * ps) by (nonlinear_arith)
            requires h < 0x1_0000, ps > 0;
        let ph = pow2((h - 1) as nat) as int;
        let mx = fmt.mag(xs) as int;
        lemma_pow2_pos((h - 1) as nat);
        if exp >= 1 {
            if e >= 0 {
                lemma_pow2_adds((h - 1) as nat, e as nat);
                assert(mx == (sig * ph) * pow2(e as nat)) by (nonlinear_arith)
                    requires
                        mx == sig * pow2((exp - 1) as nat),
                        pow2((exp - 1) as nat) == ph * pow2(e as nat),
                ;
            } else {
                lemma_pow2_adds((exp - 1) as nat, (-e) as nat);
                assert(mx * pow2((-e) as nat) == sig * ph) by (nonlinear_arith)
                    requires
                        mx == sig * pow2((exp - 1) as nat),
                        ph == pow2((exp - 1) as nat) * pow2((-e) as nat),
                ;
            }
        } else {
            lemma_pow2_adds((1 - exp) as nat, (h - 1) as nat);
            assert(mx * pow2((-e) as nat) == sig * ph) by (nonlinear_arith)
                requires
                    mx * pow2((1 - exp) as nat) == sig,
                    pow2((-e) as nat) == pow2((1 - exp) as nat) * ph,
            ;
        }
    }
    let ix = sign + shl_u128(half as u128, sig_bits) + (sig - F::implicit_bit());
    (F::from_repr(ix), e)
}

/// What `ilogb` returns for a finite nonzero `x`: the `e` with
/// `2^e <= |x| < 2^(e + 1)`, read off the length of the magnitude.
pub open spec fn ilogb_spec(fmt: Format, x: nat) -> int {
    crate::arith::bit_length(fmt.mag(x)) - fmt.bias() - fmt.sig_bits
}

/// Extract the binary exponent of `x`: the largest power of two that does not
/// exceed its magnitude. Zero and NaN give the least `i32`, an infinity
/// the largest.
pub fn ilogb<F: Float>(x: F) -> (r: i32)
    ensures
        format_of::<F>().is_nan(x.spec_repr()) || format_of::<F>().is_zero(x.spec_repr()) ==> r
            == i32::MIN,
        format_of::<F>().is_inf(x.spec_repr()) ==> r == i32::MAX,
        format_of::<F>().is_finite(x.spec_repr()) && !format_of::<F>().is_zero(x.spec_repr())
            ==> r == ilogb_spec(format_of::<F>(), x.spec_repr()),
{
    let ghost fmt = format_of::<F>();
    let ghost xs = x.spec_repr();
    let ghost ps = pow2(fmt.sig_bits) as int;
    proof {
        F::lemma_format();
        x.lemma_repr();
        lemma_format_basics(fmt);
        lemma_fields(fmt, xs);
        lemma_field_bits(fmt, xs);
        lemma_subnormal_pattern(fmt, xs);
        lemma_pow2_values();
    }
    let ee = x.ex();
    let sig_bits = F::significand_bits();
    let frac = crate::arith::low_bits_u128(x.repr(), sig_bits);
    if ee == F::exponent_max() {
        if frac == 0 {
            return i32::MAX;
        }
        return i32::MIN;
    }
    let bias = F::exponent_bias();
    if ee == 0 {
        if frac == 0 {
            return i32::MIN;
        }
        let len = crate::arith::bit_length_u128(frac);
        proof {
            crate::float::model::lemma_emag_subnormal(fmt, frac as nat);
            crate::arith::lemma_bit_length(frac as nat);
            if len > fmt.sig_bits {
                lemma_pow2_le(fmt.sig_bits, (len - 1) as nat);
            }
        }
        return len as i32 - bias as i32 - sig_bits as i32;
    }
    proof {
        lemma_emag_linear(fmt, ee as nat, frac as nat);
        let pw = pow2((ee - 1) as nat) as int;
        lemma_pow2_pos((ee - 1) as nat);
        lemma_pow2_adds(fmt.sig_bits, (ee - 1) as nat);
        lemma_pow2_adds(fmt.sig_bits + 1, (ee - 1) as nat);
        lemma_pow2_unfold(fmt.sig_bits + 1);
        let m = fmt.mag(xs) as int;
        assert(ps * pw <= m < (2 * ps) * pw) by (nonlinear_arith)
            requires m == (ps + frac) * pw, 0 <= frac < ps, pw > 0;
        crate::arith::lemma_bit_length_unique(m as nat, (fmt.sig_bits + ee) as nat);
    }
    ee as i32 - bias as i32
}

} // verus!
