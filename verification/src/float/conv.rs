//! Conversions between integers and floats.

use vstd::prelude::*;
use vstd::arithmetic::power2::*;
use crate::arith::{
    bit_length_u128, lemma_bit_length, lemma_div_mod, lemma_div_mod_scale,
    lemma_div_mod_unique, lemma_pow2_le, lemma_pow2_values, low_bits_u128, pow2_u128, shl_u128,
    shr_u128,
};
use crate::float::{format_of, Float};
use crate::float::formats::{F32, F64};
use crate::float::model::{
    Format, lemma_compose, lemma_emag_linear, lemma_emag_subnormal, lemma_emag_values,
    lemma_fields, lemma_format_basics,
};
use crate::float::rounding::lemma_round_from_below;
use crate::integer::{int_max, int_min, Int};

verus! {

/// The pattern of the float nearest to the whole number `i`, ties to even.
pub open spec fn is_float_of_uint(fmt: Format, i: nat, r: nat) -> bool {
    &&& r <= fmt.exp_mask()
    &&& fmt.is_nearest_even(r, i * fmt.unit(), 1)
}

/// Converts a whole number to the nearest float of the format `F`, ties to
/// even, for a format whose exponent range covers the number.
pub fn uint_to_float<F: Float>(i: u128) -> (r: u128)
    requires
        i < pow2(format_of::<F>().bias() + 1),
    ensures
        is_float_of_uint(format_of::<F>(), i as nat, r as nat),
        i == 0 <==> r == 0,
{
    let ghost fmt = format_of::<F>();
    let ghost ps = pow2(fmt.sig_bits) as int;
    let ghost u = fmt.unit() as int;
    proof {
        F::lemma_format();
        lemma_format_basics(fmt);
        lemma_emag_values(fmt);
        lemma_pow2_values();
        lemma_pow2_unfold(fmt.sig_bits + 1);
    }
    if i == 0 {
        proof {
            lemma_emag_subnormal(fmt, 1);
            lemma_pow2_le(0, fmt.sig_bits);
            assert(0 * u == 0);
            assert((0 + 1) * 1 == 1);
        }
        return 0;
    }
    let sig_bits = F::significand_bits();
    let len = bit_length_u128(i);
    proof {
        lemma_bit_length(i as nat);
        if len > fmt.bias() + 1 {
            lemma_pow2_le(fmt.bias() + 1, (len - 1) as nat);
        }
    }
    // Exponent field of the leading bit, minus one.
    let e = F::exponent_bias() + len - 2;
    let ghost pe = pow2(e as nat) as int;
    proof {
        lemma_pow2_pos(e as nat);
        assert(e as u128 * ps < fmt.exp_max() * ps) by (nonlinear_arith)
            requires 0 <= e < fmt.exp_max(), ps > 0;
    }
    if len <= sig_bits + 1 {
        // Every bit fits the significand.
        let up = sig_bits + 1 - len;
        proof {
            let pu = pow2(up as nat) as int;
            lemma_pow2_adds((len - 1) as nat, up as nat);
            lemma_pow2_adds(len as nat, up as nat);
            lemma_pow2_pos(up as nat);
            assert(ps <= i * pu < 2 * ps) by (nonlinear_arith)
                requires
                    pow2((len - 1) as nat) <= i < pow2(len as nat),
                    pow2((len - 1) as nat) * pu == ps,
                    pow2(len as nat) * pu == 2 * ps,
                    pu > 0,
            ;
            let g = (i * pu - ps) as nat;
            lemma_emag_linear(fmt, (e + 1) as nat, g);
            lemma_compose(fmt, (e + 1) as nat, g);
            lemma_pow2_adds(up as nat, e as nat);
            assert((ps + g) * pe == i * u) by (nonlinear_arith)
                requires g == i * pu - ps, pu * pe == u;
            let r0 = ((e + 1) * ps + g) as nat;
            assert(r0 == i * pu + e * ps) by (nonlinear_arith)
                requires r0 == (e + 1) * ps + g, g == i * pu - ps;
            assert(r0 < fmt.exp_mask()) by (nonlinear_arith)
                requires
                    r0 == (e + 1) * ps + g,
                    g < ps,
                    e + 2 <= fmt.exp_max(),
                    fmt.exp_mask() == fmt.exp_max() * ps,
                    ps > 0,
            ;
            assert(fmt.emag(r0) * 1 == i * u);
            assert(fmt.ulp(r0) * 1 > 0);
            lemma_round_from_below(fmt, r0, (i * u) as nat, 1, false);
        }
        return shl_u128(i, up) + shl_u128(e as u128, sig_bits);
    }
    // The bits below the significand decide the rounding.

    let down = len - sig_bits - 1;
    let a = shr_u128(i, down);
    let b = low_bits_u128(i, down);
    let half = pow2_u128(down - 1);
    let round_up = b > half || (b == half && a % 2 == 1);
    proof {
        let pd = pow2(down as nat) as int;
        lemma_pow2_unfold(down as nat);
        lemma_pow2_pos(down as nat);
        lemma_div_mod(i as int, pd);
        lemma_pow2_adds(fmt.sig_bits, down as nat);
        lemma_pow2_adds(fmt.sig_bits + 1, down as nat);
        assert(ps <= a < 2 * ps) by (nonlinear_arith)
            requires i == a * pd + b, 0 <= b < pd, ps * pd <= i < (2 * ps) * pd, pd > 0;
        let g = (a - ps) as nat;
        lemma_emag_linear(fmt, (e + 1) as nat, g);
        lemma_compose(fmt, (e + 1) as nat, g);
        lemma_pow2_adds(down as nat, (fmt.bias() + fmt.sig_bits - 1) as nat);
        assert(pe == pd * u);
        let r0 = ((e + 1) * ps + g) as nat;
        assert(r0 == a + e * ps) by (nonlinear_arith)
            requires r0 == (e + 1) * ps + g, g == a - ps;
        assert(r0 < fmt.exp_mask()) by (nonlinear_arith)
            requires
                r0 == (e + 1) * ps + g,
                g < ps,
                e + 2 <= fmt.exp_max(),
                fmt.exp_mask() == fmt.exp_max() * ps,
                ps > 0,
        ;
        assert(fmt.emag(r0) == (a * pd) * u) by (nonlinear_arith)
            requires fmt.emag(r0) == (ps + g) * pe, g == a - ps, pe == pd * u;
        assert(i * u == (a * pd) * u + b * u) by (nonlinear_arith)
            requires i == a * pd + b;
        assert(b * u >= 0) by (nonlinear_arith)
            requires b >= 0, u >= 0;
        assert(2 * (b * u) < 3 * (pd * u)) by (nonlinear_arith)
            requires 0 <= b < pd, u > 0;
        assert(2 * (b * u) > pd * u <==> 2 * b > pd) by (nonlinear_arith)
            requires u > 0;
        assert(2 * (b * u) == pd * u <==> 2 * b == pd) by (nonlinear_arith)
            requires u > 0;
        assert(r0 % 2 == a as int % 2) by {
            let hs = pow2((fmt.sig_bits - 1) as nat) as int;
            lemma_pow2_unfold(fmt.sig_bits);
            assert(e * ps == (e * hs) * 2) by (nonlinear_arith)
                requires ps == 2 * hs;
        }
        assert(fmt.emag(r0) * 1 == (a * pd) * u);
        assert(fmt.ulp(r0) * 1 == pd * u);
        lemma_round_from_below(fmt, r0, (i * u) as nat, 1, round_up);
    }
    let m = if round_up {
        a + 1
    } else {
        a
    };
    // + not |, so the mantissa can overflow into the exponent.
    shl_u128(e as u128, sig_bits) + m
}

/// Converts an integer to the nearest float of the format `F`, ties to even,
/// for a format whose exponent range covers the integer type.
pub fn int_to_float<F: Float, I: Int>(i: I) -> (r: F)
    requires
        I::spec_bits() <= format_of::<F>().bias() + 1,
    ensures
        format_of::<F>().sign(r.spec_repr()) == (i.value() < 0),
        is_float_of_uint(
            format_of::<F>(),
            (if i.value() < 0 { -i.value() } else { i.value() }) as nat,
            format_of::<F>().abs(r.spec_repr()),
        ),
{
    let ghost fmt = format_of::<F>();
    proof {
        F::lemma_format();
        lemma_format_basics(fmt);
        i.lemma_int();
        lemma_pow2_le(I::spec_bits(), fmt.bias() + 1);
        lemma_pow2_strictly_increases((I::spec_bits() - 1) as nat, I::spec_bits());
        lemma_pow2_values();
    }
    let (negative, magnitude) = i.init_float();
    let abs = uint_to_float::<F>(I::unsigned_to_u128(magnitude));
    proof {
        crate::float::model::lemma_with_sign(fmt, negative, abs as nat);
    }
    if negative {
        F::from_repr(abs + F::sign_mask())
    } else {
        F::from_repr(abs)
    }
}

pub fn u32_to_f32_bits(i: u32) -> (r: u32)
    ensures
        is_float_of_uint(format_of::<F32>(), i as nat, r as nat),
{
    proof {
        F32::lemma_format();
        lemma_format_basics(format_of::<F32>());
        lemma_pow2_values();
        lemma_pow2_le(32, 128);
        lemma_pow2_adds(7, 1);
    }
    uint_to_float::<F32>(i as u128) as u32
}

pub fn u32_to_f64_bits(i: u32) -> (r: u64)
    ensures
        is_float_of_uint(format_of::<F64>(), i as nat, r as nat),
{
    proof {
        F64::lemma_format();
        lemma_format_basics(format_of::<F64>());
        lemma_pow2_values();
        lemma_pow2_le(32, 1024);
        lemma_pow2_adds(10, 1);
        lemma_pow2_adds(52, 11);
    }
    uint_to_float::<F64>(i as u128) as u64
}

pub fn u64_to_f32_bits(i: u64) -> (r: u32)
    ensures
        is_float_of_uint(format_of::<F32>(), i as nat, r as nat),
{
    proof {
        F32::lemma_format();
        lemma_format_basics(format_of::<F32>());
        lemma_pow2_values();
        lemma_pow2_le(64, 128);
        lemma_pow2_adds(7, 1);
    }
    uint_to_float::<F32>(i as u128) as u32
}

pub fn u64_to_f64_bits(i: u64) -> (r: u64)
    ensures
        is_float_of_uint(format_of::<F64>(), i as nat, r as nat),
{
    proof {
        F64::lemma_format();
        lemma_format_basics(format_of::<F64>());
        lemma_pow2_values();
        lemma_pow2_le(64, 1024);
        lemma_pow2_adds(10, 1);
        lemma_pow2_adds(52, 11);
    }
    uint_to_float::<F64>(i as u128) as u64
}

pub fn u128_to_f32_bits(i: u128) -> (r: u32)
    ensures
        is_float_of_uint(format_of::<F32>(), i as nat, r as nat),
{
    proof {
        F32::lemma_format();
        lemma_format_basics(format_of::<F32>());
        lemma_pow2_values();
        lemma_pow2_adds(7, 1);
    }
    uint_to_float::<F32>(i) as u32
}

pub fn u128_to_f64_bits(i: u128) -> (r: u64)
    ensures
        is_float_of_uint(format_of::<F64>(), i as nat, r as nat),
{
    proof {
        F64::lemma_format();
        lemma_format_basics(format_of::<F64>());
        lemma_pow2_values();
        lemma_pow2_le(128, 1024);
        lemma_pow2_adds(10, 1);
        lemma_pow2_adds(52, 11);
    }
    uint_to_float::<F64>(i) as u64
}

/// The whole part of the magnitude of `x`.
pub open spec fn whole_part(fmt: Format, x: nat) -> nat {
    fmt.mag(x) / fmt.unit()
}

/// What conversion to an unsigned integer returns: zero for a NaN and for
/// every negative value, and else the value rounded toward zero, or the
/// largest integer of the type where that is exceeded.
pub open spec fn float_to_unsigned_spec<U: Int>(fmt: Format, x: nat, r: int) -> bool {
    if fmt.is_nan(x) || fmt.sign(x) {
        r == 0
    } else if whole_part(fmt, x) > int_max::<U>() {
        r == int_max::<U>()
    } else {
        r == whole_part(fmt, x)
    }
}

/// What conversion to a signed integer returns: zero for a NaN, and else
/// the value rounded toward zero, or the integer of the type nearest to it
/// where the type's range is exceeded.
pub open spec fn float_to_signed_spec<I: Int>(fmt: Format, x: nat, r: int) -> bool {
    if fmt.is_nan(x) {
        r == 0
    } else if fmt.sign(x) {
        if -whole_part(fmt, x) < int_min::<I>() {
            r == int_min::<I>()
        } else {
            r == -whole_part(fmt, x)
        }
    } else {
        if whole_part(fmt, x) > int_max::<I>() {
            r == int_max::<I>()
        } else {
            r == whole_part(fmt, x)
        }
    }
}

/// The whole part of the magnitude of the sign-less pattern `abs`, if it is
/// below `2^limit`.
fn whole_below<F: Float>(abs: u128, limit: u32) -> (r: Option<u128>)
    requires
        abs <= format_of::<F>().exp_mask(),
        1 <= limit <= 128,
    ensures
        r is Some <==> format_of::<F>().emag(abs as nat) / format_of::<F>().unit() < pow2(
            limit as nat,
        ),
        r is Some ==> r->0 == format_of::<F>().emag(abs as nat) / format_of::<F>().unit(),
{
    let ghost fmt = format_of::<F>();
    let ghost ps = pow2(fmt.sig_bits) as int;
    let ghost u = fmt.unit() as int;
    let ghost m = fmt.emag(abs as nat) as int;
    proof {
        F::lemma_format();
        lemma_format_basics(fmt);
        lemma_emag_values(fmt);
        lemma_pow2_values();
        lemma_pow2_pos(limit as nat);
        lemma_div_mod(abs as int, ps);
        lemma_div_mod(m, u);
    }
    let sig_bits = F::significand_bits();
    let bias = F::exponent_bias();
    let ef = shr_u128(abs, sig_bits);
    let frac = low_bits_u128(abs, sig_bits);
    proof {
        assert(ef <= fmt.exp_max()) by (nonlinear_arith)
            requires abs == ef * ps + frac, frac >= 0, abs <= fmt.exp_max() * ps, ps > 0;
    }
    if ef < bias as u128 {
        // below one
        proof {
            assert(abs < fmt.bias() * ps) by (nonlinear_arith)
                requires abs == ef * ps + frac, frac < ps, ef + 1 <= fmt.bias();
            crate::float::model::lemma_emag_increases(fmt, abs as nat, fmt.one());
            lemma_div_mod_unique(m, u, 0, m);
        }
        return Some(0);
    }
    let e = (ef - bias as u128) as u32;
    let ghost pw = pow2((ef - 1) as nat) as int;
    proof {
        lemma_emag_linear(fmt, ef as nat, frac as nat);
        lemma_pow2_pos((ef - 1) as nat);
        lemma_pow2_pos(e as nat);
        lemma_pow2_unfold(fmt.sig_bits + 1);
    }
    if e >= limit {
        proof {
            // the magnitude is at least 2^limit
            lemma_pow2_adds(fmt.sig_bits, (ef - 1) as nat);
            lemma_pow2_adds((fmt.bias() + fmt.sig_bits - 1) as nat, e as nat);
            lemma_pow2_le(limit as nat, e as nat);
            let pe = pow2(e as nat) as int;
            let pl = pow2(limit as nat) as int;
            assert(m >= u * pe) by (nonlinear_arith)
                requires m == (ps + frac) * pw, ps * pw == u * pe, frac >= 0, pw >= 0;
            let q = m / u;
            assert(q >= pl) by (nonlinear_arith)
                requires m == q * u + m % u, m % u < u, m >= u * pe, pe >= pl, u > 0;
        }
        return None;
    }
    let sig = F::implicit_bit() + frac;
    let r = if e >= sig_bits {
        proof {
            let up = (e - sig_bits) as nat;
            let pup = pow2(up) as int;
            lemma_pow2_pos(up);
            lemma_pow2_adds((fmt.bias() + fmt.sig_bits - 1) as nat, up);
            lemma_pow2_adds(fmt.sig_bits + 1, up);
            lemma_pow2_le(e as nat + 1, limit as nat);
            lemma_pow2_le(limit as nat, 128);
            assert(sig * pup < (2 * ps) * pup) by (nonlinear_arith)
                requires sig < 2 * ps, pup > 0;
            assert(m == (sig * pup) * u) by (nonlinear_arith)
                requires m == sig * pw, pw == u * pup;
            crate::arith::lemma_mod_multiple(sig * pup, u);
        }
        shl_u128(sig, e - sig_bits)
    } else {
        proof {
            let down = (fmt.sig_bits - e) as nat;
            let pd = pow2(down) as int;
            lemma_pow2_adds((ef - 1) as nat, down);
            lemma_pow2_pos(down);
            lemma_div_mod_scale(sig as int, pd, pw);
            assert(u == pd * pw) by (nonlinear_arith)
                requires u == pw * pd;
            lemma_div_mod(sig as int, pd);
            lemma_pow2_adds(e as nat + 1, down);
            lemma_pow2_le(e as nat + 1, limit as nat);
            let q = sig as int / pd;
            assert(q < pow2(e as nat + 1)) by (nonlinear_arith)
                requires
                    sig == q * pd + sig as int % pd,
                    0 <= sig as int % pd,
                    sig < 2 * ps,
                    2 * ps == pow2(e as nat + 1) * pd,
                    pd > 0,
            ;
        }
        shr_u128(sig, sig_bits - e)
    };
    Some(r)
}

/// Converts a float to an unsigned integer, toward zero, saturating.
pub fn float_to_unsigned_int<F: Float, U: Int>(f: F) -> (r: U)
    requires
        !U::spec_signed(),
    ensures
        float_to_unsigned_spec::<U>(format_of::<F>(), f.spec_repr(), r.value()),
{
    let ghost fmt = format_of::<F>();
    let ghost x = f.spec_repr();
    proof {
        F::lemma_format();
        f.lemma_repr();
        lemma_format_basics(fmt);
        lemma_fields(fmt, x);
        lemma_pow2_values();
        lemma_pow2_le(0, U::spec_bits());
    }
    let fbits = f.repr();
    if fbits > F::exponent_mask() {
        // a NaN, or a negative value
        return U::from_u128(0);
    }
    let bits = U::bits();
    proof {
        bits_of::<U>();
        lemma_pow2_le(U::spec_bits(), 128);
        lemma_pow2_pos(U::spec_bits());
    }
    match whole_below::<F>(fbits, bits) {
        Some(v) => U::from_u128(v),
        None => {
            // >= max (incl. inf)
            if bits == 128 {
                U::from_u128(u128::MAX)
            } else {
                U::from_u128(pow2_u128(bits) - 1)
            }
        },
    }
}

/// The width of an integer type is between 8 and 128.
proof fn bits_of<U: Int>()
    ensures
        8 <= U::spec_bits() <= 128,
        U::spec_bits() % 8 == 0,
{
    let z: U = arbitrary();
    z.lemma_int();
}

/// Converts a float to a signed integer, toward zero, saturating.
pub fn float_to_signed_int<F: Float, I: Int>(f: F) -> (r: I)
    requires
        I::spec_signed(),
    ensures
        float_to_signed_spec::<I>(format_of::<F>(), f.spec_repr(), r.value()),
{
    let ghost fmt = format_of::<F>();
    let ghost x = f.spec_repr();
    proof {
        F::lemma_format();
        f.lemma_repr();
        lemma_format_basics(fmt);
        lemma_fields(fmt, x);
        lemma_pow2_values();
        bits_of::<I>();
        lemma_pow2_le((I::spec_bits() - 1) as nat, 127);
        lemma_pow2_pos((I::spec_bits() - 1) as nat);
        if I::spec_bits() < 128 {
            lemma_pow2_strictly_increases((I::spec_bits() - 1) as nat, 127);
        }
    }
    let negative = f.is_sign_negative();
    let fbits = if negative {
        f.repr() - F::sign_mask()
    } else {
        f.repr()
    };
    if fbits > F::exponent_mask() {
        // a NaN
        return I::from_i128(0);
    }
    let bits = I::bits();
    match whole_below::<F>(fbits, bits - 1) {
        Some(v) => {
            if negative {
                I::from_i128(-(v as i128))
            } else {
                I::from_i128(v as i128)
            }
        },
        None => {
            // >= max (incl. inf)
            let top = pow2_u128(bits - 1);
            if negative {
                if bits == 128 {
                    I::from_i128(i128::MIN)
                } else {
                    I::from_i128(-(top as i128))
                }
            } else {
                I::from_i128((top - 1) as i128)
            }
        },
    }
}

} // verus!
