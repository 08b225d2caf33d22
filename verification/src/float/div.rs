//! Division by a Newton-Raphson reciprocal.
//!
//! The quotient of two finite nonzero values is the exact quotient of the two
//! rationals, rounded to nearest with ties to even. The kernel multiplies
//! the dividend's significand by an estimate of the divisor's reciprocal
//! that is known to be slightly too small, and settles the last bit by the
//! exact remainder.

use vstd::prelude::*;
use vstd::arithmetic::power2::*;
use crate::arith::{
    lemma_div_mod, lemma_pow2_le, lemma_pow2_split, lemma_pow2_values, low_bits_u128,
    pow2_u128, shl_u128, shr_u128,
};
use crate::float::{format_of, Float};
use crate::float::formats::{F128, F16, F32, F64};
use crate::integer::big::{zero_widen_mul, LIMB};
use crate::float::model::{
    Format, lemma_compose, lemma_emag_increases, lemma_emag_linear, lemma_emag_subnormal,
    lemma_field_bits, lemma_fields, lemma_format_basics, lemma_with_sign,
};
use crate::float::reciprocal::{
    estimate_128, estimate_32, estimate_64, estimate_error, estimate_ok, r128, reciprocal_128,
    reciprocal_32, reciprocal_64, U128, U3,
    U64,
};
use crate::float::rounding::{
    is_operand, lemma_nearest_even_ratio, lemma_operand_normal, lemma_operand_ratio,
    lemma_operand_subnormal, lemma_round_from_below,
};

verus! {

/// The high word of the product of two words, for words of at most 64 bits.
fn narrow_mul_hi<F: Float>(x: u128, y: u128) -> (r: u128)
    requires
        format_of::<F>().bits <= 64,
        x < pow2(format_of::<F>().bits),
        y < pow2(format_of::<F>().bits),
    ensures
        r == (x * y) / pow2(format_of::<F>().bits) as int,
{
    let ghost w = pow2(format_of::<F>().bits);
    proof {
        F::lemma_format();
        lemma_pow2_values();
        lemma_pow2_le(format_of::<F>().bits, 64);
        lemma_pow2_pos(format_of::<F>().bits);
        assert(x * y < w * w) by (nonlinear_arith)
            requires x < w, y < w;
        assert(w * w <= 0x1_0000_0000_0000_0000 * 0x1_0000_0000_0000_0000) by (nonlinear_arith)
            requires 0 < w <= 0x1_0000_0000_0000_0000;
    }
    (x * y) / pow2_u128(F::bits())
}

/// `a * 2^shift - q * b`, for words of at most 64 bits.
fn narrow_scaled_sub<F: Float>(a: u128, shift: u32, q: u128, b: u128) -> (r: u128)
    requires
        format_of::<F>().bits <= 64,
        a < pow2(format_of::<F>().bits),
        q < pow2(format_of::<F>().bits),
        b < pow2(format_of::<F>().bits),
        shift < format_of::<F>().bits,
        q * b <= a * pow2(shift as nat),
    ensures
        r == a * pow2(shift as nat) - q * b,
{
    let ghost w = pow2(format_of::<F>().bits);
    proof {
        F::lemma_format();
        lemma_pow2_values();
        lemma_pow2_le(format_of::<F>().bits, 64);
        lemma_pow2_le(shift as nat, format_of::<F>().bits);
        lemma_pow2_pos(shift as nat);
        assert(a * pow2(shift as nat) < w * w) by (nonlinear_arith)
            requires a < w, 0 < pow2(shift as nat) <= w;
        assert(q * b < w * w) by (nonlinear_arith)
            requires q < w, b < w;
        assert(w * w <= 0x1_0000_0000_0000_0000 * 0x1_0000_0000_0000_0000) by (nonlinear_arith)
            requires 0 < w <= 0x1_0000_0000_0000_0000;
    }
    shl_u128(a, shift) - q * b
}

/// What division returns. A NaN operand comes back quieted, the dividend's
/// first; infinity by infinity and zero by zero give the canonical quiet
/// NaN; otherwise infinities and zeros give the signed infinity or zero that
/// the limit asks for; and two finite nonzero values give their exact
/// quotient rounded to nearest, ties to even.
pub open spec fn div_spec(fmt: Format, a: nat, b: nat, r: nat) -> bool {
    let neg = fmt.sign(a) != fmt.sign(b);
    if fmt.is_nan(a) {
        r == fmt.quiet(a)
    } else if fmt.is_nan(b) {
        r == fmt.quiet(b)
    } else if fmt.is_inf(a) {
        if fmt.is_inf(b) {
            r == fmt.qnan()
        } else {
            r == fmt.with_sign(neg, fmt.exp_mask())
        }
    } else if fmt.is_inf(b) {
        r == fmt.with_sign(neg, 0)
    } else if fmt.is_zero(a) {
        if fmt.is_zero(b) {
            r == fmt.qnan()
        } else {
            r == fmt.with_sign(neg, 0)
        }
    } else if fmt.is_zero(b) {
        r == fmt.with_sign(neg, fmt.exp_mask())
    } else {
        &&& fmt.valid(r)
        &&& fmt.sign(r) == neg
        &&& fmt.is_nearest_even(fmt.abs(r), fmt.mag(a) * fmt.unit(), fmt.mag(b))
    }
}

/// Type-specific configuration used for float division
pub trait FloatDivision: Float {
    /// The error allowance of the reciprocal estimate, in units of its last
    /// place: the proven bound of the iteration schedule, plus two for the
    /// final decrement.
    spec fn spec_reciprocal_precision() -> nat;

    /// The allowance is small against the bits to spare in the word.
    proof fn lemma_division()
        ensures
            2 < Self::spec_reciprocal_precision(),
            8 * Self::spec_reciprocal_precision() <= pow2(Self::spec_format().exp_bits()),
    ;

    /// The reciprocal estimate that the iteration schedule of this format
    /// makes of a divisor significand aligned at the top of the word.
    spec fn spec_reciprocal(b_uq1: int) -> int;

    fn reciprocal_precision() -> (p: u16)
        ensures
            p == Self::spec_reciprocal_precision(),
    ;

    /// The high word of the product of two words.
    fn mul_hi(x: u128, y: u128) -> (r: u128)
        requires
            x < pow2(Self::spec_format().bits),
            y < pow2(Self::spec_format().bits),
        ensures
            r == (x * y) / pow2(Self::spec_format().bits) as int,
    ;

    /// `a * 2^shift - q * b`, for a difference that is not negative. Both
    /// terms may exceed the word: their difference is what must fit it.
    fn scaled_sub(a: u128, shift: u32, q: u128, b: u128) -> (r: u128)
        requires
            a < pow2(Self::spec_format().bits),
            q < pow2(Self::spec_format().bits),
            b < pow2(Self::spec_format().bits),
            shift < Self::spec_format().bits,
            0 <= a * pow2(shift as nat) - q * b < pow2(Self::spec_format().bits),
        ensures
            r == a * pow2(shift as nat) - q * b,
    ;

    /// The reciprocal estimate of a divisor significand aligned at the top
    /// of the word, after the iteration schedule of this format: its error
    /// is within the allowance, less the final decrement.
    fn reciprocal(b_uq1: u128) -> (x_uq0: u128)
        requires
            pow2((Self::spec_format().bits - 1) as nat) <= b_uq1 < pow2(Self::spec_format().bits),
        ensures
            x_uq0 == Self::spec_reciprocal(b_uq1 as int),
            estimate_ok(
                x_uq0 as int,
                b_uq1 as int,
                pow2(Self::spec_format().bits) as int,
                Self::spec_reciprocal_precision() - 2,
            ),
    ;
}

impl FloatDivision for F16 {
    fn mul_hi(x: u128, y: u128) -> (r: u128) {
        narrow_mul_hi::<F16>(x, y)
    }

    fn scaled_sub(a: u128, shift: u32, q: u128, b: u128) -> (r: u128) {
        narrow_scaled_sub::<F16>(a, shift, q, b)
    }

    open spec fn spec_reciprocal_precision() -> nat {
        4
    }

    proof fn lemma_division() {
        lemma_pow2_values();
    }

    fn reciprocal_precision() -> (p: u16) {
        4
    }

    /// The upper half of the estimate at 32 bits.
    open spec fn spec_reciprocal(b_uq1: int) -> int {
        estimate_32(b_uq1 * 0x1_0000) / 0x1_0000
    }

    fn reciprocal(b_uq1: u128) -> (x_uq0: u128) {
        proof {
            lemma_pow2_values();
        }
        let b = (b_uq1 * 0x1_0000) as u64;
        let x = reciprocal_32(b);
        proof {
            lemma_upper_half(x as int, b_uq1 as int);
        }
        (x / 0x1_0000) as u128
    }
}

/// The upper half of a 32-bit estimate of the reciprocal of a 16-bit divisor
/// is an estimate at 16 bits, at most two units of its last place too small
/// and not too large.
proof fn lemma_upper_half(x: int, b: int)
    requires
        0x8000 <= b < 0x1_0000,
        0 <= x < 0x1_0000_0000,
        crate::float::reciprocal::recip_ok(x, b * 0x1_0000, 8),
    ensures
        estimate_ok(x / 0x1_0000, b, 0x1_0000, 2),
{
    let x16 = x / 0x1_0000;
    let low = x % 0x1_0000;
    let b32 = b * 0x1_0000;
    if x != 0 {
        let e = x16 * b - 0x8000_0000;
        assert(x * b32 == (x16 * b) * 0x1_0000_0000 + low * b32) by (nonlinear_arith)
            requires x == x16 * 0x1_0000 + low, b32 == b * 0x1_0000;
        assert(0 <= low * b32 <= 0xffff * b32) by (nonlinear_arith)
            requires 0 <= low <= 0xffff, b32 >= 0;
        assert(8 * b32 + 0xffff * b32 < 2 * b * 0x1_0000_0000) by (nonlinear_arith)
            requires b32 == b * 0x1_0000, b > 0;
        assert(e * 0x1_0000_0000 > -(2 * b) * 0x1_0000_0000) by (nonlinear_arith)
            requires
                e == x16 * b - 0x8000_0000,
                x * b32 == (x16 * b) * 0x1_0000_0000 + low * b32,
                x * b32 - 0x1_0000_0000 * 0x8000_0000 >= -(8 * b32),
                low * b32 <= 0xffff * b32,
                8 * b32 + 0xffff * b32 < 2 * b * 0x1_0000_0000,
        ;
        assert(e * 0x1_0000_0000 < 0x1_0000_0000) by (nonlinear_arith)
            requires
                e == x16 * b - 0x8000_0000,
                x * b32 == (x16 * b) * 0x1_0000_0000 + low * b32,
                x * b32 - 0x1_0000_0000 * 0x8000_0000 < 0x1_0000_0000,
                low * b32 >= 0,
        ;
        assert(x16 >= 2);
        assert(estimate_error(x16, b, 0x1_0000) == e);
        assert(-(2 * b) < e < 1);
    } else {
        assert(x16 == 0);
        assert(0 * b == 0);
        assert(estimate_error(0, b, 0x1_0000) == 0x1_0000 * b - 0x8000_0000);
        assert(0x1_0000_0000 * b32 == 0x1_0000_0000_0000 * b) by (nonlinear_arith)
            requires b32 == b * 0x1_0000;
    }
}

impl FloatDivision for F32 {
    fn mul_hi(x: u128, y: u128) -> (r: u128) {
        narrow_mul_hi::<F32>(x, y)
    }

    fn scaled_sub(a: u128, shift: u32, q: u128, b: u128) -> (r: u128) {
        narrow_scaled_sub::<F32>(a, shift, q, b)
    }

    open spec fn spec_reciprocal_precision() -> nat {
        10
    }

    proof fn lemma_division() {
        lemma_pow2_values();
    }

    /// Three iterations at the full width of 32 bits.
    open spec fn spec_reciprocal(b_uq1: int) -> int {
        estimate_32(b_uq1)
    }

    fn reciprocal_precision() -> (p: u16) {
        10
    }

    fn reciprocal(b_uq1: u128) -> (x_uq0: u128) {
        proof {
            lemma_pow2_values();
        }
        let x = reciprocal_32(b_uq1 as u64);
        proof {
            assert(U3 * b_uq1 == 8 * b_uq1) by (nonlinear_arith)
                requires U3 == 8;
        }
        x as u128
    }
}

impl FloatDivision for F64 {
    fn mul_hi(x: u128, y: u128) -> (r: u128) {
        narrow_mul_hi::<F64>(x, y)
    }

    fn scaled_sub(a: u128, shift: u32, q: u128, b: u128) -> (r: u128) {
        narrow_scaled_sub::<F64>(a, shift, q, b)
    }

    open spec fn spec_reciprocal_precision() -> nat {
        220
    }

    proof fn lemma_division() {
        lemma_pow2_values();
        lemma_pow2_adds(10, 1);
    }

    /// Three iterations at half the width, and one at the full width of 64 bits.
    open spec fn spec_reciprocal(b_uq1: int) -> int {
        estimate_64(b_uq1)
    }

    fn reciprocal_precision() -> (p: u16) {
        220
    }

    fn reciprocal(b_uq1: u128) -> (x_uq0: u128) {
        proof {
            lemma_pow2_values();
        }
        let x = reciprocal_64(b_uq1);
        proof {
            assert(U64 * b_uq1 == 218 * b_uq1) by (nonlinear_arith)
                requires U64 == 218;
        }
        x
    }
}

impl FloatDivision for F128 {
    open spec fn spec_reciprocal_precision() -> nat {
        169
    }

    proof fn lemma_division() {
        lemma_pow2_values();
    }

    fn reciprocal_precision() -> (p: u16) {
        169
    }

    /// Three iterations at a quarter of the width, two at half the width, and
    /// one at the full width of 128 bits.
    open spec fn spec_reciprocal(b_uq1: int) -> int {
        estimate_128(b_uq1)
    }

    fn mul_hi(x: u128, y: u128) -> (r: u128) {
        proof {
            lemma_pow2_values();
            assert(LIMB * LIMB == pow2(128)) by (nonlinear_arith)
                requires LIMB == 0x1_0000_0000_0000_0000, pow2(128)
                    == 0x1_0000_0000_0000_0000_0000_0000_0000_0000;
        }
        zero_widen_mul(x, y).hi()
    }

    fn scaled_sub(a: u128, shift: u32, q: u128, b: u128) -> (r: u128) {
        let ghost w = pow2(128) as int;
        let ghost ps = pow2(shift as nat) as int;
        proof {
            lemma_pow2_values();
            assert(LIMB * LIMB == pow2(128)) by (nonlinear_arith)
                requires LIMB == 0x1_0000_0000_0000_0000, pow2(128)
                    == 0x1_0000_0000_0000_0000_0000_0000_0000_0000;
            lemma_pow2_pos(shift as nat);
        }
        // both terms modulo 2^128: their difference is the same
        let down = 128 - shift;
        let low = if shift == 0 {
            a
        } else {
            low_bits_u128(a, down)
        };
        proof {
            if shift == 0 {
                assert(a * 1 == a);
                assert(a == 0 * w + low * ps) by (nonlinear_arith)
                    requires low == a, ps == 1;
            } else {
                let pd = pow2(down as nat) as int;
                lemma_pow2_adds(down as nat, shift as nat);
                lemma_pow2_pos(down as nat);
                lemma_div_mod(a as int, pd);
                let high = a as int / pd;
                assert(a * ps == high * w + low * ps) by (nonlinear_arith)
                    requires a == high * pd + low, pd * ps == w;
                assert(0 <= low * ps < w) by (nonlinear_arith)
                    requires 0 <= low < pd, pd * ps == w, ps > 0;
            }
        }
        let term = shl_u128(low, shift);
        let product = zero_widen_mul(q, b).lo();
        proof {
            let k1 = (a * ps - term) / w;
            let qb = q * b;
            lemma_div_mod(qb as int, w);
            let k2 = qb as int / w;
            assert(a * ps - term == k1 * w) by {
                if shift == 0 {
                    crate::arith::lemma_div_mod_unique(a * ps - term, w, 0, 0);
                } else {
                    let high = a as int / (pow2(down as nat) as int);
                    crate::arith::lemma_mod_multiple(high, w);
                }
            }
            let diff = a * ps - qb;
            assert(diff == (k1 - k2) * w + (term - product)) by (nonlinear_arith)
                requires diff == a * ps - qb, a * ps - term == k1 * w, qb == k2 * w + product;
            if term >= product {
                assert(k1 - k2 == 0) by (nonlinear_arith)
                    requires
                        0 <= (k1 - k2) * w + (term - product) < w,
                        0 <= term - product < w,
                        w > 0,
                ;
                assert((k1 - k2) * w == 0) by (nonlinear_arith)
                    requires k1 - k2 == 0;
            } else {
                assert(k1 - k2 == 1) by (nonlinear_arith)
                    requires
                        0 <= (k1 - k2) * w + (term - product) < w,
                        -w < term - product < 0,
                        w > 0,
                ;
                assert((k1 - k2) * w == w) by (nonlinear_arith)
                    requires k1 - k2 == 1;
            }
        }
        if term >= product {
            term - product
        } else {
            term + (u128::MAX - product) + 1
        }
    }

    fn reciprocal(b_uq1: u128) -> (x_uq0: u128) {
        proof {
            lemma_pow2_values();
            assert(r128() == pow2(128)) by (nonlinear_arith)
                requires
                    r128() == 0x1_0000_0000_0000_0000 * 0x1_0000_0000_0000_0000,
                    pow2(128) == 0x1_0000_0000_0000_0000_0000_0000_0000_0000,
            ;
        }
        let x = reciprocal_128(b_uq1);
        proof {
            assert(U128 * b_uq1 == 167 * b_uq1) by (nonlinear_arith)
                requires U128 == 167;
        }
        x
    }
}

/// The quotient digit string from the reciprocal. With `rw` the word size,
/// `ps` the implicit bit, `t = rw / (2 * ps)`, significands `a` and `bs`, and
/// an estimate `x` of the reciprocal of `bs * t` that is too small by more
/// than nothing and at most `2 * p` units: the product `2 * x * a / rw` is
/// the quotient `a * 2 * ps / bs` cut off, at most one and a half too low.
proof fn lemma_quotient_estimate(x: int, a: int, bs: int, rw: int, ps: int, t: int, p: int)
    requires
        rw == 2 * ps * t,
        ps > 0,
        t > 0,
        ps <= a < 2 * ps,
        ps <= bs < 2 * ps,
        0 <= x,
        0 < rw * (rw / 2) - x * (bs * t) <= 2 * p * (bs * t),
        p >= 0,
        8 * p <= t,
    ensures
        ({
            let qr = (x * (2 * a)) / rw;
            &&& ps <= qr < 4 * ps
            &&& 0 < a * (2 * ps) - qr * bs
            &&& 2 * (a * (2 * ps) - qr * bs) < 3 * bs
        }),
{
    let w = x * (2 * a);
    let qr = w / rw;
    let s = w % rw;
    assert(rw > 0) by (nonlinear_arith)
        requires rw == 2 * ps * t, ps > 0, t > 0;
    lemma_div_mod(w, rw);
    assert(w == qr * rw + s);
    let half = ps * t;
    assert(rw == 2 * half) by (nonlinear_arith)
        requires rw == 2 * ps * t, half == ps * t;
    assert(rw / 2 == half);
    let xb = x * bs;
    let full = 2 * ps * ps * t;
    assert(rw * half == full * t) by (nonlinear_arith)
        requires rw == 2 * ps * t, half == ps * t, full == 2 * ps * ps * t;
    assert(x * (bs * t) == xb * t) by (nonlinear_arith)
        requires xb == x * bs;
    let dl = full - xb;
    assert((full - xb) * t == full * t - xb * t) by (nonlinear_arith);
    assert(2 * p * (bs * t) == (2 * p * bs) * t) by (nonlinear_arith);
    assert(0 < dl <= 2 * p * bs) by (nonlinear_arith)
        requires 0 < dl * t <= (2 * p * bs) * t, t > 0;
    let res = a * (2 * ps) - qr * bs;
    // rw * res == 2 a dl + s bs
    assert(ps * rw == full) by (nonlinear_arith)
        requires rw == 2 * ps * t, full == 2 * ps * ps * t;
    assert((x * (2 * a)) * bs == (2 * a) * xb) by (nonlinear_arith)
        requires xb == x * bs;
    assert((qr * rw + s) * bs == (qr * rw) * bs + s * bs) by (nonlinear_arith);
    assert(rw * (qr * bs) == (qr * rw) * bs) by (nonlinear_arith);
    assert(rw * (a * (2 * ps)) == (2 * a) * full) by (nonlinear_arith)
        requires ps * rw == full;
    assert(rw * res == rw * (a * (2 * ps)) - rw * (qr * bs)) by (nonlinear_arith)
        requires res == a * (2 * ps) - qr * bs;
    assert((2 * a) * full - (2 * a) * xb == 2 * a * dl) by (nonlinear_arith)
        requires dl == full - xb;
    assert(rw * res == 2 * a * dl + s * bs);
    assert(2 * a * dl > 0) by (nonlinear_arith)
        requires a > 0, dl > 0;
    assert(s * bs >= 0) by (nonlinear_arith)
        requires s >= 0, bs >= 0;
    assert(res > 0) by (nonlinear_arith)
        requires rw * res > 0, rw > 0;
    assert(2 * a * dl <= 8 * p * ps * bs) by (nonlinear_arith)
        requires 0 < dl <= 2 * p * bs, 0 < a < 2 * ps, p >= 0, bs > 0;
    assert(8 * p * ps * bs <= half * bs) by (nonlinear_arith)
        requires 8 * p <= t, half == ps * t, ps > 0, bs > 0;
    assert(s * bs < rw * bs) by (nonlinear_arith)
        requires s < rw, bs > 0;
    assert(2 * (half * bs) == rw * bs) by (nonlinear_arith)
        requires rw == 2 * half;
    assert(2 * (rw * res) < 3 * (rw * bs));
    assert(2 * res < 3 * bs) by (nonlinear_arith)
        requires 2 * (rw * res) < 3 * (rw * bs), rw > 0;
    // the size of the quotient
    assert(qr < 4 * ps) by (nonlinear_arith)
        requires qr * bs < a * (2 * ps), a < 2 * ps, bs >= ps, ps > 0;
    assert(qr >= ps) by {
        if qr < ps {
            assert(qr * bs <= (ps - 1) * bs) by (nonlinear_arith)
                requires qr <= ps - 1, bs >= 0;
            assert((2 * ps + 1) * bs <= 4 * (ps * ps) - 1) by (nonlinear_arith)
                requires 0 <= bs <= 2 * ps - 1, ps > 0;
            assert(a * (2 * ps) >= 2 * (ps * ps)) by (nonlinear_arith)
                requires a >= ps, ps > 0;
            assert((2 * ps + 1) * bs == 2 * ((ps - 1) * bs) + 3 * bs) by (nonlinear_arith);
        }
    }
}

/// The quotient is beyond the finite range: it rounds to infinity.
proof fn lemma_div_overflow(
    fmt: Format,
    a: nat,
    sa: nat,
    ea: int,
    b: nat,
    sb: nat,
    eb: int,
    c: nat,
    we: int,
    q: nat,
)
    requires
        fmt.wf(),
        is_operand(fmt, a, sa, ea),
        is_operand(fmt, b, sb, eb),
        c <= 1,
        we == ea - eb + fmt.bias() - c,
        we >= fmt.exp_max(),
        pow2(fmt.sig_bits) <= q,
        q * sb <= (sa * pow2(c)) * pow2(fmt.sig_bits),
    ensures
        fmt.is_nearest_even(fmt.exp_mask(), fmt.mag(a) * fmt.unit(), fmt.mag(b)),
{
    lemma_format_basics(fmt);
    let s = fmt.sig_bits;
    let ps = pow2(s) as int;
    let k1 = (fmt.bias() + s - 1) as nat;
    let k2 = (c + s + we - 1) as nat;
    lemma_operand_ratio(fmt, a, sa, ea, b, sb, eb, k1, k2);
    let ma = fmt.mag(a) as int;
    let mb = fmt.mag(b) as int;
    let u = fmt.unit() as int;
    let pw = pow2((we - 1) as nat) as int;
    let pm = pow2((fmt.exp_max() - 1) as nat) as int;
    let pc = pow2(c) as int;
    lemma_pow2_adds(c, s);
    lemma_pow2_adds(c + s, (we - 1) as nat);
    lemma_pow2_le((fmt.exp_max() - 1) as nat, (we - 1) as nat);
    let r = fmt.exp_mask();
    lemma_emag_linear(fmt, fmt.exp_max(), 0);
    lemma_emag_increases(fmt, (r - 1) as nat, r);
    let m0 = fmt.emag((r - 1) as nat) as int;
    let m1 = fmt.emag(r) as int;
    assert(m1 == ps * pm);
    let num = ma * u;
    // num * sb == (sa * pc * ps) * pw * mb >= q * sb * pw * mb >= ps * pm * sb * mb
    assert(num * sb == ((sa * pc) * ps) * (pw * mb)) by (nonlinear_arith)
        requires num == ma * u, ma * u * sb == sa * (pc * ps * pw) * mb;
    assert(((sa * pc) * ps) * (pw * mb) >= (q * sb) * (pw * mb)) by (nonlinear_arith)
        requires q * sb <= (sa * pc) * ps, pw >= 0, mb >= 0, pw * mb >= 0;
    assert(pw * mb >= 0) by (nonlinear_arith)
        requires pw >= 0, mb >= 0;
    assert((q * sb) * (pw * mb) >= (m1 * mb) * sb) by (nonlinear_arith)
        requires q >= ps, pw >= pm, m1 == ps * pm, sb >= 0, mb >= 0, ps >= 0, pm >= 0;
    assert(num >= m1 * mb) by (nonlinear_arith)
        requires num * sb >= (m1 * mb) * sb, sb > 0;
    assert((m0 + m1) * mb < 2 * (m1 * mb)) by (nonlinear_arith)
        requires m0 < m1, mb > 0;
}

/// The quotient is at most half the smallest subnormal: it rounds to zero.
proof fn lemma_div_underflow(
    fmt: Format,
    a: nat,
    sa: nat,
    ea: int,
    b: nat,
    sb: nat,
    eb: int,
    c: nat,
    we: int,
)
    requires
        fmt.wf(),
        is_operand(fmt, a, sa, ea),
        is_operand(fmt, b, sb, eb),
        c <= 1,
        we == ea - eb + fmt.bias() - c,
        fmt.sig_bits + we < 0,
        sa * pow2(c) <= 2 * sb,
    ensures
        fmt.is_nearest_even(0, fmt.mag(a) * fmt.unit(), fmt.mag(b)),
{
    lemma_format_basics(fmt);
    let s = fmt.sig_bits;
    let k1 = (fmt.bias() - we) as nat;
    lemma_operand_ratio(fmt, a, sa, ea, b, sb, eb, k1, c);
    let ma = fmt.mag(a) as int;
    let mb = fmt.mag(b) as int;
    let u = fmt.unit() as int;
    let pk = pow2(k1) as int;
    let pc = pow2(c) as int;
    // 2^k1 >= 4 * unit
    lemma_pow2_le((fmt.bias() + s + 1) as nat, k1);
    lemma_pow2_unfold((fmt.bias() + s + 1) as nat);
    lemma_pow2_unfold((fmt.bias() + s) as nat);
    assert(pk >= 4 * u);
    assert((ma * pk) * sb <= (2 * mb) * sb) by (nonlinear_arith)
        requires ma * pk * sb == sa * pc * mb, sa * pc <= 2 * sb, mb >= 0;
    assert(ma * pk <= 2 * mb) by (nonlinear_arith)
        requires (ma * pk) * sb <= (2 * mb) * sb, sb > 0;
    assert(ma * (4 * u) <= ma * pk) by (nonlinear_arith)
        requires pk >= 4 * u, ma >= 0;
    assert(ma * (4 * u) == 4 * (ma * u)) by (nonlinear_arith);
    lemma_emag_subnormal(fmt, 0);
    lemma_emag_subnormal(fmt, 1);
    lemma_pow2_le(0, s);
    lemma_pow2_values();
    assert((0 + 1) * mb == mb) by (nonlinear_arith);
}

/// A quotient in the normal range: the pattern made of the exponent `we` and
/// the quotient digits `q`, which lie at most one and a half below the exact
/// quotient, goes up by one where the doubled remainder, plus one if the
/// pattern is odd, exceeds the divisor; that is the exact quotient rounded.
proof fn lemma_div_normal(
    fmt: Format,
    a: nat,
    sa: nat,
    ea: int,
    b: nat,
    sb: nat,
    eb: int,
    c: nat,
    we: int,
    q: nat,
    up: bool,
)
    requires
        fmt.wf(),
        is_operand(fmt, a, sa, ea),
        is_operand(fmt, b, sb, eb),
        c <= 1,
        we == ea - eb + fmt.bias() - c,
        1 <= we < fmt.exp_max(),
        pow2(fmt.sig_bits) <= q < 2 * pow2(fmt.sig_bits),
        q * sb <= (sa * pow2(c)) * pow2(fmt.sig_bits),
        2 * ((sa * pow2(c)) * pow2(fmt.sig_bits) - q * sb) < 3 * sb,
        up == (2 * ((sa * pow2(c)) * pow2(fmt.sig_bits) - q * sb) + ((q - pow2(fmt.sig_bits) + we
            * pow2(fmt.sig_bits)) as nat) % 2 > sb),
    ensures
        ({
            let r0 = (q - pow2(fmt.sig_bits) + we * pow2(fmt.sig_bits)) as nat;
            &&& r0 < fmt.exp_mask()
            &&& fmt.is_nearest_even(
                if up {
                    r0 + 1
                } else {
                    r0
                },
                fmt.mag(a) * fmt.unit(),
                fmt.mag(b),
            )
        }),
{
    lemma_format_basics(fmt);
    let s = fmt.sig_bits;
    let ps = pow2(s) as int;
    let k1 = (fmt.bias() + s - 1) as nat;
    let k2 = (c + s + we - 1) as nat;
    lemma_operand_ratio(fmt, a, sa, ea, b, sb, eb, k1, k2);
    let ma = fmt.mag(a) as int;
    let mb = fmt.mag(b) as int;
    let u = fmt.unit() as int;
    let pw = pow2((we - 1) as nat) as int;
    let pc = pow2(c) as int;
    lemma_pow2_adds(c, s);
    lemma_pow2_adds(c + s, (we - 1) as nat);
    lemma_pow2_pos((we - 1) as nat);
    let g = (q - ps) as nat;
    let r0 = (we * ps + g) as nat;
    assert(r0 == (we as nat) * pow2(s) + g);
    lemma_emag_linear(fmt, we as nat, g);
    lemma_compose(fmt, we as nat, g);
    assert(fmt.emag(r0) == q * pw);
    assert(fmt.ulp(r0) == pw);
    assert(r0 < fmt.exp_mask()) by (nonlinear_arith)
        requires r0 == we * ps + g, g < ps, we + 1 <= fmt.exp_max(), fmt.exp_mask() == fmt.exp_max() * ps, ps > 0;
    let ap = sa * pc;
    let num2 = ((ap * ps) * pw) as nat;
    let rem = ap * ps - q * sb;
    assert((q * pw) * sb <= num2) by (nonlinear_arith)
        requires q * sb <= ap * ps, num2 == (ap * ps) * pw, pw >= 0;
    assert(num2 - (q * pw) * sb == rem * pw) by (nonlinear_arith)
        requires num2 == (ap * ps) * pw, rem == ap * ps - q * sb;
    assert(2 * (rem * pw) < 3 * (pw * sb)) by (nonlinear_arith)
        requires 2 * rem < 3 * sb, pw > 0;
    assert(2 * (rem * pw) > pw * sb <==> 2 * rem > sb) by (nonlinear_arith)
        requires pw > 0;
    assert(2 * (rem * pw) == pw * sb <==> 2 * rem == sb) by (nonlinear_arith)
        requires pw > 0;
    lemma_round_from_below(fmt, r0, num2, sb, up);
    let r = if up { r0 + 1 } else { r0 };
    assert((ma * u) * sb == num2 * mb) by (nonlinear_arith)
        requires ma * u * sb == sa * (pc * ps * pw) * mb, num2 == ((sa * pc) * ps) * pw;
    lemma_nearest_even_ratio(fmt, r, (ma * u) as nat, mb as nat, num2, sb);
}

/// The remainder of a quotient that was shifted down into the subnormal range.
proof fn lemma_div_subnormal_bounds(ap: int, sb: int, q: int, ps: int, pu: int, ph: int)
    requires
        ps == pu * ph,
        pu >= 1,
        ph >= 1,
        sb > 0,
        q >= 0,
        q * sb <= ap * ps,
        2 * (ap * ps - q * sb) < 3 * sb,
    ensures
        2 * ((q / (2 * ph)) * sb) <= ap * pu,
        ap * pu - 2 * ((q / (2 * ph)) * sb) < 3 * sb,
{
    let ret = q / (2 * ph);
    let low = q % (2 * ph);
    lemma_div_mod(q, 2 * ph);
    let res = ap * pu - 2 * (ret * sb);
    assert(ph * res == (ap * ps - q * sb) + low * sb) by (nonlinear_arith)
        requires res == ap * pu - 2 * (ret * sb), q == ret * (2 * ph) + low, ps == pu * ph;
    assert(0 <= low * sb <= (2 * ph - 1) * sb) by (nonlinear_arith)
        requires 0 <= low <= 2 * ph - 1, sb > 0;
    assert((2 * ph - 1) * sb == 2 * (ph * sb) - sb) by (nonlinear_arith);
    assert(res >= 0) by (nonlinear_arith)
        requires ph * res >= 0, ph >= 1;
    assert(2 * (ph * res) < 4 * (ph * sb) + sb);
    assert(sb <= ph * sb) by (nonlinear_arith)
        requires ph >= 1, sb > 0;
    assert(ph * (2 * res) == 2 * (ph * res)) by (nonlinear_arith);
    assert(ph * (5 * sb) == 5 * (ph * sb)) by (nonlinear_arith);
    assert(2 * res < 5 * sb) by (nonlinear_arith)
        requires ph * (2 * res) < ph * (5 * sb), ph >= 1;
}

/// A quotient in the subnormal range: the digits `ret` that are left after
/// the shift go up by one where the remainder `res`, plus one if `ret` is
/// odd, exceeds the divisor; that is the exact quotient rounded.
proof fn lemma_div_subnormal(
    fmt: Format,
    a: nat,
    sa: nat,
    ea: int,
    b: nat,
    sb: nat,
    eb: int,
    c: nat,
    we: int,
    ret: nat,
    res: nat,
    up: bool,
)
    requires
        fmt.wf(),
        is_operand(fmt, a, sa, ea),
        is_operand(fmt, b, sb, eb),
        c <= 1,
        we == ea - eb + fmt.bias() - c,
        we <= 0,
        fmt.sig_bits + we >= 0,
        ret < pow2(fmt.sig_bits),
        res + 2 * (ret * sb) == (sa * pow2(c)) * pow2((fmt.sig_bits + we) as nat),
        res < 3 * sb,
        up == (res + ret % 2 > sb),
    ensures
        fmt.is_nearest_even(if up { ret + 1 } else { ret }, fmt.mag(a) * fmt.unit(), fmt.mag(b)),
        ret + 1 < fmt.exp_mask(),
{
    lemma_format_basics(fmt);
    let s = fmt.sig_bits;
    let ps = pow2(s) as int;
    let k1 = (fmt.bias() + s) as nat;
    let k2 = (c + s + we) as nat;
    lemma_operand_ratio(fmt, a, sa, ea, b, sb, eb, k1, k2);
    let ma = fmt.mag(a) as int;
    let mb = fmt.mag(b) as int;
    let u = fmt.unit() as int;
    let pu = pow2((s + we) as nat) as int;
    let pc = pow2(c) as int;
    lemma_pow2_adds(c, (s + we) as nat);
    lemma_pow2_unfold(k1);
    lemma_emag_subnormal(fmt, ret);
    lemma_compose(fmt, 0, ret);
    assert(0 * pow2(s) + ret == ret);
    assert(fmt.ulp(ret) == 1);
    assert(ret < fmt.exp_mask() && ret + 1 < fmt.exp_mask()) by (nonlinear_arith)
        requires ret < ps, fmt.exp_mask() == fmt.exp_max() * ps, fmt.exp_max() >= 7, ps > 0;
    let num2 = ((sa * pc) * pu) as nat;
    let den2 = (2 * sb) as nat;
    assert(fmt.emag(ret) * den2 == 2 * (ret * sb)) by (nonlinear_arith)
        requires fmt.emag(ret) == ret, den2 == 2 * sb;
    assert(1 * den2 == den2);
    lemma_round_from_below(fmt, ret, num2, den2, up);
    let r = if up { ret + 1 } else { ret };
    assert((ma * u) * den2 == num2 * mb) by (nonlinear_arith)
        requires
            ma * (2 * u) * sb == sa * (pc * pu) * mb,
            num2 == (sa * pc) * pu,
            den2 == 2 * sb,
    ;
    lemma_nearest_even_ratio(fmt, r, (ma * u) as nat, mb as nat, num2, den2);
}

/// Returns `a / b`
pub fn div<F: FloatDivision>(a: F, b: F) -> (r: F)
    ensures
        div_spec(format_of::<F>(), a.spec_repr(), b.spec_repr(), r.spec_repr()),
{
    let ghost fmt = format_of::<F>();
    let ghost xa = a.spec_repr();
    let ghost xb = b.spec_repr();
    let ghost ps = pow2(fmt.sig_bits);
    proof {
        F::lemma_format();
        F::lemma_division();
        a.lemma_repr();
        b.lemma_repr();
        lemma_format_basics(fmt);
        lemma_fields(fmt, xa);
        lemma_fields(fmt, xb);
        lemma_field_bits(fmt, xa);
        lemma_field_bits(fmt, xb);
        lemma_pow2_values();
        lemma_pow2_le(fmt.bits, 128);
        lemma_pow2_unfold(fmt.sig_bits);
        lemma_with_sign(fmt, fmt.sign(xa) != fmt.sign(xb), 0);
        lemma_with_sign(fmt, fmt.sign(xa) != fmt.sign(xb), fmt.exp_mask());
        crate::float::model::lemma_subnormal_pattern(fmt, xa);
        crate::float::model::lemma_subnormal_pattern(fmt, xb);
    }
    let significand_bits = F::significand_bits();
    // Saturated exponent, representing infinity
    let exponent_sat = F::exponent_max();
    let exponent_bias = F::exponent_bias();
    let implicit_bit = F::implicit_bit();
    let sign_bit = F::sign_mask();
    let inf_rep = F::exponent_mask();
    let quiet_bit = implicit_bit / 2;
    let qnan_rep = inf_rep + quiet_bit;

    let a_rep = a.repr();
    let b_rep = b.repr();

    // Exponent numeric representation, not accounting for bias
    let a_exponent = a.ex();
    let b_exponent = b.ex();
    let quotient_sign = if a.is_sign_negative() != b.is_sign_negative() {
        sign_bit
    } else {
        0
    };

    let mut a_significand = low_bits_u128(a_rep, significand_bits);
    let mut b_significand = low_bits_u128(b_rep, significand_bits);
    let mut scale: i32 = 0;
    let ghost mut ea: int = a_exponent as int;
    let ghost mut eb: int = b_exponent as int;

    // Detect if a or b is zero, denormal, infinity, or NaN.
    if a_exponent == 0 || a_exponent == exponent_sat || b_exponent == 0 || b_exponent
        == exponent_sat {
        let a_abs = if a_rep >= sign_bit {
            a_rep - sign_bit
        } else {
            a_rep
        };
        let b_abs = if b_rep >= sign_bit {
            b_rep - sign_bit
        } else {
            b_rep
        };

        // NaN / anything = qNaN
        if a_abs > inf_rep {
            return F::from_repr(F::quieted(a_rep));
        }
        // anything / NaN = qNaN

        if b_abs > inf_rep {
            return F::from_repr(F::quieted(b_rep));
        }
        if a_abs == inf_rep {
            if b_abs == inf_rep {
                // infinity / infinity = NaN
                return F::from_repr(qnan_rep);
            } else {
                // infinity / anything else = +/- infinity
                return F::from_repr(a_abs + quotient_sign);
            }
        }
        // anything else / infinity = +/- 0

        if b_abs == inf_rep {
            return F::from_repr(quotient_sign);
        }
        if a_abs == 0 {
            if b_abs == 0 {
                // zero / zero = NaN
                return F::from_repr(qnan_rep);
            } else {
                // zero / anything else = +/- zero
                return F::from_repr(quotient_sign);
            }
        }
        // anything else / zero = +/- infinity

        if b_abs == 0 {
            return F::from_repr(inf_rep + quotient_sign);
        }
        // a is denormal. Renormalize it and set the scale to include the necessary exponent
        // adjustment.

        if a_abs < implicit_bit {
            let (exponent, significand) = F::normalize(a_significand);
            proof {
                lemma_operand_subnormal(fmt, xa, (1 - exponent) as nat);
                ea = exponent as int;
            }
            scale += exponent;
            a_significand = significand;
        }
        // b is denormal. Renormalize it and set the scale to include the necessary exponent
        // adjustment.

        if b_abs < implicit_bit {
            let (exponent, significand) = F::normalize(b_significand);
            proof {
                lemma_operand_subnormal(fmt, xb, (1 - exponent) as nat);
                eb = exponent as int;
            }
            scale -= exponent;
            b_significand = significand;
        }
    }
    // Set the implicit significand bit. If we fell through from the
    // denormal path it was already set by normalize( ).

    if a_significand < implicit_bit {
        a_significand += implicit_bit;
    }
    if b_significand < implicit_bit {
        b_significand += implicit_bit;
    }
    let ghost sa = a_significand as nat;
    let ghost sb = b_significand as nat;
    proof {
        if a_exponent != 0 {
            lemma_operand_normal(fmt, xa);
        }
        if b_exponent != 0 {
            lemma_operand_normal(fmt, xb);
        }
        assert(is_operand(fmt, xa, sa, ea));
        assert(is_operand(fmt, xb, sb, eb));
    }
    let written_exponent: i32 = a_exponent as i32 - b_exponent as i32 + scale
        + exponent_bias as i32;
    assert(written_exponent == ea - eb + fmt.bias());

    proof {
        lemma_pow2_le(fmt.sig_bits + 2, fmt.bits);
        lemma_pow2_le(fmt.bits, 128);
        lemma_pow2_unfold(fmt.sig_bits + 2);
        lemma_pow2_unfold(fmt.sig_bits + 1);
    }
    let (quotient, residual, doubled) = quotient_digits::<F>(a_significand, b_significand);
    let written_exponent = if doubled {
        written_exponent - 1
    } else {
        written_exponent
    };
    if doubled {
        a_significand = 2 * a_significand;
    }
    let abs_result = round_quotient::<F>(
        quotient,
        residual,
        a_significand,
        b_significand,
        written_exponent,
        Ghost(xa),
        Ghost(sa),
        Ghost(ea),
        Ghost(xb),
        Ghost(eb),
        Ghost(if doubled { 1 } else { 0 }),
    );
    proof {
        lemma_with_sign(fmt, fmt.sign(xa) != fmt.sign(xb), abs_result as nat);
    }
    F::from_repr(abs_result + quotient_sign)
}

/// The digits of the quotient of two significands, from the reciprocal
/// estimate: `quotient`, with its leading bit the implicit bit, lies at or
/// below the exact quotient of the dividend's significand, doubled if
/// `doubled`, by the divisor's, and less than one and a half units below.
/// `residual` is the exact remainder that is left.
fn quotient_digits<F: FloatDivision>(a_significand: u128, b_significand: u128) -> (r: (
    u128,
    u128,
    bool,
))
    requires
        pow2(format_of::<F>().sig_bits) <= a_significand < 2 * pow2(format_of::<F>().sig_bits),
        pow2(format_of::<F>().sig_bits) <= b_significand < 2 * pow2(format_of::<F>().sig_bits),
    ensures
        ({
            let ps = pow2(format_of::<F>().sig_bits);
            let ap = if r.2 { 2 * a_significand } else { a_significand as int };
            &&& ps <= r.0 < 2 * ps
            &&& r.1 == ap * ps - r.0 * b_significand
            &&& 0 < 2 * r.1 < 3 * b_significand
            &&& ap <= 2 * b_significand
        }),
{
    let ghost fmt = format_of::<F>();
    let ghost ps = pow2(fmt.sig_bits);
    let ghost sa = a_significand as nat;
    let ghost sb = b_significand as nat;
    let ghost t = pow2(fmt.exp_bits());
    let ghost rw = pow2(fmt.bits);
    proof {
        F::lemma_format();
        F::lemma_division();
        lemma_format_basics(fmt);
        lemma_pow2_values();
        lemma_pow2_le(fmt.bits, 128);
        lemma_pow2_unfold(fmt.sig_bits);
        lemma_pow2_adds(fmt.sig_bits, fmt.exp_bits());
        lemma_pow2_unfold(fmt.bits);
        lemma_pow2_unfold((fmt.bits - 1) as nat);
        lemma_pow2_pos(fmt.exp_bits());
        assert(rw == 2 * ps * t) by (nonlinear_arith)
            requires rw == 2 * pow2((fmt.bits - 1) as nat), pow2((fmt.bits - 1) as nat) == ps * t;
        assert(ps * t <= sb * t < 2 * ps * t) by (nonlinear_arith)
            requires ps <= sb < 2 * ps, t > 0;
        lemma_pow2_le(3, fmt.exp_bits());
        assert(16 * ps <= rw) by (nonlinear_arith)
            requires rw == 2 * ps * t, t >= 8, ps > 0;
        assert(16 * F::spec_reciprocal_precision() <= ps * t) by (nonlinear_arith)
            requires 8 * F::spec_reciprocal_precision() <= t, ps >= 2;
    }
    let implicit_bit = F::implicit_bit();
    // Align the significand of b as a UQ1.(n-1) fixed-point number in the range
    // [1.0, 2.0) and get a UQ0.n approximate reciprocal.
    let b_uq1 = shl_u128(b_significand, F::bits() - F::significand_bits() - 1);
    let x_raw = F::reciprocal(b_uq1);
    let max_word = F::sign_mask() + (F::sign_mask() - 1);
    let precision = F::reciprocal_precision() as u128;
    let ghost p = precision as int;
    proof {
        lemma_decrement(x_raw as int, b_uq1 as int, rw as int, p, (ps * t) as int);
    }
    // Finally, account for possible overflow, as explained above.
    let x_uq0 = if x_raw < 2 {
        x_raw + (max_word - 1)
    } else {
        x_raw - 2
    };
    // Suppose 1/b - P * 2^-W < x < 1/b + P * 2^-W
    let x_uq0 = x_uq0 - precision;
    // Now 1/b - (2*P) * 2^-W < x < 1/b
    proof {
        lemma_quotient_estimate(
            x_uq0 as int,
            sa as int,
            sb as int,
            rw as int,
            ps as int,
            t as int,
            p,
        );
        lemma_pow2_unfold(fmt.sig_bits + 1);
        assert((2 * a_significand) * x_uq0 == x_uq0 * (2 * a_significand)) by (nonlinear_arith);
    }
    let quotient_raw = F::mul_hi(x_uq0, 2 * a_significand);
    // Now, a/b - 4*P * 2^-W < q < a/b for q = quotient_raw in UQ1.(SB+1+W).
    // quotient_raw is in [0.5, 2.0) as UQ1.(SB+1),
    // adjust it to be in [1.0, 2.0) as UQ1.SB.
    let quotient: u128;
    let residual: u128;
    let doubled: bool;
    if quotient_raw < 2 * implicit_bit {
        // Highest bit is 0, so just reinterpret quotient_raw as UQ1.SB,
        // effectively doubling its value as well as its error estimation.
        quotient = quotient_raw;
        proof {
            assert(a_significand * (2 * ps) == (2 * a_significand) * ps) by (nonlinear_arith);
            assert(3 * b_significand < rw);
        }
        residual = F::scaled_sub(
            a_significand,
            F::significand_bits() + 1,
            quotient_raw,
            b_significand,
        );
        doubled = true;
    } else {
        // Highest bit is 1 (the UQ1.(SB+1) value is in [1, 2)), convert it
        // to UQ1.SB by right shifting by 1. Least significant bit is omitted.
        quotient = quotient_raw / 2;
        proof {
            assert(quotient * b_significand <= quotient_raw * b_significand) by (nonlinear_arith)
                requires quotient <= quotient_raw, b_significand >= 0;
            assert(2 * (a_significand * ps - quotient * b_significand) == a_significand * (2
                * ps) - quotient_raw * b_significand + (quotient_raw - 2 * quotient)
                * b_significand) by (nonlinear_arith);
            assert(0 <= (quotient_raw - 2 * quotient) * b_significand <= b_significand)
                by (nonlinear_arith)
                requires 0 <= quotient_raw - 2 * quotient <= 1, b_significand >= 0;
        }
        residual = F::scaled_sub(a_significand, F::significand_bits(), quotient, b_significand);
        doubled = false;
    }
    proof {
        let ap = if doubled { 2 * a_significand } else { a_significand as int };
        // the dividend's significand is at most twice the divisor's
        assert(ap <= 2 * sb) by {
            if ap >= 2 * sb + 1 {
                assert(ap * ps >= (2 * sb + 1) * ps) by (nonlinear_arith)
                    requires ap >= 2 * sb + 1, ps > 0;
                assert(quotient * sb <= (2 * ps - 1) * sb) by (nonlinear_arith)
                    requires quotient <= 2 * ps - 1, sb >= 0;
                assert((2 * sb + 1) * ps - (2 * ps - 1) * sb == ps + sb) by (nonlinear_arith);
            }
        }
    }
    (quotient, residual, doubled)
}

/// The final decrements of the reciprocal estimate: an estimate within the
/// allowance less two becomes one that is too small, by at most twice the
/// allowance.
proof fn lemma_decrement(x_raw: int, bq: int, rw: int, p: int, half: int)
    requires
        estimate_ok(x_raw, bq, rw, p - 2),
        rw == 2 * half,
        half <= bq < rw,
        p >= 3,
        16 * p <= half,
    ensures
        ({
            let x = (if x_raw < 2 { x_raw + rw - 2 } else { x_raw - 2 }) - p;
            &&& 0 <= x < rw
            &&& x_raw >= 2 ==> x_raw >= 2 + p
            &&& 0 < rw * (rw / 2) - x * bq <= 2 * p * bq
        }),
{
    let xm: int = if x_raw < 2 { x_raw + rw } else { x_raw };
    assert(xm * bq == (if x_raw < 2 { x_raw * bq + rw * bq } else { x_raw * bq }))
        by (nonlinear_arith)
        requires xm == (if x_raw < 2 { x_raw + rw } else { x_raw });
    let err = xm * bq - rw * (rw / 2);
    assert(err == estimate_error(x_raw, bq, rw));
    assert((p - 2) * bq + 2 * bq + p * bq == 2 * p * bq) by (nonlinear_arith);
    assert(p * bq >= 3 * bq) by (nonlinear_arith)
        requires p >= 3, bq >= 0;
    assert(rw * (rw / 2) == rw * half);
    assert(xm > 2 + p) by {
        if xm <= 2 + p {
            assert(xm * bq <= (2 + p) * bq) by (nonlinear_arith)
                requires xm <= 2 + p, bq >= 0;
            assert((2 + p) * bq + (p - 2) * bq == 2 * p * bq) by (nonlinear_arith);
            assert(2 * p * bq < rw * half) by (nonlinear_arith)
                requires 16 * p <= half, bq < rw, p >= 0, rw > 0, half > 0;
        }
    }
    assert((xm - 2 - p) * bq == xm * bq - 2 * bq - p * bq) by (nonlinear_arith);
    assert(xm <= rw + 1) by {
        if xm >= rw + 2 {
            assert(xm * bq >= (rw + 2) * bq) by (nonlinear_arith)
                requires xm >= rw + 2, bq >= 0;
            assert((rw + 2) * bq == rw * bq + 2 * bq) by (nonlinear_arith);
            assert(rw * bq >= rw * half) by (nonlinear_arith)
                requires bq >= half, rw > 0;
        }
    }
}

/// Rounds the quotient digits into the sign-less pattern of the result:
/// infinity beyond the finite range, a zero below half the smallest
/// subnormal, and else the digits at their exponent, or shifted into the
/// subnormal range, stepped up by one where the remainder asks for it.
fn round_quotient<F: FloatDivision>(
    quotient: u128,
    residual: u128,
    a_significand: u128,
    b_significand: u128,
    written_exponent: i32,
    Ghost(xa): Ghost<nat>,
    Ghost(sa): Ghost<nat>,
    Ghost(ea): Ghost<int>,
    Ghost(xb): Ghost<nat>,
    Ghost(eb): Ghost<int>,
    Ghost(c): Ghost<nat>,
) -> (abs_result: u128)
    requires
        is_operand(format_of::<F>(), xa, sa, ea),
        is_operand(format_of::<F>(), xb, b_significand as nat, eb),
        c <= 1,
        a_significand == sa * pow2(c),
        written_exponent == ea - eb + format_of::<F>().bias() - c,
        pow2(format_of::<F>().sig_bits) <= quotient < 2 * pow2(format_of::<F>().sig_bits),
        residual == a_significand * pow2(format_of::<F>().sig_bits) - quotient * b_significand,
        0 < 2 * residual < 3 * b_significand,
        a_significand <= 2 * b_significand,
    ensures
        abs_result <= format_of::<F>().exp_mask(),
        format_of::<F>().is_nearest_even(
            abs_result as nat,
            format_of::<F>().mag(xa) * format_of::<F>().unit(),
            format_of::<F>().mag(xb),
        ),
{
    let ghost fmt = format_of::<F>();
    let ghost ps = pow2(fmt.sig_bits);
    let ghost sb = b_significand as nat;
    let ghost we = written_exponent as int;
    let ghost ap = a_significand as int;
    proof {
        F::lemma_format();
        F::lemma_division();
        lemma_format_basics(fmt);
        lemma_pow2_values();
        lemma_pow2_le(fmt.bits, 128);
        lemma_pow2_unfold(fmt.sig_bits);
        lemma_pow2_unfold(fmt.bits);
        lemma_pow2_unfold((fmt.bits - 1) as nat);
        lemma_pow2_adds(fmt.sig_bits, fmt.exp_bits());
        assert(quotient * sb <= ap * ps);
        lemma_pow2_le(3, fmt.exp_bits());
        assert(16 * ps <= pow2(fmt.bits)) by (nonlinear_arith)
            requires
                pow2(fmt.bits) == 2 * pow2((fmt.bits - 1) as nat),
                pow2((fmt.bits - 1) as nat) == ps * pow2(fmt.exp_bits()),
                pow2(fmt.exp_bits()) >= 8,
                ps > 0,
        ;
    }
    let significand_bits = F::significand_bits();
    let exponent_sat = F::exponent_max();
    let implicit_bit = F::implicit_bit();
    let inf_rep = F::exponent_mask();

    // If we have overflowed the exponent, return infinity
    if written_exponent >= exponent_sat as i32 {
        proof {
            lemma_div_overflow(fmt, xa, sa, ea, xb, sb, eb, c, we, quotient as nat);
        }
        return inf_rep;
    }
    // Now, quotient <= the correctly-rounded result
    // and may need taking NextAfter() once
    // r = a - b * q

    let mut abs_result: u128;
    let residual_lo: u128;
    if written_exponent > 0 {
        proof {
            assert(written_exponent as u128 * ps < fmt.exp_max() * ps) by (nonlinear_arith)
                requires 0 < written_exponent < fmt.exp_max(), ps > 0;
        }
        abs_result = (quotient - implicit_bit) + shl_u128(
            written_exponent as u128,
            significand_bits,
        );
        residual_lo = 2 * residual;
        proof {
            lemma_div_normal(
                fmt,
                xa,
                sa,
                ea,
                xb,
                sb,
                eb,
                c,
                we,
                quotient as nat,
                residual_lo + abs_result % 2 > b_significand,
            );
        }
    } else {
        if significand_bits as i32 + written_exponent < 0 {
            proof {
                lemma_div_underflow(fmt, xa, sa, ea, xb, sb, eb, c, we);
            }
            return 0;
        }
        let shift = (1 - written_exponent) as u32;
        let up = (significand_bits as i32 + written_exponent) as u32;
        proof {
            lemma_pow2_split(fmt.sig_bits, up as nat);
            lemma_pow2_le(up as nat, fmt.sig_bits);
            lemma_pow2_unfold(shift as nat);
            lemma_pow2_pos((shift - 1) as nat);
            lemma_pow2_pos(up as nat);
            lemma_div_mod(quotient as int, pow2(shift as nat) as int);
            lemma_div_subnormal_bounds(
                ap,
                sb as int,
                quotient as int,
                ps as int,
                pow2(up as nat) as int,
                pow2((shift - 1) as nat) as int,
            );
            let ret = quotient as int / (2 * pow2((shift - 1) as nat) as int);
            assert(ret < ps) by (nonlinear_arith)
                requires
                    quotient == ret * (2 * pow2((shift - 1) as nat)) + quotient as int % (2 * pow2(
                        (shift - 1) as nat,
                    ) as int),
                    0 <= quotient as int % (2 * pow2((shift - 1) as nat) as int),
                    quotient < 2 * ps,
                    pow2((shift - 1) as nat) >= 1,
                    ret >= 0,
            ;
            assert((2 * ret) * sb == 2 * (ret * sb)) by (nonlinear_arith);
        }
        abs_result = shr_u128(quotient, shift);
        residual_lo = F::scaled_sub(a_significand, up, 2 * abs_result, b_significand);
        proof {
            lemma_div_subnormal(
                fmt,
                xa,
                sa,
                ea,
                xb,
                sb,
                eb,
                c,
                we,
                abs_result as nat,
                residual_lo as nat,
                residual_lo + abs_result % 2 > b_significand,
            );
        }
    }
    // tie to even: conditionally turns the below LT comparison into LTE
    let residual_lo = residual_lo + abs_result % 2;
    if residual_lo > b_significand {
        abs_result += 1;
    }
    abs_result
}

} // verus!
