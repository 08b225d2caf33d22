//! The remainder of a division that is rounded toward zero.
//!
//! The result is exact: it is the value with the sign of `x` whose magnitude
//! is the remainder of the magnitude of `x` by that of `y`.

use vstd::prelude::*;
use vstd::arithmetic::power2::*;
use vstd::arithmetic::div_mod::{lemma_mul_mod_noop_general, lemma_mul_mod_noop_right};
use vstd::bits::lemma_u32_shr_is_div;
use crate::arith::{
    bit_length_u128, lemma_bit_length, lemma_div_mod, lemma_div_mod_scale,
    lemma_div_mod_unique, lemma_pow2_le, lemma_pow2_split, lemma_pow2_values, pow2_u128,
    shl_u128, shr_u128,
};
use crate::float::{format_of, Float};
use crate::float::model::{
    Format, lemma_compose, lemma_emag_linear, lemma_emag_subnormal, lemma_fields,
    lemma_format_basics, lemma_quiet_valid, lemma_with_sign,
};
use crate::integer::Int;
use crate::support::int_traits::mod_mul::{word, Reducer};

verus! {

/// What `fmod` returns. A NaN operand comes back quieted, `x` first; an
/// infinite `x` or a zero `y` gives the canonical quiet NaN; an `x` smaller
/// in magnitude than `y`, an infinite `y` among them, comes back as it is;
/// and otherwise the result has the sign of `x` and the magnitude of `x`
/// modulo the magnitude of `y`.
pub open spec fn fmod_spec(fmt: Format, x: nat, y: nat, r: nat) -> bool {
    if fmt.is_nan(x) {
        r == fmt.quiet(x)
    } else if fmt.is_nan(y) {
        r == fmt.quiet(y)
    } else if fmt.is_inf(x) || fmt.is_zero(y) {
        r == fmt.qnan()
    } else if fmt.abs(x) < fmt.abs(y) {
        r == x
    } else {
        &&& fmt.valid(r)
        &&& fmt.is_finite(r)
        &&& fmt.sign(r) == fmt.sign(x)
        &&& fmt.mag(r) == fmt.mag(x) % fmt.mag(y)
    }
}

pub fn fmod<F: Float>(x: F, y: F) -> (r: F)
    ensures
        fmod_spec(format_of::<F>(), x.spec_repr(), y.spec_repr(), r.spec_repr()),
{
    let ghost fmt = format_of::<F>();
    let ghost xs = x.spec_repr();
    let ghost ys = y.spec_repr();
    let ghost ps = pow2(fmt.sig_bits);
    proof {
        F::lemma_format();
        x.lemma_repr();
        y.lemma_repr();
        lemma_format_basics(fmt);
        lemma_fields(fmt, xs);
        lemma_fields(fmt, ys);
        lemma_pow2_values();
        lemma_quiet_valid(fmt, xs);
        lemma_quiet_valid(fmt, ys);
        lemma_with_sign(fmt, fmt.sign(xs), 0);
        lemma_emag_subnormal(fmt, 0);
        lemma_pow2_unfold(fmt.sig_bits);
    }
    let sign_mask = F::sign_mask();
    let exp_mask = F::exponent_mask();
    let sig_bits = F::significand_bits();
    let sx = if x.repr() >= sign_mask {
        sign_mask
    } else {
        0
    };
    let ux = x.repr() - sx;
    let uy = if y.repr() >= sign_mask {
        y.repr() - sign_mask
    } else {
        y.repr()
    };

    // Cases that return NaN:
    //   NaN % _
    //   Inf % _
    //     _ % NaN
    //     _ % 0
    let x_nan_or_inf = ux >= exp_mask;
    let y_nan_or_zero = uy == 0 || uy > exp_mask;
    if x_nan_or_inf || y_nan_or_zero {
        if ux > exp_mask {
            return F::from_repr(F::quieted(x.repr()));
        }
        if uy > exp_mask {
            return F::from_repr(F::quieted(y.repr()));
        }
        return F::from_repr(exp_mask + F::implicit_bit() / 2);
    }
    if ux < uy {
        // |x| < |y|
        return x;
    }
    let (num, ex) = into_sig_exp::<F>(ux);
    let (div, ey) = into_sig_exp::<F>(uy);
    proof {
        lemma_with_sign(fmt, false, ux as nat);
        lemma_with_sign(fmt, false, uy as nat);
        // the exponents are ordered as the patterns
        if ex < ey {
            lemma_compose(fmt, ux as nat / pow2(fmt.sig_bits), ux as nat % pow2(fmt.sig_bits));
            lemma_div_mod(ux as int, ps as int);
            lemma_div_mod(uy as int, ps as int);
            let ea = ux as int / ps as int;
            let eb = uy as int / ps as int;
            let fa = ux as int % ps as int;
            let fb = uy as int % ps as int;
            assert(ux < uy) by (nonlinear_arith)
                requires ux == ea * ps + fa, uy == eb * ps + fb, 0 <= fa, fa < ps, 0 <= fb, ea < eb;
        }
        assert(div > 0) by {
            if div == 0 {
                assert(0 * pow2(ey as nat) == 0);
            }
        }
    }

    // To compute `(num << ex) % (div << ey)`, first
    // evaluate `rem = (num << (ex - ey)) % div` ...
    let rem = reduction::<F>(num, ex - ey, div);
    // ... so the result will be `rem << ey`
    proof {
        let d = (ex - ey) as nat;
        lemma_pow2_adds(d, ey as nat);
        lemma_pow2_pos(ey as nat);
        lemma_pow2_pos(d);
        assert(num * pow2(d) >= 0) by (nonlinear_arith)
            requires num >= 0, pow2(d) >= 0;
        lemma_div_mod_scale(num * pow2(d), div as int, pow2(ey as nat) as int);
        assert((num * pow2(d)) * pow2(ey as nat) == num * pow2(ex as nat)) by (nonlinear_arith)
            requires pow2(ex as nat) == pow2(d) * pow2(ey as nat);
        assert(fmt.mag(xs) % fmt.mag(ys) == rem * pow2(ey as nat));
    }
    if rem == 0 {
        // Return zero with the sign of `x`
        proof {
            assert(0 * pow2(ey as nat) == 0);
        }
        return F::from_repr(sx);
    }
    // We would shift `rem` up by `ey`, but have to stop at `F::SIG_BITS`

    let len = bit_length_u128(rem);
    proof {
        lemma_bit_length(rem as nat);
        lemma_pow2_unfold(len as nat);
        lemma_pow2_unfold(fmt.sig_bits + 1);
        if len > fmt.sig_bits + 1 {
            lemma_pow2_le(fmt.sig_bits + 1, (len - 1) as nat);
        }
    }
    let room = sig_bits + 1 - len;
    let shift = if ey < room {
        ey
    } else {
        room
    };
    proof {
        let psh = pow2(shift as nat) as int;
        lemma_pow2_pos(shift as nat);
        lemma_pow2_split(ey as nat, shift as nat);
        let up = pow2((ey - shift) as nat) as int;
        lemma_pow2_adds(len as nat, room as nat);
        lemma_pow2_adds((len - 1) as nat, room as nat);
        lemma_pow2_le(shift as nat, room as nat);
        assert(rem * psh < 2 * ps) by (nonlinear_arith)
            requires
                rem < pow2(len as nat),
                psh <= pow2(room as nat),
                pow2(len as nat) * pow2(room as nat) == 2 * ps,
                rem >= 0,
                psh > 0,
        ;
        assert((rem * psh) * up == rem * pow2(ey as nat)) by (nonlinear_arith)
            requires pow2(ey as nat) == psh * up;
        let e = (ey - shift) as nat;
        let emax = fmt.exp_max();
        if shift == room {
            assert(rem * psh >= ps) by (nonlinear_arith)
                requires
                    rem >= pow2((len - 1) as nat),
                    psh == pow2(room as nat),
                    pow2((len - 1) as nat) * pow2(room as nat) == ps,
                    psh > 0,
            ;
            let g = (rem * psh - ps) as nat;
            lemma_emag_linear(fmt, e + 1, g);
            assert((e + 1) * ps + g == rem * psh + e * ps) by (nonlinear_arith)
                requires g == rem * psh - ps;
            assert(rem * psh + e * ps < fmt.exp_mask()) by (nonlinear_arith)
                requires
                    rem * psh < 2 * ps,
                    e + 2 <= emax,
                    fmt.exp_mask() == emax * ps,
                    ps > 0,
            ;
        } else {
            assert(e == 0);
            assert(e * ps == 0) by (nonlinear_arith)
                requires e == 0;
            lemma_pow2_values();
            assert((rem * psh) * 1 == rem * psh);
            if rem * psh < ps {
                lemma_emag_subnormal(fmt, (rem * psh) as nat);
            } else {
                let g = (rem * psh - ps) as nat;
                lemma_emag_linear(fmt, 1, g);
                assert(1 * ps + g == rem * psh) by (nonlinear_arith)
                    requires g == rem * psh - ps;
                assert((ps + g) * 1 == rem * psh) by (nonlinear_arith)
                    requires g == rem * psh - ps;
            }
            assert(rem * psh < fmt.exp_mask()) by (nonlinear_arith)
                requires rem * psh < 2 * ps, 7 <= emax, fmt.exp_mask() == emax * ps, ps > 0;
        }
        assert(e * ps < 0x1_0000 * ps) by (nonlinear_arith)
            requires e < 0x1_0000, ps > 0;
        lemma_with_sign(fmt, fmt.sign(xs), (rem * psh + e * ps) as nat);
    }
    // Anything past that is added to the exponent field
    let bits = shl_u128(rem, shift) + shl_u128((ey - shift) as u128, sig_bits);
    F::from_repr(sx + bits)
}

/// Given the bits of a finite float, return a tuple of
///  - the mantissa with the implicit bit (0 if subnormal, 1 otherwise)
///  - the additional exponent past 1, (0 for subnormal, 0 or more otherwise)
pub fn into_sig_exp<F: Float>(bits: u128) -> (r: (u128, u32))
    requires
        bits < format_of::<F>().exp_mask(),
    ensures
        format_of::<F>().emag(bits as nat) == r.0 * pow2(r.1 as nat),
        r.0 < 2 * pow2(format_of::<F>().sig_bits),
        r.1 + 2 <= format_of::<F>().exp_max(),
        r.1 == (if bits < pow2(format_of::<F>().sig_bits) {
            0
        } else {
            bits as nat / pow2(format_of::<F>().sig_bits) - 1
        }),
        r.0 == 0 <==> bits == 0,
{
    let ghost fmt = format_of::<F>();
    let ghost ps = pow2(fmt.sig_bits) as int;
    proof {
        F::lemma_format();
        lemma_format_basics(fmt);
        lemma_pow2_values();
        lemma_div_mod(bits as int, ps);
        let e = bits as int / ps;
        let f = bits as int % ps;
        assert(e + 1 <= fmt.exp_max()) by (nonlinear_arith)
            requires bits == e * ps + f, f >= 0, bits < fmt.exp_max() * ps, ps > 0;
        if bits >= ps {
            assert(e >= 1) by (nonlinear_arith)
                requires bits == e * ps + f, f < ps, bits >= ps, ps > 0;
            assert(bits - ps == (e - 1) * ps + f) by (nonlinear_arith)
                requires bits == e * ps + f;
            lemma_div_mod_unique(bits - ps, ps, e - 1, f);
            assert((e - 1) * ps <= bits - ps) by (nonlinear_arith)
                requires bits - ps == (e - 1) * ps + f, f >= 0;
        } else {
            assert(e == 0) by (nonlinear_arith)
                requires bits == e * ps + f, f >= 0, bits < ps, e >= 0;
            lemma_div_mod_unique(0, ps, 0, 0);
            assert(f * 1 == f);
            assert(0 * ps == 0);
        }
    }
    // Subtract 1 from the exponent, clamping at 0
    let implicit_bit = F::implicit_bit();
    let sat = if bits >= implicit_bit {
        bits - implicit_bit
    } else {
        0
    };
    let exp = shr_u128(sat, F::significand_bits());
    (bits - shl_u128(exp, F::significand_bits()), exp as u32)
}

/// Compute the remainder `(x * 2.pow(e)) % y` without overflow.
pub fn reduction<F: Float>(x: u128, e: u32, y: u128) -> (r: u128)
    requires
        x < 2 * pow2(format_of::<F>().sig_bits),
        0 < y < 2 * pow2(format_of::<F>().sig_bits),
    ensures
        r == (x * pow2(e as nat)) % (y as int),
{
    let ghost fmt = format_of::<F>();
    proof {
        F::lemma_format();
        lemma_format_basics(fmt);
        lemma_pow2_values();
        lemma_pow2_unfold(fmt.sig_bits + 1);
        lemma_pow2_le(fmt.sig_bits + 1, fmt.bits);
    }
    let fast = 2 * (F::exponent_bits() - 1) <= F::bits();
    if fast && F::bits() == 64 {
        let r = fast_reduction::<F, u64>(x as u64, e, y as u64);
        return r as u128;
    }
    if fast && F::bits() == 32 {
        let r = fast_reduction::<F, u32>(x as u32, e, y as u32);
        return r as u128;
    }
    if fast && F::bits() == 16 {
        let r = fast_reduction::<F, u16>(x as u16, e, y as u16);
        return r as u128;
    }
    proof {
        lemma_pow2_le(fmt.sig_bits + 1, 127);
        assert(x * pow2(0) == x) by (nonlinear_arith)
            requires pow2(0) == 1;
    }
    let ghost x0 = x;
    let mut x = x % y;
    let mut i: u32 = 0;
    while i < e
        invariant
            i <= e,
            0 < y < 2 * pow2(fmt.sig_bits),
            2 * pow2(fmt.sig_bits) <= 0x8000_0000_0000_0000_0000_0000_0000_0000,
            x == (x0 * pow2(i as nat)) % (y as int),
        decreases e - i,
    {
        proof {
            lemma_doubling(x0 as int * pow2(i as nat), y as int);
            lemma_pow2_unfold((i + 1) as nat);
            assert(x0 * pow2((i + 1) as nat) == 2 * (x0 * pow2(i as nat)))
                by (nonlinear_arith)
                requires pow2((i + 1) as nat) == 2 * pow2(i as nat);
        }
        x = 2 * x;
        if x >= y {
            x = x - y;
        }
        i += 1;
    }
    x
}

/// Doubling a remainder and taking the modulus off once where it is reached
/// gives the remainder of the double.
proof fn lemma_doubling(v: int, y: int)
    requires
        y > 0,
    ensures
        (2 * v) % y == (if 2 * (v % y) >= y { 2 * (v % y) - y } else { 2 * (v % y) }),
{
    lemma_div_mod(v, y);
    let q = v / y;
    let r = v % y;
    if 2 * r >= y {
        assert(2 * v == (2 * q + 1) * y + (2 * r - y)) by (nonlinear_arith)
            requires v == q * y + r;
        lemma_div_mod_unique(2 * v, y, 2 * q + 1, 2 * r - y);
    } else {
        assert(2 * v == (2 * q) * y + 2 * r) by (nonlinear_arith)
            requires v == q * y + r;
        lemma_div_mod_unique(2 * v, y, 2 * q, 2 * r);
    }
}

/// The remainder `(x << e) % y` by repeated squaring of a power of two
/// modulo `y`, for significands `x` and `y` of a format whose exponent field
/// is short against its word.
pub fn fast_reduction<F: Float, I: Int>(x: I, e: u32, y: I) -> (r: I)
    requires
        !I::spec_signed(),
        I::spec_bits() == format_of::<F>().bits,
        I::spec_bits() <= 64,
        2 * (format_of::<F>().exp_bits() - 1) <= format_of::<F>().bits,
        0 <= x.value() < 2 * pow2(format_of::<F>().sig_bits),
        0 < y.value() < 2 * pow2(format_of::<F>().sig_bits),
    ensures
        r.value() == (x.value() * pow2(e as nat)) % y.value(),
{
    let ghost fmt = format_of::<F>();
    let ghost ps = pow2(fmt.sig_bits) as int;
    let ghost rr = word::<I>();
    let ghost xv = x.value();
    let ghost yv = y.value();
    proof {
        F::lemma_format();
        lemma_format_basics(fmt);
    }
    let base_shift = F::exponent_bits() - 1;
    proof {
        lemma_pow2_values();
        lemma_pow2_le(fmt.sig_bits + 1, 63);
        lemma_pow2_le(I::spec_bits(), 64);
        lemma_pow2_adds(fmt.sig_bits + 1, base_shift as nat);
        lemma_pow2_unfold(fmt.sig_bits + 1);
        lemma_pow2_unfold(fmt.bits);
        lemma_pow2_pos(base_shift as nat);
        lemma_pow2_pos(e as nat);
        lemma_pow2_le(0, fmt.bits);
        assert(xv * pow2(e as nat) >= 0) by (nonlinear_arith)
            requires xv >= 0, pow2(e as nat) >= 0;
    }
    let xw = x.to_u128();
    let yw = y.to_u128();
    if yw == 1 {
        proof {
            lemma_div_mod_unique(xv * pow2(e as nat), 1, xv * pow2(e as nat), 0);
        }
        return I::from_u128(0);
    }
    if e <= base_shift {
        proof {
            lemma_pow2_le(e as nat, base_shift as nat);
            assert(xv * pow2(e as nat) < (2 * ps) * pow2(base_shift as nat)) by (nonlinear_arith)
                requires 0 <= xv < 2 * ps, 0 < pow2(e as nat) <= pow2(base_shift as nat);
            lemma_div_mod(xv * pow2(e as nat), yv);
        }
        return I::from_u128(shl_u128(xw, e) % yw);
    }
    // Find least depth s.t. `(e >> depth) < I::BITS`

    let e_len = bit_length_u128(e as u128);
    let w_len = bit_length_u128((I::bits() - 1) as u128);
    let depth = if e_len > w_len {
        e_len - w_len
    } else {
        0
    };
    proof {
        x.lemma_int();
        lemma_bit_length(e as nat);
        lemma_bit_length((I::spec_bits() - 1) as nat);
        if e_len > 32 {
            lemma_pow2_le(32, (e_len - 1) as nat);
        }
        lemma_u32_shr_is_div(e, depth);
        lemma_pow2_pos(depth as nat);
        lemma_div_mod(e as int, pow2(depth as nat) as int);
        if depth > 0 {
            // the top bit of `e >> depth` is that of `BITS - 1`
            lemma_pow2_adds((w_len - 1) as nat, depth as nat);
            let q = e as int / pow2(depth as nat) as int;
            let low = e as int % pow2(depth as nat) as int;
            let pd = pow2(depth as nat) as int;
            assert(q >= pow2((w_len - 1) as nat)) by (nonlinear_arith)
                requires e == q * pd + low, low < pd, e >= pow2((w_len - 1) as nat) * pd, pd > 0;
            lemma_pow2_unfold(w_len as nat);
            assert(2 * q >= I::spec_bits());
        }
    }
    let initial = (e >> depth) - base_shift;
    let y_len = bit_length_u128(yw - 1);
    let max_ilog2 = y_len - 1;
    proof {
        lemma_bit_length((yw - 1) as nat);
        if max_ilog2 > fmt.sig_bits {
            lemma_pow2_le(fmt.sig_bits + 1, max_ilog2 as nat);
        }
    }
    let start = if max_ilog2 < initial {
        max_ilog2
    } else {
        initial
    };
    let mut pow2v = pow2_u128(start);
    proof {
        lemma_pow2_le(start as nat, max_ilog2 as nat);
        lemma_div_mod_unique(pow2(start as nat) as int, yv, 0, pow2(start as nat) as int);
    }
    let mut i = max_ilog2;
    while i < initial
        invariant
            max_ilog2 <= i,
            i <= initial || initial <= max_ilog2,
            yw == yv,
            1 < yv < 2 * ps,
            2 * ps <= 0x8000_0000_0000_0000,
            pow2v == pow2((if initial <= max_ilog2 { initial } else { i }) as nat) as int % yv,
        decreases initial - i,
    {
        proof {
            lemma_doubling(pow2(i as nat) as int, yv);
            lemma_pow2_unfold((i + 1) as nat);
        }
        pow2v = 2 * pow2v;
        if pow2v >= yw {
            pow2v = pow2v - yw;
        }
        i += 1;
    }
    // At each step `k in [depth, ..., 0]`,
    // `p` is `(e >> k) - BASE_SHIFT`
    // `m` is `(1 << p) % y`
    let mut k = depth;
    let mut p = initial;
    proof {
        lemma_pow2_pos(initial as nat);
        lemma_div_mod(pow2(initial as nat) as int, yv);
        assert(2 * yv <= rr) by (nonlinear_arith)
            requires yv < 2 * ps, rr == 2 * ((2 * ps) * pow2(base_shift as nat)), pow2(
                base_shift as nat,
            ) >= 1, ps > 0;
    }
    let mut m = Reducer::new(I::from_u128(pow2v), y);
    while k > 0
        invariant
            k <= depth <= 32,
            m.wf(),
            m.div == y,
            yv == y.value(),
            base_shift + 1 == fmt.exp_bits(),
            fmt.wf(),
            rr == word::<I>(),
            rr == 2 * ((2 * ps) * pow2(base_shift as nat)),
            ps == pow2(fmt.sig_bits),
            1 < yv < 2 * ps,
            m.num.value() == pow2(p as nat) as int % yv,
            p + base_shift == e as nat / pow2(k as nat),
        decreases k,
    {
        let ghost p0 = p as nat;
        let ghost k0 = k as nat;
        k -= 1;
        proof {
            lemma_u32_shr_is_div(e, k);
            lemma_pow2_unfold(k0);
            lemma_pow2_pos(k as nat);
            crate::arith::lemma_div_div(e as int, pow2(k as nat) as int, 2);
            lemma_div_mod(e as int / pow2(k as nat) as int, 2);
            lemma_div_mod(e as int, pow2(k as nat) as int);
            let q = e as int / pow2(k as nat) as int;
            let low = e as int % pow2(k as nat) as int;
            assert(q <= e) by (nonlinear_arith)
                requires e == q * pow2(k as nat) + low, 0 <= low, pow2(k as nat) >= 1, q >= 0;
            lemma_pow2_unfold((base_shift + 1) as nat);
            assert((yv - 1) * pow2(base_shift as nat) < rr && (yv - 1) * pow2(
                (base_shift + 1) as nat,
            ) < rr) by (nonlinear_arith)
                requires
                    0 < yv < 2 * ps,
                    rr == 2 * ((2 * ps) * pow2(base_shift as nat)),
                    pow2((base_shift + 1) as nat) == 2 * pow2(base_shift as nat),
                    pow2(base_shift as nat) >= 1,
            ;
        }
        let bit = (e >> k) % 2;
        let s = base_shift + bit;
        let ghost num = m.num.value();
        m = m.squared_with_shift(s);
        p = p + p + s;
        proof {
            // (2^p0 % y)^2 * 2^s % y == 2^(2 p0 + s) % y
            let a = pow2(p0) as int;
            let c = pow2(s as nat) as int;
            lemma_pow2_adds(p0, p0);
            lemma_pow2_adds(p0 + p0, s as nat);
            lemma_mul_mod_noop_general(a, a, yv);
            lemma_mul_mod_noop_general(num * num, c, yv);
            lemma_mul_mod_noop_general(a * a, c, yv);
            assert(num * num * c == (num * num) * c);
        }
    }
    proof {
        lemma_pow2_values();
        assert(e as nat / pow2(0) == e);
        lemma_pow2_adds(base_shift as nat, p as nat);
        let xb = xv * pow2(base_shift as nat);
        assert(0 <= xb < (2 * ps) * pow2(base_shift as nat)) by (nonlinear_arith)
            requires 0 <= xv < 2 * ps, xb == xv * pow2(base_shift as nat), pow2(
                base_shift as nat,
            ) > 0;
        lemma_mul_mod_noop_right(xb, pow2(p as nat) as int, yv);
        assert(xb * pow2(p as nat) == xv * pow2(e as nat)) by (nonlinear_arith)
            requires
                xb == xv * pow2(base_shift as nat),
                pow2(e as nat) == pow2(base_shift as nat) * pow2(p as nat),
        ;
    }
    // (x << BASE_SHIFT) * (1 << p) == x << e
    let (_q, r) = m.mul_into_div_rem(I::from_u128(shl_u128(xw, base_shift)));
    r
}

} // verus!
