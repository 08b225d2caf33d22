//! Multiplication.
//!
//! The product of two finite nonzero values is the exact product of the two
//! rationals, rounded to nearest with ties to even. The significands are
//! multiplied into a double word; what falls below the result's last place
//! decides the rounding.

use vstd::prelude::*;
use vstd::arithmetic::power2::*;
use crate::arith::{
    lemma_div_mod, lemma_div_mod_unique, lemma_pow2_le, lemma_pow2_values, lemma_u128_or_one,
    low_bits_u128, shl_u128, shr_u128,
};
use crate::float::{format_of, Float};
use crate::float::formats::{F128, F16, F32, F64};
use crate::integer::big::{zero_widen_mul, LIMB};
use crate::float::model::{
    Format, lemma_compose, lemma_emag_increases, lemma_emag_linear, lemma_emag_subnormal,
    lemma_field_bits, lemma_fields, lemma_format_basics, lemma_subnormal_pattern,
    lemma_with_sign,
};
use crate::float::rounding::{
    is_operand, lemma_nearest_even_ratio, lemma_operand_normal, lemma_operand_product,
    lemma_operand_subnormal, lemma_round_from_below,
};

verus! {

/// What multiplication returns. A NaN operand comes back quieted, the first
/// operand's first; infinity times zero gives the canonical quiet NaN;
/// otherwise an infinite operand gives the signed infinity and a zero
/// operand the signed zero; and two finite nonzero values give their exact
/// product rounded to nearest, ties to even.
pub open spec fn mul_spec(fmt: Format, a: nat, b: nat, r: nat) -> bool {
    let neg = fmt.sign(a) != fmt.sign(b);
    if fmt.is_nan(a) {
        r == fmt.quiet(a)
    } else if fmt.is_nan(b) {
        r == fmt.quiet(b)
    } else if fmt.is_inf(a) || fmt.is_inf(b) {
        if fmt.is_zero(a) || fmt.is_zero(b) {
            r == fmt.qnan()
        } else {
            r == fmt.with_sign(neg, fmt.exp_mask())
        }
    } else if fmt.is_zero(a) || fmt.is_zero(b) {
        r == fmt.with_sign(neg, 0)
    } else {
        &&& fmt.valid(r)
        &&& fmt.sign(r) == neg
        &&& fmt.is_nearest_even(fmt.abs(r), fmt.mag(a) * fmt.mag(b), fmt.unit())
    }
}

/// The value of a double word given by its low and high words of `bits` bits.
pub open spec fn wide(bits: nat, lo: nat, hi: nat) -> nat {
    hi * pow2(bits) + lo
}

/// Double-word arithmetic on the words of a format. A double word is a pair
/// `(lo, hi)` of words.
pub trait PseudoLargeInt: Float {
    /// The full product of two words.
    fn wide_mul(x: u128, y: u128) -> (r: (u128, u128))
        requires
            x < pow2(Self::spec_format().bits),
            y < pow2(Self::spec_format().bits),
        ensures
            wide(Self::spec_format().bits, r.0 as nat, r.1 as nat) == x * y,
            r.0 < pow2(Self::spec_format().bits),
            r.1 < pow2(Self::spec_format().bits),
    ;

    /// The double word `(lo, hi)` shifted left by `count`, for a result that fits.
    fn wide_shl(lo: u128, hi: u128, count: u32) -> (r: (u128, u128))
        requires
            count < Self::spec_format().bits,
            lo < pow2(Self::spec_format().bits),
            wide(Self::spec_format().bits, lo as nat, hi as nat) * pow2(count as nat) < pow2(
                2 * Self::spec_format().bits,
            ),
        ensures
            wide(Self::spec_format().bits, r.0 as nat, r.1 as nat) == wide(
                Self::spec_format().bits,
                lo as nat,
                hi as nat,
            ) * pow2(count as nat),
            r.0 < pow2(Self::spec_format().bits),
    ;

    /// The double word `(lo, hi)` shifted right by `count`. Where a set bit
    /// is shifted out, the lowest bit of the result is set: it is sticky.
    fn wide_shr(lo: u128, hi: u128, count: u32) -> (r: (u128, u128))
        requires
            lo < pow2(Self::spec_format().bits),
            hi < pow2(Self::spec_format().bits),
        ensures
            wide(Self::spec_format().bits, r.0 as nat, r.1 as nat) == sticky_shr(
                wide(Self::spec_format().bits, lo as nat, hi as nat),
                count as nat,
            ),
            r.0 < pow2(Self::spec_format().bits),
            r.1 < pow2(Self::spec_format().bits),
    ;
}

/// The full product of two words. For words of at most 64 bits,
/// whose double words fit 128 bits.
fn narrow_wide_mul<F: Float>(x: u128, y: u128) -> (r: (u128, u128))
    requires
        F::spec_format().bits <= 64,
        x < pow2(F::spec_format().bits),
        y < pow2(F::spec_format().bits),
    ensures
        wide(F::spec_format().bits, r.0 as nat, r.1 as nat) == x * y,
        r.0 < pow2(F::spec_format().bits),
        r.1 < pow2(F::spec_format().bits),
{
    let ghost w = F::spec_format().bits;
    proof {
        F::lemma_format();
                    lemma_pow2_values();
        lemma_pow2_le(w, 64);
        lemma_pow2_pos(w);
        assert(x * y < pow2(w) * pow2(w)) by (nonlinear_arith)
            requires x < pow2(w), y < pow2(w);
        assert(pow2(w) * pow2(w) <= 0x1_0000_0000_0000_0000 * 0x1_0000_0000_0000_0000)
            by (nonlinear_arith)
            requires 0 < pow2(w) <= 0x1_0000_0000_0000_0000;
        lemma_div_mod((x * y) as int, pow2(w) as int);
        let q = (x * y) as int / pow2(w) as int;
        assert(q < pow2(w)) by (nonlinear_arith)
            requires
                x * y == q * pow2(w) + (x * y) as int % pow2(w) as int,
                0 <= (x * y) as int % pow2(w) as int,
                x * y < pow2(w) * pow2(w),
                pow2(w) > 0,
        ;
    }
    let p = x * y;
    (low_bits_u128(p, F::bits()), shr_u128(p, F::bits()))
}
/// The double word `(lo, hi)` shifted left by `count`, for a result that fits. For words of at most 64 bits,
/// whose double words fit 128 bits.
fn narrow_wide_shl<F: Float>(lo: u128, hi: u128, count: u32) -> (r: (u128, u128))
    requires
        F::spec_format().bits <= 64,
        count < F::spec_format().bits,
        lo < pow2(F::spec_format().bits),
        wide(F::spec_format().bits, lo as nat, hi as nat) * pow2(count as nat) < pow2(
            2 * F::spec_format().bits,
        ),
    ensures
        wide(F::spec_format().bits, r.0 as nat, r.1 as nat) == wide(
            F::spec_format().bits,
            lo as nat,
            hi as nat,
        ) * pow2(count as nat),
        r.0 < pow2(F::spec_format().bits),
{
    let ghost w = F::spec_format().bits;
    proof {
        F::lemma_format();
                    lemma_pow2_values();
        lemma_pow2_le(w, 64);
        lemma_pow2_le(2 * w, 128);
        lemma_pow2_pos(w);
        lemma_pow2_pos(count as nat);
        assert(hi * pow2(w) + lo <= (hi * pow2(w) + lo) * pow2(count as nat))
            by (nonlinear_arith)
            requires pow2(count as nat) >= 1, hi * pow2(w) + lo >= 0;
        assert(hi * pow2(w) <= hi * pow2(w) + lo);
    }
    let v = shl_u128(hi, F::bits()) + lo;
    let s = shl_u128(v, count);
    proof {
        lemma_div_mod(s as int, pow2(w) as int);
    }
    (low_bits_u128(s, F::bits()), shr_u128(s, F::bits()))
}
/// The double word `(lo, hi)` shifted right by `count`. Where a set bit is shifted out, the lowest bit of the result is set: it is sticky. For words of at most 64 bits,
/// whose double words fit 128 bits.
fn narrow_wide_shr<F: Float>(lo: u128, hi: u128, count: u32) -> (r: (u128, u128))
    requires
        F::spec_format().bits <= 64,
        lo < pow2(F::spec_format().bits),
        hi < pow2(F::spec_format().bits),
    ensures
        wide(F::spec_format().bits, r.0 as nat, r.1 as nat) == sticky_shr(
            wide(F::spec_format().bits, lo as nat, hi as nat),
            count as nat,
        ),
        r.0 < pow2(F::spec_format().bits),
        r.1 < pow2(F::spec_format().bits),
{
    let ghost w = F::spec_format().bits;
    proof {
        F::lemma_format();
                    lemma_pow2_values();
        lemma_pow2_le(w, 64);
        lemma_pow2_pos(w);
        assert(hi * pow2(w) + lo < pow2(w) * pow2(w)) by (nonlinear_arith)
            requires hi + 1 <= pow2(w), lo < pow2(w);
        assert(pow2(w) * pow2(w) <= 0x1_0000_0000_0000_0000 * 0x1_0000_0000_0000_0000)
            by (nonlinear_arith)
            requires 0 < pow2(w) <= 0x1_0000_0000_0000_0000;
        assert(hi * pow2(w) <= hi * pow2(w) + lo);
    }
    let v = shl_u128(hi, F::bits()) + lo;
    let s = if count < 128 {
        let kept = shr_u128(v, count);
        let lost = low_bits_u128(v, count);
        proof {
            lemma_u128_or_one(kept);
            lemma_pow2_pos(count as nat);
        }
        if lost == 0 {
            kept
        } else {
            kept | 1
        }
    } else {
        proof {
            lemma_pow2_le(128, count as nat);
            if v != 0 {
                lemma_div_mod_unique(v as int, pow2(count as nat) as int, 0, v as int);
            } else {
                lemma_div_mod_unique(0, pow2(count as nat) as int, 0, 0);
            }
        }
        if v == 0 {
            0
        } else {
            1
        }
    };
    proof {
        lemma_pow2_pos(count as nat);
        lemma_div_mod(v as int, pow2(count as nat) as int);
        let q = v as int / pow2(count as nat) as int;
        assert(q <= v) by (nonlinear_arith)
            requires
                v == q * pow2(count as nat) + v as int % pow2(count as nat) as int,
                0 <= v as int % pow2(count as nat) as int,
                pow2(count as nat) >= 1,
                q >= 0,
        ;
        if count < 128 && count >= 1 {
            lemma_pow2_le(1, count as nat);
            assert(v >= 2 * q + v as int % pow2(count as nat) as int) by (nonlinear_arith)
                requires
                    v == q * pow2(count as nat) + v as int % pow2(count as nat) as int,
                    pow2(count as nat) >= 2,
                    q >= 0,
            ;
        }
        assert(s <= v || s == 1);
        lemma_div_mod(s as int, pow2(w) as int);
        let sq = s as int / pow2(w) as int;
        assert(sq < pow2(w)) by (nonlinear_arith)
            requires
                s == sq * pow2(w) + s as int % pow2(w) as int,
                0 <= s as int % pow2(w) as int,
                s < pow2(w) * pow2(w),
                pow2(w) > 0,
        ;
    }
    (low_bits_u128(s, F::bits()), shr_u128(s, F::bits()))
}
/// `v / 2^count`, with the lowest bit set where the division is not exact.
pub open spec fn sticky_shr(v: nat, count: nat) -> nat {
    let q = v / pow2(count);
    if v % pow2(count) != 0 && q % 2 == 0 {
        q + 1
    } else {
        q
    }
}

impl PseudoLargeInt for F16 {
    fn wide_mul(x: u128, y: u128) -> (r: (u128, u128)) {
        narrow_wide_mul::<F16>(x, y)
    }

    fn wide_shl(lo: u128, hi: u128, count: u32) -> (r: (u128, u128)) {
        narrow_wide_shl::<F16>(lo, hi, count)
    }

    fn wide_shr(lo: u128, hi: u128, count: u32) -> (r: (u128, u128)) {
        narrow_wide_shr::<F16>(lo, hi, count)
    }
}

impl PseudoLargeInt for F32 {
    fn wide_mul(x: u128, y: u128) -> (r: (u128, u128)) {
        narrow_wide_mul::<F32>(x, y)
    }

    fn wide_shl(lo: u128, hi: u128, count: u32) -> (r: (u128, u128)) {
        narrow_wide_shl::<F32>(lo, hi, count)
    }

    fn wide_shr(lo: u128, hi: u128, count: u32) -> (r: (u128, u128)) {
        narrow_wide_shr::<F32>(lo, hi, count)
    }
}

impl PseudoLargeInt for F64 {
    fn wide_mul(x: u128, y: u128) -> (r: (u128, u128)) {
        narrow_wide_mul::<F64>(x, y)
    }

    fn wide_shl(lo: u128, hi: u128, count: u32) -> (r: (u128, u128)) {
        narrow_wide_shl::<F64>(lo, hi, count)
    }

    fn wide_shr(lo: u128, hi: u128, count: u32) -> (r: (u128, u128)) {
        narrow_wide_shr::<F64>(lo, hi, count)
    }
}

impl PseudoLargeInt for F128 {
    fn wide_mul(x: u128, y: u128) -> (r: (u128, u128)) {
        let p = zero_widen_mul(x, y);
        proof {
            lemma_pow2_values();
            assert(LIMB * LIMB == pow2(128)) by (nonlinear_arith)
                requires LIMB == 0x1_0000_0000_0000_0000, pow2(128)
                    == 0x1_0000_0000_0000_0000_0000_0000_0000_0000;
            lemma_div_mod(p.value() as int, pow2(128) as int);
        }
        (p.lo(), p.hi())
    }

    fn wide_shl(lo: u128, hi: u128, count: u32) -> (r: (u128, u128)) {
        if count == 0 {
            proof {
                lemma_pow2_values();
                assert(wide(128, lo as nat, hi as nat) * 1 == wide(128, lo as nat, hi as nat))
                    by (nonlinear_arith);
            }
            return (lo, hi);
        }
        let down = 128 - count;
        let carry = shr_u128(lo, down);
        let low = low_bits_u128(lo, down);
        proof {
            lemma_pow2_values();
            lemma_pow2_adds(down as nat, count as nat);
            lemma_pow2_adds(128, 128);
            lemma_pow2_pos(count as nat);
            lemma_pow2_pos(down as nat);
            lemma_div_mod(lo as int, pow2(down as nat) as int);
            let pc = pow2(count as nat) as int;
            let pd = pow2(down as nat) as int;
            let w = pow2(128) as int;
            let v = wide(128, lo as nat, hi as nat) as int;
            assert(v * pc == (hi * pc + carry) * w + low * pc) by (nonlinear_arith)
                requires v == hi * w + lo, lo == carry * pd + low, pd * pc == w;
            assert(0 <= low * pc < w) by (nonlinear_arith)
                requires 0 <= low < pd, pd * pc == w, pc > 0;
            assert(hi * pc + carry < w) by (nonlinear_arith)
                requires (hi * pc + carry) * w + low * pc < w * w, low * pc >= 0, w > 0;
            assert(hi * pc >= 0) by (nonlinear_arith)
                requires hi >= 0, pc >= 0;
        }
        (shl_u128(low, count), shl_u128(hi, count) + carry)
    }

    fn wide_shr(lo: u128, hi: u128, count: u32) -> (r: (u128, u128)) {
        let ghost w = pow2(128) as int;
        let ghost v = wide(128, lo as nat, hi as nat) as int;
        let ghost pc = pow2(count as nat) as int;
        proof {
            lemma_pow2_values();
            lemma_pow2_pos(count as nat);
        }
        if count == 0 {
            proof {
                lemma_div_mod_unique(v, 1, v, 0);
            }
            return (lo, hi);
        }
        let (kept, lost): (u128, bool) = if count < 128 {
            let up = 128 - count;
            let high = shr_u128(hi, count);
            let hlow = low_bits_u128(hi, count);
            let lower = shr_u128(lo, count);
            let lost = low_bits_u128(lo, count) != 0;
            proof {
                let pu = pow2(up as nat) as int;
                lemma_pow2_adds(count as nat, up as nat);
                lemma_pow2_pos(up as nat);
                lemma_div_mod(hi as int, pc);
                lemma_div_mod(lo as int, pc);
                let lq = lo as int / pc;
                let lr = lo as int % pc;
                assert(0 <= hlow * pu <= (pc - 1) * pu) by (nonlinear_arith)
                    requires 0 <= hlow <= pc - 1, pu > 0;
                assert(lq < pu) by (nonlinear_arith)
                    requires lo == lq * pc + lr, lr >= 0, lo < pc * pu, pc > 0;
                assert((pc - 1) * pu == w - pu) by (nonlinear_arith)
                    requires pc * pu == w;
                assert(v == (high * w + (hlow * pu + lq)) * pc + lr) by (nonlinear_arith)
                    requires
                        v == hi * w + lo,
                        hi == high * pc + hlow,
                        lo == lq * pc + lr,
                        pc * pu == w,
                ;
                lemma_div_mod_unique(v, pc, high * w + (hlow * pu + lq), lr);
            }
            let kept = shl_u128(hlow, up) + lower;
            proof {
                let q = high * w + kept;
                assert(q % 2 == kept as int % 2) by {
                    assert(q == (high * 0x8000_0000_0000_0000_0000_0000_0000_0000) * 2 + kept)
                        by (nonlinear_arith)
                        requires q == high * w + kept, w == 0x1_0000_0000_0000_0000_0000_0000_0000_0000;
                }
            }
            return finish_shr(kept, high, lost);
        } else if count < 256 {
            let down = count - 128;
            let kept = shr_u128(hi, down);
            let lost = low_bits_u128(hi, down) != 0 || lo != 0;
            proof {
                let pd = pow2(down as nat) as int;
                lemma_pow2_adds(down as nat, 128);
                lemma_pow2_pos(down as nat);
                lemma_div_mod(hi as int, pd);
                let hr = hi as int % pd;
                assert(v == kept * pc + (hr * w + lo)) by (nonlinear_arith)
                    requires v == hi * w + lo, hi == kept * pd + hr, pc == pd * w;
                assert(0 <= hr * w + lo < pc) by (nonlinear_arith)
                    requires 0 <= hr <= pd - 1, 0 <= lo < w, pc == pd * w;
                lemma_div_mod_unique(v, pc, kept as int, hr * w + lo);
                assert(hr * w + lo != 0 <==> (hr != 0 || lo != 0)) by (nonlinear_arith)
                    requires hr >= 0, lo >= 0, w > 0;
            }
            (kept, lost)
        } else {
            proof {
                lemma_pow2_adds(128, 128);
                lemma_pow2_le(256, count as nat);
                assert(v < w * w) by (nonlinear_arith)
                    requires v == hi * w + lo, hi + 1 <= w, lo < w;
                lemma_div_mod_unique(v, pc, 0, v);
                assert(hi * w >= 0) by (nonlinear_arith)
                    requires hi >= 0, w >= 0;
                assert(v == 0 <==> (hi == 0 && lo == 0)) by (nonlinear_arith)
                    requires v == hi * w + lo, hi >= 0, lo >= 0, w > 0;
            }
            (0, hi != 0 || lo != 0)
        };
        proof {
            assert(0 * w == 0);
        }
        finish_shr(kept, 0, lost)
    }
}

/// Puts the sticky bit on the low word of a shifted double word.
fn finish_shr(kept: u128, high: u128, lost: bool) -> (r: (u128, u128))
    ensures
        r.1 == high,
        r.0 == (if lost && kept % 2 == 0 { kept + 1 } else { kept as int }),
{
    proof {
        lemma_u128_or_one(kept);
    }
    if lost {
        (kept | 1, high)
    } else {
        (kept, high)
    }
}

/// What the double word `v = p * 2^g` tells of the product `p` of two
/// significands: the product, measured at the exponent `pe`, is
/// `v * 2^(pe - 1) / 2^bits` smallest subnormals, cleared of fractions in the
/// way each case of the rounding wants it.
proof fn lemma_product_ratio(
    fmt: Format,
    a: nat,
    sa: nat,
    ea: int,
    b: nat,
    sb: nat,
    eb: int,
    ib: nat,
    pe: int,
    v: nat,
    k: nat,
)
    requires
        fmt.wf(),
        is_operand(fmt, a, sa, ea),
        is_operand(fmt, b, sb, eb),
        ib <= 1,
        pe == ea + eb - fmt.bias() + ib,
        v == (sa * sb) * pow2((fmt.exp_bits() + 1 - ib) as nat),
        k + 1 >= pe,
    ensures
        (fmt.mag(a) * fmt.mag(b)) * pow2((fmt.bits + k + 1 - pe) as nat) == (v * pow2(k))
            * fmt.unit(),
{
    lemma_format_basics(fmt);
    let g = (fmt.exp_bits() + 1 - ib) as nat;
    let u = (fmt.bias() + fmt.sig_bits - 1) as nat;
    let k1 = (fmt.bits + k + 1 - pe) as nat;
    let k2 = g + k + u;
    lemma_operand_product(fmt, a, sa, ea, b, sb, eb, k1, k2);
    lemma_pow2_adds(g, k);
    lemma_pow2_adds(g + k, u);
    let p = (sa * sb) as int;
    let (pg, pk, pu) = (pow2(g) as int, pow2(k) as int, pow2(u) as int);
    assert(p * (pg * pk * pu) == ((p * pg) * pk) * pu) by (nonlinear_arith);
}

/// The product is beyond the finite range: it rounds to infinity.
proof fn lemma_mul_overflow(fmt: Format, num: nat, v: nat, hi: nat, pe: int)
    requires
        fmt.wf(),
        pe >= fmt.exp_max(),
        hi >= pow2(fmt.sig_bits),
        v >= hi * pow2(fmt.bits),
        num * pow2(fmt.bits) == (v * pow2((pe - 1) as nat)) * fmt.unit(),
    ensures
        fmt.is_nearest_even(fmt.exp_mask(), num, fmt.unit()),
{
    lemma_format_basics(fmt);
    let ps = pow2(fmt.sig_bits) as int;
    let pw = pow2((pe - 1) as nat) as int;
    let pm = pow2((fmt.exp_max() - 1) as nat) as int;
    let rw = pow2(fmt.bits) as int;
    let u = fmt.unit() as int;
    lemma_pow2_le((fmt.exp_max() - 1) as nat, (pe - 1) as nat);
    lemma_pow2_pos(fmt.bits);
    lemma_pow2_pos((fmt.bias() + fmt.sig_bits - 1) as nat);
    let r = fmt.exp_mask();
    lemma_emag_linear(fmt, fmt.exp_max(), 0);
    lemma_emag_increases(fmt, (r - 1) as nat, r);
    let m0 = fmt.emag((r - 1) as nat) as int;
    let m1 = fmt.emag(r) as int;
    assert(m1 == ps * pm);
    assert((v * pw) * u >= ((m1 * u) * rw)) by (nonlinear_arith)
        requires v >= hi * rw, hi >= ps, pw >= pm, m1 == ps * pm, u >= 0, rw >= 0, ps >= 0, pm >= 0;
    assert(num >= m1 * u) by (nonlinear_arith)
        requires num * rw >= (m1 * u) * rw, rw > 0;
    assert((m0 + m1) * u < 2 * (m1 * u)) by (nonlinear_arith)
        requires m0 < m1, u > 0;
}

/// The product is below half the smallest subnormal: it rounds to zero.
proof fn lemma_mul_underflow(fmt: Format, num: nat, v: nat, sh: nat)
    requires
        fmt.wf(),
        sh >= fmt.bits,
        v < 2 * (pow2(fmt.sig_bits) * pow2(fmt.bits)),
        num * pow2(fmt.bits + sh) == v * fmt.unit(),
    ensures
        fmt.is_nearest_even(0, num, fmt.unit()),
{
    lemma_format_basics(fmt);
    let ps = pow2(fmt.sig_bits) as int;
    let rw = pow2(fmt.bits) as int;
    let psh = pow2(sh) as int;
    let u = fmt.unit() as int;
    lemma_pow2_adds(fmt.bits, sh);
    lemma_pow2_le(fmt.sig_bits + 2, sh);
    lemma_pow2_unfold(fmt.sig_bits + 2);
    lemma_pow2_unfold(fmt.sig_bits + 1);
    lemma_pow2_pos((fmt.bias() + fmt.sig_bits - 1) as nat);
    lemma_pow2_pos(fmt.bits);
    assert(psh >= 4 * ps);
    assert(2 * (v * u) < (rw * psh) * u) by (nonlinear_arith)
        requires v < 2 * (ps * rw), psh >= 4 * ps, u > 0, rw > 0, ps > 0;
    assert(2 * num < u) by (nonlinear_arith)
        requires 2 * (num * (rw * psh)) < (rw * psh) * u, rw > 0, psh > 0;
    lemma_emag_subnormal(fmt, 0);
    lemma_emag_subnormal(fmt, 1);
    lemma_pow2_le(0, fmt.sig_bits);
    lemma_pow2_values();
    assert((0 + 1) * u == u) by (nonlinear_arith);
}

/// A product in the normal range: the pattern made of the exponent `pe` and
/// the high word goes up by one where the low word is above half a word, or
/// is half a word and the pattern is odd; that is the exact product rounded.
proof fn lemma_mul_normal(fmt: Format, num: nat, lo: nat, hi: nat, pe: int, up: bool)
    requires
        fmt.wf(),
        1 <= pe < fmt.exp_max(),
        pow2(fmt.sig_bits) <= hi < 2 * pow2(fmt.sig_bits),
        lo < pow2(fmt.bits),
        num * pow2(fmt.bits) == (wide(fmt.bits, lo, hi) * pow2((pe - 1) as nat)) * fmt.unit(),
        up == (2 * lo > pow2(fmt.bits) || (2 * lo == pow2(fmt.bits) && ((hi - pow2(fmt.sig_bits)
            + pe * pow2(fmt.sig_bits)) as nat) % 2 == 1)),
    ensures
        ({
            let r0 = (hi - pow2(fmt.sig_bits) + pe * pow2(fmt.sig_bits)) as nat;
            &&& r0 < fmt.exp_mask()
            &&& fmt.is_nearest_even(if up { r0 + 1 } else { r0 }, num, fmt.unit())
        }),
{
    lemma_format_basics(fmt);
    let s = fmt.sig_bits;
    let ps = pow2(s) as int;
    let rw = pow2(fmt.bits) as int;
    let pw = pow2((pe - 1) as nat) as int;
    let u = fmt.unit() as int;
    lemma_pow2_pos((pe - 1) as nat);
    lemma_pow2_pos(fmt.bits);
    lemma_pow2_pos((fmt.bias() + s - 1) as nat);
    let g = (hi - ps) as nat;
    let r0 = (pe * ps + g) as nat;
    assert(r0 == (pe as nat) * pow2(s) + g);
    lemma_emag_linear(fmt, pe as nat, g);
    lemma_compose(fmt, pe as nat, g);
    assert(fmt.emag(r0) == hi * pw);
    assert(fmt.ulp(r0) == pw);
    assert(r0 < fmt.exp_mask()) by (nonlinear_arith)
        requires
            r0 == pe * ps + g,
            g < ps,
            pe + 1 <= fmt.exp_max(),
            fmt.exp_mask() == fmt.exp_max() * ps,
            ps > 0,
    ;
    let v = wide(fmt.bits, lo, hi) as int;
    let num2 = (v * pw) as nat;
    assert(num2 == (hi * pw) * rw + lo * pw) by (nonlinear_arith)
        requires num2 == v * pw, v == hi * rw + lo;
    assert(lo * pw >= 0) by (nonlinear_arith)
        requires lo >= 0, pw >= 0;
    assert(2 * (lo * pw) < 3 * (pw * rw)) by (nonlinear_arith)
        requires lo < rw, pw > 0, lo >= 0;
    assert(2 * (lo * pw) > pw * rw <==> 2 * lo > rw) by (nonlinear_arith)
        requires pw > 0;
    assert(2 * (lo * pw) == pw * rw <==> 2 * lo == rw) by (nonlinear_arith)
        requires pw > 0;
    lemma_round_from_below(fmt, r0, num2, rw as nat, up);
    let r = if up { r0 + 1 } else { r0 };
    lemma_nearest_even_ratio(fmt, r, num, u as nat, num2, rw as nat);
}

/// A product in the subnormal range, after the double word `v` was shifted
/// right by `sh` with a sticky bit: the high word goes up by one where the
/// low word is above half a word, or is half a word and the high word is
/// odd; that is the exact product rounded.
proof fn lemma_mul_subnormal(fmt: Format, num: nat, v: nat, sh: nat, lo: nat, hi: nat, up: bool)
    requires
        fmt.wf(),
        1 <= sh,
        v < 2 * (pow2(fmt.sig_bits) * pow2(fmt.bits)),
        lo < pow2(fmt.bits),
        wide(fmt.bits, lo, hi) == sticky_shr(v, sh),
        num * pow2(fmt.bits + sh) == v * fmt.unit(),
        up == (2 * lo > pow2(fmt.bits) || (2 * lo == pow2(fmt.bits) && hi % 2 == 1)),
    ensures
        hi < pow2(fmt.sig_bits),
        hi + 1 < fmt.exp_mask(),
        fmt.is_nearest_even(if up { hi + 1 } else { hi }, num, fmt.unit()),
{
    lemma_format_basics(fmt);
    let s = fmt.sig_bits;
    let ps = pow2(s) as int;
    let rw = pow2(fmt.bits) as int;
    let psh = pow2(sh) as int;
    let u = fmt.unit() as int;
    lemma_pow2_pos(fmt.bits);
    lemma_pow2_pos((fmt.bias() + s - 1) as nat);
    lemma_pow2_le(1, sh);
    lemma_pow2_values();
    lemma_pow2_unfold(fmt.bits);
    lemma_pow2_adds(fmt.bits, sh);
    let vi = v as int;
    lemma_div_mod(vi, psh);
    let q = vi / psh;
    let low = vi % psh;
    let st = sticky_shr(v, sh) as int;
    // the sticky bit does not reach the high word
    lemma_div_mod(q, rw);
    let hq = q / rw;
    let lq = q % rw;
    assert(rw % 2 == 0);
    assert(lq % 2 == q % 2) by {
        let h2 = rw / 2;
        assert(q == (hq * h2) * 2 + lq) by (nonlinear_arith)
            requires q == hq * rw + lq, rw == h2 * 2;
    }
    assert(st == hq * rw + (st - hq * rw));
    lemma_div_mod_unique(st, rw, hq, st - hq * rw);
    lemma_div_mod_unique(st, rw, hi as int, lo as int);
    assert(hi == hq);
    assert(lo == (if low != 0 && lq % 2 == 0 { lq + 1 } else { lq }));
    // the high word is the floor of the product
    let den2 = rw * psh;
    let rem = lq * psh + low;
    assert(vi == hq * den2 + rem) by (nonlinear_arith)
        requires vi == q * psh + low, q == hq * rw + lq, den2 == rw * psh, rem == lq * psh + low;
    assert(0 <= rem < den2) by (nonlinear_arith)
        requires 0 <= lq < rw, 0 <= low < psh, den2 == rw * psh, rem == lq * psh + low;
    assert(hq < ps) by (nonlinear_arith)
        requires vi == hq * den2 + rem, rem >= 0, vi < 2 * (ps * rw), den2 == rw * psh, psh >= 2, rw > 0, ps > 0, hq >= 0;
    assert(hi + 1 < fmt.exp_mask()) by (nonlinear_arith)
        requires hi < ps, fmt.exp_mask() == fmt.exp_max() * ps, fmt.exp_max() >= 7, ps > 0;
    // the low word compares with half a word as the remainder with half the divisor
    let half = rw / 2;
    assert(half % 2 == 0) by {
        lemma_pow2_unfold((fmt.bits - 1) as nat);
    }
    lemma_sticky(lq, low, psh, half, lo as int);
    assert(2 * half * psh == den2) by (nonlinear_arith)
        requires den2 == rw * psh, rw == 2 * half;
    lemma_emag_subnormal(fmt, hi);
    lemma_compose(fmt, 0, hi);
    assert(0 * pow2(s) + hi == hi);
    assert(fmt.ulp(hi) == 1);
    assert(fmt.emag(hi) * den2 == hq * den2) by (nonlinear_arith)
        requires fmt.emag(hi) == hq;
    assert(1 * den2 == den2);
    lemma_round_from_below(fmt, hi, v, den2 as nat, up);
    let r = if up { hi + 1 } else { hi };
    lemma_nearest_even_ratio(fmt, r, num, u as nat, v, den2 as nat);
}

/// A word that carries a sticky bit compares with half a word as the exact
/// remainder does with half the divisor.
proof fn lemma_sticky(lq: int, low: int, psh: int, half: int, lo: int)
    requires
        0 <= low < psh,
        0 <= lq,
        half >= 2,
        half % 2 == 0,
        lo == (if low != 0 && lq % 2 == 0 { lq + 1 } else { lq }),
    ensures
        (lo > half) == (2 * (lq * psh + low) > 2 * half * psh),
        (lo == half) == (2 * (lq * psh + low) == 2 * half * psh),
{
    if lq > half {
        assert(lq * psh >= (half + 1) * psh) by (nonlinear_arith)
            requires lq >= half + 1, psh > 0;
        assert((half + 1) * psh == half * psh + psh) by (nonlinear_arith);
    } else if lq == half {
        assert(lq * psh == half * psh) by (nonlinear_arith)
            requires lq == half;
    } else {
        assert(lq * psh <= (half - 1) * psh) by (nonlinear_arith)
            requires lq <= half - 1, psh > 0;
        assert((half - 1) * psh == half * psh - psh) by (nonlinear_arith);
    }
    assert(2 * half * psh == 2 * (half * psh)) by (nonlinear_arith);
}

/// Rounds the double-word product of two significands into the sign-less
/// pattern of the result: infinity beyond the finite range, a zero far below
/// the smallest subnormal, and else the high word at its exponent, or
/// shifted into the subnormal range, stepped up by one where the low word
/// asks for it.
fn round_product<F: PseudoLargeInt>(
    product_lo: u128,
    product_hi: u128,
    exponent: i32,
    Ghost(xa): Ghost<nat>,
    Ghost(sa): Ghost<nat>,
    Ghost(ea): Ghost<int>,
    Ghost(xb): Ghost<nat>,
    Ghost(sb): Ghost<nat>,
    Ghost(eb): Ghost<int>,
) -> (abs_result: u128)
    requires
        is_operand(format_of::<F>(), xa, sa, ea),
        is_operand(format_of::<F>(), xb, sb, eb),
        exponent == ea + eb - format_of::<F>().bias(),
        product_lo < pow2(format_of::<F>().bits),
        wide(format_of::<F>().bits, product_lo as nat, product_hi as nat) == (sa * sb) * pow2(
            format_of::<F>().exp_bits(),
        ),
    ensures
        abs_result <= format_of::<F>().exp_mask(),
        format_of::<F>().is_nearest_even(
            abs_result as nat,
            format_of::<F>().mag(xa) * format_of::<F>().mag(xb),
            format_of::<F>().unit(),
        ),
{
    let ghost fmt = format_of::<F>();
    let ghost ps = pow2(fmt.sig_bits);
    let ghost rw = pow2(fmt.bits);
    let ghost t = pow2(fmt.exp_bits());
    let ghost num = fmt.mag(xa) * fmt.mag(xb);
    let ghost v0 = wide(fmt.bits, product_lo as nat, product_hi as nat);
    proof {
        F::lemma_format();
        lemma_format_basics(fmt);
        lemma_pow2_values();
        lemma_pow2_le(fmt.bits, 128);
        lemma_pow2_adds(fmt.bits, fmt.bits);
        lemma_pow2_unfold(fmt.sig_bits);
        lemma_pow2_unfold(fmt.bits);
        lemma_pow2_unfold((fmt.bits - 1) as nat);
        lemma_pow2_unfold(fmt.exp_bits() + 1);
        lemma_pow2_adds(fmt.sig_bits, fmt.exp_bits());
        lemma_pow2_pos(fmt.exp_bits());
        assert(rw == 2 * ps * t) by (nonlinear_arith)
            requires rw == 2 * pow2((fmt.bits - 1) as nat), pow2((fmt.bits - 1) as nat) == ps * t;
        assert(2 * ps <= rw) by (nonlinear_arith)
            requires rw == 2 * ps * t, t >= 1, ps > 0;
        lemma_product_size(
            (sa * sb) as int,
            sa as int,
            sb as int,
            ps as int,
            t as int,
            rw as int,
            product_lo as int,
            product_hi as int,
        );
    }
    let significand_bits = F::significand_bits();
    let max_exponent = F::exponent_max();
    let implicit_bit = F::implicit_bit();
    let sign_bit = F::sign_mask();
    let inf_rep = F::exponent_mask();

    // Normalize the significand, adjust exponent if needed.
    let ib = product_hi >= implicit_bit;
    let product_exponent = if ib {
        exponent + 1
    } else {
        exponent
    };
    proof {
        if !ib {
            assert(v0 * 2 < rw * rw) by (nonlinear_arith)
                requires v0 < ps * rw, 2 * ps <= rw, rw > 0;
        }
    }
    let (product_lo, product_hi) = if ib {
        (product_lo, product_hi)
    } else {
        F::wide_shl(product_lo, product_hi, 1)
    };
    let ghost ibn: nat = if ib { 1 } else { 0 };
    let ghost pe = product_exponent as int;
    let ghost v = wide(fmt.bits, product_lo as nat, product_hi as nat);
    proof {
        assert(v == (sa * sb) * pow2((fmt.exp_bits() + 1 - ibn) as nat)) by (nonlinear_arith)
            requires
                v0 == (sa * sb) * t,
                v == (if ib { v0 } else { v0 * 2 }),
                pow2((fmt.exp_bits() + 1 - ibn) as nat) == (if ib { t } else { 2 * t }),
        ;
        assert(ps <= product_hi < 2 * ps) by (nonlinear_arith)
            requires
                v == product_hi * rw + product_lo,
                0 <= product_lo < rw,
                v == (if ib { v0 } else { v0 * 2 }),
                if ib { v0 >= ps * rw } else { 2 * v0 >= ps * rw && v0 < ps * rw },
                v0 < 2 * (ps * rw),
                rw > 0,
                ps > 0,
        ;
        assert(v >= product_hi * rw);
        assert(v < 2 * (ps * rw)) by (nonlinear_arith)
            requires v == product_hi * rw + product_lo, product_lo < rw, product_hi + 1 <= 2 * ps, rw > 0;
    }

    // If we have overflowed the type, return +/- infinity.
    if product_exponent >= max_exponent as i32 {
        proof {
            lemma_product_ratio(fmt, xa, sa, ea, xb, sb, eb, ibn, pe, v, (pe - 1) as nat);
            lemma_mul_overflow(fmt, num, v, product_hi as nat, pe);
        }
        return inf_rep;
    }
    let (product_lo, product_hi) = if product_exponent <= 0 {
        // Result is denormal before rounding
        //
        // If the result is so small that it just underflows to zero, return
        // a zero of the appropriate sign.  Mathematically there is no need to
        // handle this case separately, but we make it a special case to
        // simplify the shift logic.
        let shift = 1 - product_exponent;
        if shift >= F::bits() as i32 {
            proof {
                lemma_product_ratio(fmt, xa, sa, ea, xb, sb, eb, ibn, pe, v, 0);
                assert(v * pow2(0) == v) by (nonlinear_arith)
                    requires pow2(0) == 1;
                lemma_mul_underflow(fmt, num, v, shift as nat);
            }
            return 0;
        }
        // Otherwise, shift the significand of the result so that the round
        // bit is the high bit of productLo.

        let (lo, hi) = F::wide_shr(product_lo, product_hi, shift as u32);
        proof {
            lemma_product_ratio(fmt, xa, sa, ea, xb, sb, eb, ibn, pe, v, 0);
            assert(v * pow2(0) == v) by (nonlinear_arith)
                requires pow2(0) == 1;
            lemma_mul_subnormal(
                fmt,
                num,
                v,
                shift as nat,
                lo as nat,
                hi as nat,
                lo > sign_bit || (lo == sign_bit && hi % 2 == 1),
            );
        }
        (lo, hi)
    } else {
        // Result is normal before rounding; insert the exponent.
        proof {
            assert(product_exponent as u128 * ps < fmt.exp_max() * ps) by (nonlinear_arith)
                requires 0 < product_exponent < fmt.exp_max(), ps > 0;
        }
        let hi = (product_hi - implicit_bit) + shl_u128(
            product_exponent as u128,
            significand_bits,
        );
        proof {
            lemma_product_ratio(fmt, xa, sa, ea, xb, sb, eb, ibn, pe, v, (pe - 1) as nat);
            lemma_mul_normal(
                fmt,
                num,
                product_lo as nat,
                product_hi as nat,
                pe,
                product_lo > sign_bit || (product_lo == sign_bit && hi % 2 == 1),
            );
        }
        (product_lo, hi)
    };
    // Final rounding.  The final result may overflow to infinity, or underflow
    // to zero, but those are the correct results in those cases.  We use the
    // default IEEE-754 round-to-nearest, ties-to-even rounding mode.
    let mut abs_result = product_hi;
    if product_lo > sign_bit {
        abs_result += 1;
    }
    if product_lo == sign_bit {
        abs_result += product_hi % 2;
    }
    abs_result
}

/// The size of the double-word product of two significands, the second
/// aligned at the top of its word: its high word is below twice the
/// implicit bit, and reaches the implicit bit where the product of the
/// significands reaches `2 * ps^2`.
proof fn lemma_product_size(p: int, sa: int, sb: int, ps: int, t: int, rw: int, lo: int, hi: int)
    requires
        p == sa * sb,
        ps <= sa < 2 * ps,
        ps <= sb < 2 * ps,
        ps > 0,
        t > 0,
        rw == 2 * ps * t,
        0 <= lo < rw,
        hi * rw + lo == p * t,
    ensures
        hi * rw + lo < 2 * (ps * rw),
        2 * (hi * rw + lo) >= ps * rw,
        hi >= ps <==> hi * rw + lo >= ps * rw,
        0 <= hi < 2 * ps,
{
    assert(ps * ps <= p < 4 * (ps * ps)) by (nonlinear_arith)
        requires p == sa * sb, ps <= sa < 2 * ps, ps <= sb < 2 * ps;
    assert(ps * rw == 2 * (ps * ps) * t) by (nonlinear_arith)
        requires rw == 2 * ps * t;
    assert(p * t < 4 * (ps * ps) * t) by (nonlinear_arith)
        requires p < 4 * (ps * ps), t > 0;
    assert(p * t >= (ps * ps) * t) by (nonlinear_arith)
        requires p >= ps * ps, t > 0;
    assert(4 * (ps * ps) * t == 2 * (2 * (ps * ps) * t)) by (nonlinear_arith);
    assert(2 * ((ps * ps) * t) == ps * rw) by (nonlinear_arith)
        requires rw == 2 * ps * t;
    assert(hi < 2 * ps) by (nonlinear_arith)
        requires hi * rw + lo < 2 * (ps * rw), lo >= 0, rw > 0;
    assert(hi >= 0) by (nonlinear_arith)
        requires hi * rw + lo >= 0, lo < rw, rw > 0;
    assert(hi >= ps <==> hi * rw + lo >= ps * rw) by (nonlinear_arith)
        requires 0 <= lo < rw, rw > 0;
}

/// Returns `a * b`
pub fn mul<F: PseudoLargeInt>(a: F, b: F) -> (r: F)
    ensures
        mul_spec(format_of::<F>(), a.spec_repr(), b.spec_repr(), r.spec_repr()),
{
    let ghost fmt = format_of::<F>();
    let ghost xa = a.spec_repr();
    let ghost xb = b.spec_repr();
    let ghost ps = pow2(fmt.sig_bits);
    let ghost neg = fmt.sign(xa) != fmt.sign(xb);
    proof {
        F::lemma_format();
        a.lemma_repr();
        b.lemma_repr();
        lemma_format_basics(fmt);
        lemma_fields(fmt, xa);
        lemma_fields(fmt, xb);
        lemma_field_bits(fmt, xa);
        lemma_field_bits(fmt, xb);
        lemma_pow2_values();
        lemma_pow2_le(fmt.bits, 128);
        lemma_pow2_unfold(fmt.sig_bits);
        lemma_with_sign(fmt, neg, 0);
        lemma_with_sign(fmt, neg, fmt.exp_mask());
        lemma_subnormal_pattern(fmt, xa);
        lemma_subnormal_pattern(fmt, xb);
    }
    let significand_bits = F::significand_bits();
    let max_exponent = F::exponent_max();
    let exponent_bias = F::exponent_bias();
    let implicit_bit = F::implicit_bit();
    let sign_bit = F::sign_mask();
    let inf_rep = F::exponent_mask();
    let quiet_bit = implicit_bit / 2;
    let qnan_rep = inf_rep + quiet_bit;

    let a_rep = a.repr();
    let b_rep = b.repr();

    let a_exponent = a.ex();
    let b_exponent = b.ex();
    let product_sign = if a.is_sign_negative() != b.is_sign_negative() {
        sign_bit
    } else {
        0
    };

    let mut a_significand = low_bits_u128(a_rep, significand_bits);
    let mut b_significand = low_bits_u128(b_rep, significand_bits);
    let mut scale: i32 = 0;
    let ghost mut ea: int = a_exponent as int;
    let ghost mut eb: int = b_exponent as int;

    // Detect if a or b is zero, denormal, infinity, or NaN.
    if a_exponent == 0 || a_exponent == max_exponent || b_exponent == 0 || b_exponent
        == max_exponent {
        let a_abs = if a_rep >= sign_bit {
            a_rep - sign_bit
        } else {
            a_rep
        };
        let b_abs = if b_rep >= sign_bit {
            b_rep - sign_bit
        } else {
            b_rep
        };

        // NaN * anything = qNaN
        if a_abs > inf_rep {
            return F::from_repr(F::quieted(a_rep));
        }
        // anything * NaN = qNaN

        if b_abs > inf_rep {
            return F::from_repr(F::quieted(b_rep));
        }
        if a_abs == inf_rep {
            if b_abs == 0 {
                // infinity * zero = NaN
                return F::from_repr(qnan_rep);
            } else {
                // infinity * non-zero = +/- infinity
                return F::from_repr(a_abs + product_sign);
            }
        }
        if b_abs == inf_rep {
            if a_abs == 0 {
                // zero * infinity = NaN
                return F::from_repr(qnan_rep);
            } else {
                // non-zero * infinity = +/- infinity
                return F::from_repr(b_abs + product_sign);
            }
        }
        // zero * anything = +/- zero

        if a_abs == 0 {
            return F::from_repr(product_sign);
        }
        // anything * zero = +/- zero

        if b_abs == 0 {
            return F::from_repr(product_sign);
        }
        // one or both of a or b is denormal, the other (if applicable) is a
        // normal number.  Renormalize one or both of a and b, and set scale to
        // include the necessary exponent adjustment.

        if a_abs < implicit_bit {
            let (s, norm) = F::normalize(a_significand);
            proof {
                lemma_operand_subnormal(fmt, xa, (1 - s) as nat);
                ea = s as int;
            }
            scale += s;
            a_significand = norm;
        }
        if b_abs < implicit_bit {
            let (s, norm) = F::normalize(b_significand);
            proof {
                lemma_operand_subnormal(fmt, xb, (1 - s) as nat);
                eb = s as int;
            }
            scale += s;
            b_significand = norm;
        }
    }
    // Set the implicit significand bit. If we fell through from the
    // denormal path it was already set by normalize( ).

    if a_significand < implicit_bit {
        a_significand += implicit_bit;
    }
    if b_significand < implicit_bit {
        b_significand += implicit_bit;
    }
    proof {
        if a_exponent != 0 {
            lemma_operand_normal(fmt, xa);
        }
        if b_exponent != 0 {
            lemma_operand_normal(fmt, xb);
        }
        let t = pow2(fmt.exp_bits());
        lemma_pow2_adds(fmt.sig_bits, fmt.exp_bits());
        lemma_pow2_unfold(fmt.bits);
        lemma_pow2_unfold((fmt.bits - 1) as nat);
        lemma_pow2_pos(fmt.exp_bits());
        assert(b_significand * t < 2 * ps * t) by (nonlinear_arith)
            requires b_significand < 2 * ps, t > 0;
        assert(pow2(fmt.bits) == 2 * ps * t) by (nonlinear_arith)
            requires
                pow2(fmt.bits) == 2 * pow2((fmt.bits - 1) as nat),
                pow2((fmt.bits - 1) as nat) == ps * t,
        ;
        assert(a_significand * (b_significand * t) == (a_significand * b_significand) * t)
            by (nonlinear_arith);
        lemma_pow2_le(fmt.sig_bits + 1, fmt.bits);
        lemma_pow2_unfold(fmt.sig_bits + 1);
    }
    // Get the significand of a*b.  Before multiplying the significands, shift
    // one of them left to left-align it in the field.  Thus, the product will
    // have (exponentBits + 2) integral digits, all but two of which must be
    // zero.  Normalizing this result is just a conditional left-shift by one
    // and bumping the exponent accordingly.
    let (product_lo, product_hi) = F::wide_mul(
        a_significand,
        shl_u128(b_significand, F::exponent_bits()),
    );
    let exponent = a_exponent as i32 + b_exponent as i32 - exponent_bias as i32 + scale;
    let abs_result = round_product::<F>(
        product_lo,
        product_hi,
        exponent,
        Ghost(xa),
        Ghost(a_significand as nat),
        Ghost(ea),
        Ghost(xb),
        Ghost(b_significand as nat),
        Ghost(eb),
    );
    proof {
        lemma_with_sign(fmt, neg, abs_result as nat);
    }
    // Insert the sign of the result:
    F::from_repr(abs_result + product_sign)
}

} // verus!
