//! Fixed-point reciprocal estimates by Newton-Raphson iteration.
//!
//! The divisor's significand `b`, with its leading bit at the top of a word,
//! stands for a real number in `[1, 2)`; the estimate `x` stands for a real
//! number in `(0, 1]` with the binary point above the word. In a word of
//! `n` bits with `R = 2^n`, the error of `x` against `1/b` is measured by
//! `x * b - R * R / 2`, which is the error in units of the last place of `x`,
//! times `b`.
//!
//! An estimate of exactly one does not fit the word and is stored as zero.

use vstd::prelude::*;

verus! {

/// `2^32`.
pub const R32: u64 = 0x1_0000_0000;

/// `2^31`.
pub const H32: u64 = 0x8000_0000;

/// `3/4 + 1/sqrt(2) - 1`, truncated to 32 fractional bits.
pub const C32: u64 = 0x7504_F333;

/// The first estimate `3/4 + 1/sqrt(2) - b/2` is within this many units of
/// the last place.
pub const U0: u64 = 184224974;

/// The error bound after one iteration at 32 bits.
pub const U1: u64 = 15804006;

/// The error bound after two iterations at 32 bits.
pub const U2: u64 = 116308;

/// The error bound after three iterations at 32 bits.
pub const U3: u64 = 8;

/// One iteration `x * (2 - x * b)` in a word of `r = 2 * h` values, as the
/// machine computes it: the correction is rounded up, the product
/// truncated, and the result wrapped to the word.
pub open spec fn newton_step_at(r: int, h: int, x: int, b: int) -> int {
    let p = (x * b) / r;
    let corr = (r - p) % r;
    ((x * corr) / h) % r
}

/// The error of the stored estimate `x` of `1/b` in a word of `r = 2 * h`
/// values, in units of its last place times `b`. A stored zero stands for
/// the estimate one.
pub open spec fn recip_error_at(r: int, h: int, x: int, b: int) -> int {
    if x == 0 {
        r * b - r * h
    } else {
        x * b - r * h
    }
}

/// The estimate `x` of `1/b` in a word of `r = 2 * h` values is no more than
/// `u` units of the last place too small, and less than `r / b <= 2` units
/// too large.
pub open spec fn recip_ok_at(r: int, h: int, x: int, b: int, u: int) -> bool {
    &&& x == 0 || r / 4 <= x < r
    &&& recip_error_at(r, h, x, b) >= -(u * b)
    &&& recip_error_at(r, h, x, b) < r
}

/// The error of the estimate `x` of `1/b` that is stored in 32 bits.
pub open spec fn recip_error(x: int, b: int) -> int {
    recip_error_at(R32 as int, H32 as int, x, b)
}

/// The 32-bit estimate `x` of `1/b` is no more than `u` units of the last
/// place too small, and less than `2^32 / b <= 2` units too large.
pub open spec fn recip_ok(x: int, b: int, u: int) -> bool {
    recip_ok_at(R32 as int, H32 as int, x, b, u)
}

/// One iteration at 32 bits.
pub open spec fn newton_step(x: int, b: int) -> int {
    newton_step_at(R32 as int, H32 as int, x, b)
}

/// The 32-bit estimate of `1/b`: three iterations on the first estimate
/// `3/4 + 1/sqrt(2) - b/2`.
pub open spec fn estimate_32(b: int) -> int {
    newton_step(newton_step(newton_step(C32 + R32 - b, b), b), b)
}

/// The first estimate is within `U0` units of the last place.
pub proof fn lemma_initial_estimate(b: int)
    requires
        H32 <= b < R32,
    ensures
        R32 / 4 <= C32 + R32 - b < R32,
        -(U0 * b) <= (C32 + R32 - b) * b - R32 * H32 <= U0 * b,
{
    let k = C32 as int + R32 as int;
    let kl = k - U0 as int;
    // above: (kl - b) * b <= R * H, since kl^2 <= 2 R^2
    assert((2 * b - kl) * (2 * b - kl) >= 0) by (nonlinear_arith);
    assert((2 * b - kl) * (2 * b - kl) == 4 * (b * b) - 4 * (kl * b) + kl * kl)
        by (nonlinear_arith);
    assert(kl * kl <= 4 * (R32 * H32)) by (nonlinear_arith)
        requires kl == 6074000997, R32 == 4294967296, H32 == 2147483648;
    assert((k - b) * b - U0 * b == kl * b - b * b) by (nonlinear_arith)
        requires kl == k - U0;
    // below: (b - H)(R - b) + (C + U0 - H) * b >= 0
    assert((b - H32) * (R32 - b) >= 0) by (nonlinear_arith)
        requires H32 <= b < R32;
    assert((C32 + U0 - H32) * b >= 0) by (nonlinear_arith)
        requires b >= 0;
    assert((k - b) * b + U0 * b - R32 * H32 == (b - H32) * (R32 - b) + (C32 + U0 - H32) * b)
        by (nonlinear_arith)
        requires k == C32 + R32, R32 == 2 * H32;
}

/// One iteration squares the error: from an estimate within `u` units it
/// makes one within about `u^2 / h + 1` units, in a word of any size.
pub proof fn lemma_newton_step_at(r: int, h: int, x: int, b: int, u: int, un: int)
    requires
        r == 2 * h,
        h >= 0x8000_0000,
        h % 2 == 0,
        r / 4 <= x < r,
        h <= b < r,
        -(u * b) <= x * b - r * h <= u * b,
        0 <= u,
        0 <= un,
        8 * u <= h,
        8 * un <= h,
        un * h >= u * u + h,
    ensures
        recip_ok_at(r, h, newton_step_at(r, h, x, b), b, un),
{
    let t = x * b;
    let p = t / r;
    let r0 = t % r;
    let d = p - h;
    let big_d = t - r * h;
    crate::arith::lemma_div_mod(t, r);
    assert(t >= 0) by (nonlinear_arith)
        requires t == x * b, x >= 0, b >= 0;
    assert(u * b <= u * r - u) by (nonlinear_arith)
        requires u >= 0, b <= r - 1;
    assert(big_d == r * d + r0) by (nonlinear_arith)
        requires big_d == t - r * h, t == p * r + r0, d == p - h;
    assert(-u <= d <= u) by (nonlinear_arith)
        requires
            big_d == r * d + r0,
            0 <= r0 < r,
            -(u * b) <= big_d <= u * b,
            u * b <= u * r - u,
            u >= 0,
            r > 0,
    ;
    let c = r - p;
    assert(0 < c < r);
    crate::arith::lemma_div_mod_unique(r - p, r, 0, c);
    let w = x * c;
    let y = w / h;
    let s = w % h;
    assert(w >= 0) by (nonlinear_arith)
        requires w == x * c, x >= 0, c >= 0;
    crate::arith::lemma_div_mod(w, h);
    assert(w == h * y + s) by (nonlinear_arith)
        requires w == y * h + s;
    assert(w * b == h * t - d * t) by (nonlinear_arith)
        requires w == x * (h - d), t == x * b;
    assert(t == r * (h + d) + r0) by (nonlinear_arith)
        requires t == p * r + r0, p == h + d;
    assert(h * t - d * t == r * (h * h) - r * (d * d) + r0 * h - r0 * d) by (nonlinear_arith)
        requires t == r * (h + d) + r0;
    assert((h * y + s) * b == h * (y * b) + s * b) by (nonlinear_arith);
    let dn = y * b - r * h;
    assert(d * big_d == r * (d * d) + r0 * d) by (nonlinear_arith)
        requires big_d == r * d + r0;
    assert(h * dn == h * (y * b) - r * (h * h)) by (nonlinear_arith)
        requires dn == y * b - r * h;
    assert(r0 * h == h * r0) by (nonlinear_arith);
    assert(h * dn == h * r0 - d * big_d - s * b);
    // above
    assert(d * big_d >= 0) by (nonlinear_arith)
        requires big_d == r * d + r0, 0 <= r0 < r, r > 0;
    assert(s * b >= 0) by (nonlinear_arith)
        requires s >= 0, b >= 0;
    assert(dn < r) by (nonlinear_arith)
        requires h * dn <= h * r0, r0 < r, h > 0;
    // below
    let m = u * b;
    assert(d * big_d <= u * m) by (nonlinear_arith)
        requires -u <= d <= u, -m <= big_d <= m, m >= 0, u >= 0;
    assert(s * b <= h * b) by (nonlinear_arith)
        requires 0 <= s < h, b >= 0;
    assert(un * h * b >= u * m + h * b) by (nonlinear_arith)
        requires un * h >= u * u + h, b >= 0, m == u * b;
    assert(h * (un * b) == un * h * b) by (nonlinear_arith);
    assert(h * r0 >= 0) by (nonlinear_arith)
        requires h >= 0, r0 >= 0;
    assert(dn >= -(un * b)) by (nonlinear_arith)
        requires h * dn >= -(h * (un * b)), h > 0;
    // the result fits the word, or is exactly one
    assert(x * b >= x * h) by (nonlinear_arith)
        requires b >= h, x >= 0;
    assert(2 * p >= x - 1) by (nonlinear_arith)
        requires p * r + r0 >= x * h, r0 < r, r == 2 * h, h > 0;
    assert(2 * w <= x * (2 * r - x + 1)) by (nonlinear_arith)
        requires w == x * (r - p), 2 * p >= x - 1, x >= 0;
    assert(r * (r + 1) - x * (2 * r - x + 1) == (r - x) * (r - x) + (r - x)) by (nonlinear_arith);
    assert((r - x) * (r - x) >= 0) by (nonlinear_arith);
    assert(y <= r) by (nonlinear_arith)
        requires 2 * (h * y + s) < r * (r + 1), s >= 0, r == 2 * h, h > 0;
    // and it is not small
    assert(y + un > h) by {
        if y + un <= h {
            assert((y + un) * b <= h * b) by (nonlinear_arith)
                requires y + un <= h, b >= 0;
            assert((y + un) * b == y * b + un * b) by (nonlinear_arith);
            assert(h * b < r * h) by (nonlinear_arith)
                requires b < r, h > 0;
        }
    }
    assert(y >= r / 4);
    if y == r {
        crate::arith::lemma_div_mod_unique(y, r, 1, 0);
    } else {
        crate::arith::lemma_div_mod_unique(y, r, 0, y);
    }
}

/// One iteration at 32 bits squares the error.
pub proof fn lemma_newton_step(x: int, b: int, u: int, un: int)
    requires
        R32 / 4 <= x < R32,
        H32 <= b < R32,
        -(u * b) <= x * b - R32 * H32 <= u * b,
        0 <= u <= 0x1000_0000,
        0 <= un <= 0x1000_0000,
        un * H32 >= u * u + H32,
    ensures
        recip_ok(newton_step(x, b), b, un),
{
    lemma_newton_step_at(R32 as int, H32 as int, x, b, u, un);
}

/// Once the estimate has reached one, it stays there.
pub proof fn lemma_newton_step_at_one(b: int, u: int)
    requires
        H32 <= b < R32,
        recip_ok(0, b, u),
    ensures
        newton_step(0, b) == 0,
{
    assert(0 * b == 0);
    assert((R32 as int - 0) % (R32 as int) == 0);
    assert(0 * 0 == 0);
}

/// One Newton-Raphson iteration at 32 bits.
fn newton_step_32(x: u64, b: u64) -> (r: u64)
    requires
        x < R32,
        H32 <= b < R32,
    ensures
        r == newton_step(x as int, b as int),
        r < R32,
{
    assert(x * b < R32 * R32) by (nonlinear_arith)
        requires x < R32, b < R32;
    let p = (x * b) / R32;
    // "0 - p" at 32 bits stands for "2 - p" with one integer bit.
    let corr = (R32 - p) % R32;
    assert(x * corr < R32 * R32) by (nonlinear_arith)
        requires x < R32, corr < R32;
    ((x * corr) / H32) % R32
}

/// The reciprocal estimate after three iterations at 32 bits, started from
/// `3/4 + 1/sqrt(2) - b/2`: at most `U3` units too small, less than two units
/// too large.
pub fn reciprocal_32(b: u64) -> (x: u64)
    requires
        H32 <= b < R32,
    ensures
        x < R32,
        x == estimate_32(b as int),
        recip_ok(x as int, b as int, U3 as int),
{
    // b >= 1, thus an upper bound for 3/4 + 1/sqrt(2) - b/2 is about 0.9572,
    // so x0 fits the word without wrapping.
    let x0 = C32 + R32 - b;
    proof {
        lemma_initial_estimate(b as int);
        lemma_newton_step(x0 as int, b as int, U0 as int, U1 as int);
    }
    let x1 = newton_step_32(x0, b);
    proof {
        lemma_step_again(x1 as int, b as int, U1 as int, U2 as int);
    }
    let x2 = newton_step_32(x1, b);
    proof {
        lemma_step_again(x2 as int, b as int, U2 as int, U3 as int);
    }
    newton_step_32(x2, b)
}

/// An iteration on an estimate that an earlier iteration made.
proof fn lemma_step_again(x: int, b: int, u: int, un: int)
    requires
        H32 <= b < R32,
        recip_ok(x, b, u),
        2 <= u <= 0x1000_0000,
        0 <= un <= 0x1000_0000,
        un * H32 >= u * u + H32,
    ensures
        recip_ok(newton_step(x, b), b, un),
{
    if x == 0 {
        lemma_newton_step_at_one(b, u);
        assert(un * b >= 0) by (nonlinear_arith)
            requires un >= 0, b >= 0;
        assert(newton_step(x, b) == 0);
    } else {
        assert(u * b >= 2 * b) by (nonlinear_arith)
            requires u >= 2, b >= 0;
        lemma_newton_step(x, b, u, un);
    }
}

/// The error of a stored estimate `x` of `1/b` in a word of `rw = 2^n`
/// values, in units of its last place times `b`. A stored zero or one
/// stands for one plus that.
pub open spec fn estimate_error(x: int, b: int, rw: int) -> int {
    if x < 2 {
        x * b + rw * b - rw * (rw / 2)
    } else {
        x * b - rw * (rw / 2)
    }
}

/// The estimate `x` of `1/b` is no more than `u` units of the last place too
/// small, and less than two too large.
pub open spec fn estimate_ok(x: int, b: int, rw: int, u: int) -> bool {
    &&& 0 <= x < rw
    &&& estimate_error(x, b, rw) >= -(u * b)
    &&& estimate_error(x, b, rw) < 2 * b
}

/// `2^64`.
pub const R64: u128 = 0x1_0000_0000_0000_0000;

/// `2^63`.
pub const H64: u128 = 0x8000_0000_0000_0000;

/// The error bound of the 64-bit estimate made by three iterations at 32 bits
/// and one at 64.
pub const U64: u64 = 218;

/// The error of a stored 64-bit estimate `x` of `1/b`, in units of its last
/// place times `b`. A stored word below a quarter stands for one plus that
/// word.
pub open spec fn recip_error_64(x: int, b: int) -> int {
    if x < R64 / 4 {
        x * b + R64 * b - R64 * H64
    } else {
        x * b - R64 * H64
    }
}

/// The 64-bit estimate `x` of `1/b` is no more than `u` units of the last
/// place too small, and less than two too large.
pub open spec fn recip_ok_64(x: int, b: int, u: int) -> bool {
    &&& 0 <= x < R64
    &&& x < R64 / 4 ==> x < 2
    &&& recip_error_64(x, b) >= -(u * b)
    &&& recip_error_64(x, b) < 2 * b
}

/// The 64-bit estimate of `1/b`: the 32-bit estimate of the reciprocal of the
/// upper half of `b`, less one, and one iteration at 64 bits on it, with the
/// correction taken one too large and the product decremented by three.
pub open spec fn estimate_64(b: int) -> int {
    let bh = b / (R32 as int);
    let bl = b % (R32 as int);
    let xh = (estimate_32(bh) + R32 - 1) % (R32 as int);
    let t = xh * bh + (xh * bl) / (R32 as int);
    let corr = R64 - (t - 1);
    ((xh * corr) / (H32 as int) - 3) % (R64 as int)
}

/// The iteration at the full width on a half-width estimate `xh` of the
/// reciprocal of the upper half `bh` of the divisor `bh * r + bl`, with the
/// correction `corr` taken one too large: the product `xh * corr / h` is
/// within 164 units of the last place below and 5 above. The half word has
/// `r = 2 * h` values, the full word `rr = r * r`.
pub proof fn lemma_full_step_at(
    r: int,
    h: int,
    xh: int,
    bh: int,
    bl: int,
    t: int,
    corr: int,
    xf: int,
)
    requires
        r == 2 * h,
        h >= 0x8000_0000,
        h % 2 == 0,
        r / 4 - 1 <= xh < r,
        h <= bh < r,
        0 <= bl < r,
        -(9 * bh) <= xh * bh - r * h < bh,
        t == xh * bh + (xh * bl) / r,
        corr == r * r - (t - 1),
        xf == (xh * corr) / h,
    ensures
        0 < corr < r * r,
        h * h + 3 <= xf <= r * r + 4,
        -(164 * (bh * r + bl)) <= xf * (bh * r + bl) - (r * r) * (r * h) < 5 * (bh * r + bl),
{
    let rr = r * r;
    let hh = r * h;
    let b = bh * r + bl;
    assert(rr == 4 * (h * h) && hh == 2 * (h * h) && rr == 2 * hh) by (nonlinear_arith)
        requires rr == r * r, hh == r * h, r == 2 * h;
    assert(h * h >= 0x8000_0000 * 0x8000_0000) by (nonlinear_arith)
        requires h >= 0x8000_0000;
    crate::arith::lemma_div_mod(xh * bl, r);
    let e = xh * bh - r * h;
    let v = xh * bl;
    let v1 = v / r;
    let v0 = v % r;
    assert(0 <= v < r * r) by (nonlinear_arith)
        requires 0 <= xh < r, 0 <= bl < r, v == xh * bl;
    let x64 = xh * r;
    let r0 = r * v0;
    let d = t - hh;
    let big_d = rr * d + r0;
    // the estimate times the divisor, split at the word
    assert(x64 * b == rr * (xh * bh) + r * (xh * bl)) by (nonlinear_arith)
        requires x64 == xh * r, b == bh * r + bl, rr == r * r;
    assert(r * (xh * bl) == rr * v1 + r0) by (nonlinear_arith)
        requires xh * bl == r * v1 + v0, r0 == r * v0, rr == r * r;
    assert(rr * (xh * bh) + rr * v1 == rr * t) by (nonlinear_arith)
        requires t == xh * bh + v1;
    assert(x64 * b == rr * t + r0);
    // the error going in
    assert(big_d == rr * e + r * v) by (nonlinear_arith)
        requires
            big_d == rr * d + r0,
            d == xh * bh + v1 - hh,
            e == xh * bh - r * h,
            v == r * v1 + v0,
            r0 == r * v0,
            rr == r * r,
            hh == r * h,
    ;
    assert(bh * r <= b < rr) by (nonlinear_arith)
        requires b == bh * r + bl, 0 <= bl <= r - 1, 0 <= bh <= r - 1, rr == r * r;
    assert(hh <= b) by (nonlinear_arith)
        requires bh * r <= b, bh >= h, hh == r * h, r > 0;
    assert(rr * bh == r * (bh * r)) by (nonlinear_arith)
        requires rr == r * r;
    assert(-(9 * (r * b)) <= big_d < 3 * (r * b)) by (nonlinear_arith)
        requires
            big_d == rr * e + r * v,
            -(9 * bh) <= e < bh,
            0 <= v < r * r,
            rr == r * r,
            bh * r <= b,
            r * h <= b,
            r == 2 * h,
            r > 0,
    ;
    let m = 9 * (r * b);
    assert(m < 9 * r * rr) by (nonlinear_arith)
        requires m == 9 * (r * b), b < rr, r > 0;
    assert(0 <= r0 < rr) by (nonlinear_arith)
        requires r0 == r * v0, 0 <= v0 <= r - 1, rr == r * r, r > 0;
    assert(3 * (r * b) < 3 * r * rr) by (nonlinear_arith)
        requires b < rr, r > 0;
    assert(-(9 * r) <= d <= 9 * r) by (nonlinear_arith)
        requires
            big_d == rr * d + r0,
            0 <= r0 < rr,
            -m <= big_d,
            big_d < 3 * r * rr,
            m < 9 * r * rr,
            rr > 0,
            r > 0,
    ;
    assert(xh * bh >= r * h - 9 * bh);
    assert(9 * r <= hh) by (nonlinear_arith)
        requires hh == r * h, h >= 9, r > 0;
    assert(t >= 2) by (nonlinear_arith)
        requires t == hh + d, d >= -(9 * r), hh == r * h, h >= 0x8000_0000, r >= 2;
    assert(corr == hh - d + 1);
    assert(0 < corr < rr);
    // the correction and the product
    let w = xh * corr;
    let s = w % h;
    assert(w >= 0) by (nonlinear_arith)
        requires w == xh * corr, xh >= 0, corr >= 0;
    crate::arith::lemma_div_mod(w, h);
    assert(w == h * xf + s) by (nonlinear_arith)
        requires w == xf * h + s;
    let sp = r * s;
    assert(x64 * corr == hh * xf + sp) by (nonlinear_arith)
        requires x64 == xh * r, xh * corr == h * xf + s, sp == r * s, hh == r * h;
    let xb = x64 * b;
    assert((x64 * corr) * b == xb * hh - xb * d + xb) by (nonlinear_arith)
        requires corr == hh - d + 1, xb == x64 * b;
    assert((hh * xf + sp) * b == hh * (xf * b) + sp * b) by (nonlinear_arith);
    let df = xf * b - rr * hh;
    assert(xb * hh - xb * d + xb == rr * hh * hh + hh * r0 + rr * hh + big_d - d * big_d)
        by (nonlinear_arith)
        requires xb == rr * (hh + d) + r0, big_d == rr * d + r0;
    assert(xb == rr * (hh + d) + r0);
    assert(hh * df == hh * (xf * b) - rr * hh * hh) by (nonlinear_arith)
        requires df == xf * b - rr * hh;
    assert(hh * df == hh * r0 + rr * hh + big_d - d * big_d - sp * b);
    assert(d * big_d >= 0) by (nonlinear_arith)
        requires big_d == rr * d + r0, 0 <= r0 < rr, rr > 0;
    assert(0 <= sp * b <= hh * b) by (nonlinear_arith)
        requires sp == r * s, 0 <= s < h, hh == r * h, b >= 0, r > 0;
    assert(d * big_d <= (9 * r) * m) by (nonlinear_arith)
        requires -(9 * r) <= d <= 9 * r, -m <= big_d <= m, m >= 0;
    assert((9 * r) * m == 162 * (hh * b)) by (nonlinear_arith)
        requires m == 9 * (r * b), hh * 2 == r * r;
    assert(9 * (r * b) <= hh * b) by (nonlinear_arith)
        requires 9 * r <= hh, b >= 0;
    assert(rr * hh <= 2 * (hh * b)) by (nonlinear_arith)
        requires rr <= 2 * b, hh > 0;
    assert(hh * r0 < hh * rr) by (nonlinear_arith)
        requires r0 < rr, hh > 0;
    assert(hh * df < 5 * (hh * b));
    assert(hh * df >= -(164 * (hh * b)));
    assert(df < 5 * b) by (nonlinear_arith)
        requires hh * df < 5 * (hh * b), hh > 0;
    assert(df >= -(164 * b)) by (nonlinear_arith)
        requires hh * df >= -(164 * (hh * b)), hh > 0;
    // the size of the product
    assert(xf + 164 > hh) by {
        if xf + 164 <= hh {
            assert((xf + 164) * b <= hh * b) by (nonlinear_arith)
                requires xf + 164 <= hh, b >= 0;
            assert((xf + 164) * b == xf * b + 164 * b) by (nonlinear_arith);
            assert(hh * b < rr * hh) by (nonlinear_arith)
                requires b < rr, hh > 0;
        }
    }
    assert(xf < rr + 5) by {
        if xf >= rr + 5 {
            assert(xf * b >= (rr + 5) * b) by (nonlinear_arith)
                requires xf >= rr + 5, b >= 0;
            assert((rr + 5) * b == rr * b + 5 * b) by (nonlinear_arith);
            assert(rr * b >= rr * hh) by (nonlinear_arith)
                requires b >= hh, rr > 0;
        }
    }
}

/// The iteration at 64 bits on a 32-bit estimate.
pub proof fn lemma_full_step(xh: int, bh: int, bl: int, t: int, corr: int, xf: int)
    requires
        R32 / 4 - 1 <= xh < R32,
        H32 <= bh < R32,
        0 <= bl < R32,
        -(9 * bh) <= xh * bh - R32 * H32 < bh,
        t == xh * bh + (xh * bl) / (R32 as int),
        corr == R64 - (t - 1),
        xf == (xh * corr) / (H32 as int),
    ensures
        0 < corr < R64,
        R64 / 4 + 3 <= xf <= R64 + 4,
        -(164 * (bh * R32 + bl)) <= xf * (bh * R32 + bl) - R64 * H64 < 5 * (bh * R32 + bl),
{
    lemma_full_step_at(R32 as int, H32 as int, xh, bh, bl, t, corr, xf);
}

/// The reciprocal estimate at 64 bits by three iterations at 32 bits on the
/// upper half of the divisor and one emulated iteration at 64 bits: at most
/// `U64` units of the last place too small, less than two too large.
pub fn reciprocal_64(b: u128) -> (x: u128)
    requires
        H64 <= b < R64,
    ensures
        x == estimate_64(b as int),
        recip_ok_64(x as int, b as int, U64 as int),
{
    let r = R32 as u128;
    // Starting with half-width iterations on the truncated divisor.
    let bh = b / r;
    let bl = b % r;
    let x3 = reciprocal_32(bh as u64) as u128;
    // Account for the estimate having reached one: it is safe to decrement just once.
    let xh = (x3 + r - 1) % r;
    proof {
        assert(xh * bh - R32 * H32 == recip_error(x3 as int, bh as int) - bh) by (nonlinear_arith)
            requires
                xh == (if x3 == 0 { R32 - 1 } else { x3 - 1 }),
                recip_error(x3 as int, bh as int) == (if x3 == 0 {
                    R32 * bh - R32 * H32
                } else {
                    x3 * bh - R32 * H32
                }),
        ;
        assert(8 * bh + bh == 9 * bh);
        assert(xh * bh < R32 * R32) by (nonlinear_arith)
            requires xh < R32, bh < R32;
        assert(xh * bl < R32 * R32) by (nonlinear_arith)
            requires xh < R32, bl < R32;
    }
    //   <--- higher half ---><--- lower half --->
    //   [     xh * bh       ]
    // +            [     xh * bl      ]
    // = [      result       ][.... discarded ...]
    let t = xh * bh + (xh * bl) / r;
    let corr = R64 - (t - 1);
    let ghost xf = (xh * corr) as int / (H32 as int);
    proof {
        assert(U3 * bh == 8 * bh) by (nonlinear_arith)
            requires U3 == 8;
        lemma_full_step(xh as int, bh as int, bl as int, t as int, corr as int, xf);
    }
    let lo_corr = corr % r;
    let hi_corr = corr / r;
    proof {
        assert(xh * hi_corr < R32 * R32) by (nonlinear_arith)
            requires xh < R32, hi_corr < R32;
        assert(xh * lo_corr < R32 * R32) by (nonlinear_arith)
            requires xh < R32, lo_corr < R32;
        let h = H32 as int;
        let q = (xh * lo_corr) as int / h;
        let s = (xh * lo_corr) as int % h;
        assert(xh * corr == h * (2 * (xh * hi_corr) + q) + s) by (nonlinear_arith)
            requires
                corr == hi_corr * (2 * h) + lo_corr,
                xh * lo_corr == h * q + s,
        ;
        crate::arith::lemma_div_mod_unique((xh * corr) as int, h, 2 * (xh * hi_corr) + q, s);
    }
    // x * corr = (xh * 2^32) * (hi_corr * 2^32 + lo_corr), shifted into place
    let prod = 2 * (xh * hi_corr) + (xh * lo_corr) / (H32 as u128);
    // One to account for the highest bit of the correction, one for a
    // possible carry, one for the correction taken too large.
    let x = prod - 3;
    proof {
        let bi = b as int;
        assert(b == bh * R32 + bl);
        assert((prod - 3) * bi == prod * bi - 3 * bi) by (nonlinear_arith);
        assert(164 * bi + 3 * bi <= U64 * bi) by (nonlinear_arith)
            requires bi >= 0, U64 == 218;
        if x >= R64 {
            assert((x - R64) * bi + R64 * bi == x * bi) by (nonlinear_arith);
        }
    }
    x % R64
}

/// `2^128`, as a number.
pub open spec fn r128() -> int {
    R64 * R64
}

/// The error bound of the 128-bit estimate made by refining the 64-bit
/// estimate once at 64 bits and once at 128.
pub const U128: u64 = 167;

/// The 128-bit estimate of `1/b`: the 64-bit estimate of the reciprocal of
/// the upper half of `b`, refined by one iteration at 64 bits, less one, and
/// one iteration at 128 bits on it, with the correction taken one too large
/// and the product decremented by three.
pub open spec fn estimate_128(b: int) -> int {
    let bh = b / (R64 as int);
    let bl = b % (R64 as int);
    let x1 = newton_step_at(R64 as int, H64 as int, estimate_64(bh), bh);
    let xh = (x1 + R64 - 1) % (R64 as int);
    let t = xh * bh + (xh * bl) / (R64 as int);
    let corr = r128() - (t - 1);
    ((xh * corr) / (H64 as int) - 3) % r128()
}

/// One Newton-Raphson iteration at 64 bits.
fn newton_step_64(x: u128, b: u128) -> (r: u128)
    requires
        x < R64,
        H64 <= b < R64,
    ensures
        r == newton_step_at(R64 as int, H64 as int, x as int, b as int),
        r < R64,
{
    assert(x * b < R64 * R64) by (nonlinear_arith)
        requires x < R64, b < R64;
    let p = (x * b) / R64;
    let corr = (R64 - p) % R64;
    assert(x * corr < R64 * R64) by (nonlinear_arith)
        requires x < R64, corr < R64;
    ((x * corr) / H64) % R64
}

/// Refining the 64-bit estimate by one iteration leaves it within two units
/// of the last place.
proof fn lemma_refine_64(x0: int, b: int)
    requires
        H64 <= b < R64,
        recip_ok_64(x0, b, U64 as int),
    ensures
        ({
            let x1 = newton_step_at(R64 as int, H64 as int, x0, b);
            &&& x1 == 0 || R64 / 4 <= x1 < R64
            &&& -(2 * b) <= recip_error_at(R64 as int, H64 as int, x1, b) < 2 * b
        }),
{
    let r = R64 as int;
    let h = H64 as int;
    if x0 >= r / 4 {
        assert(U64 * b == 218 * b) by (nonlinear_arith)
            requires U64 == 218;
        lemma_newton_step_at(r, h, x0, b, 218, 2);
    } else {
        assert(x0 * b == (if x0 == 0 { 0 } else { b })) by (nonlinear_arith)
            requires x0 == 0 || x0 == 1;
        crate::arith::lemma_div_mod_unique(x0 * b, r, 0, x0 * b);
        crate::arith::lemma_div_mod_unique(r, r, 1, 0);
        let corr = (r - (x0 * b) / r) % r;
        assert(x0 * corr == 0) by (nonlinear_arith)
            requires corr == 0;
        crate::arith::lemma_div_mod_unique(0, h, 0, 0);
        crate::arith::lemma_div_mod_unique(0, r, 0, 0);
        assert(2 * b >= 0);
    }
}

/// The reciprocal estimate at 128 bits: the 64-bit estimate of the
/// reciprocal of the upper half of the divisor, one more iteration at 64 bits,
/// and one emulated iteration at 128 bits: at most `U128` units of the last
/// place too small, less than two too large.
pub fn reciprocal_128(b: u128) -> (x: u128)
    requires
        b >= 0x8000_0000_0000_0000_0000_0000_0000_0000,
    ensures
        x == estimate_128(b as int),
        estimate_ok(x as int, b as int, r128(), U128 as int),
{
    let r = R64;
    let bh = b / r;
    let bl = b % r;
    let x0 = reciprocal_64(bh);
    let x1 = newton_step_64(x0, bh);
    proof {
        lemma_refine_64(x0 as int, bh as int);
    }
    // Account for the estimate having reached one: it is safe to decrement just once.
    let xh = (x1 + r - 1) % r;
    proof {
        assert(xh * bh - R64 * H64 == recip_error_at(R64 as int, H64 as int, x1 as int, bh as int)
            - bh) by (nonlinear_arith)
            requires
                xh == (if x1 == 0 { R64 - 1 } else { x1 - 1 }),
                recip_error_at(R64 as int, H64 as int, x1 as int, bh as int) == (if x1 == 0 {
                    R64 * bh - R64 * H64
                } else {
                    x1 * bh - R64 * H64
                }),
        ;
        assert(xh * bh < R64 * R64) by (nonlinear_arith)
            requires xh < R64, bh < R64;
        assert(xh * bl < R64 * R64) by (nonlinear_arith)
            requires xh < R64, bl < R64;
        assert(xh * bh <= (R64 - 1) * (R64 - 1)) by (nonlinear_arith)
            requires 0 <= xh <= R64 - 1, 0 <= bh <= R64 - 1;
    }
    let t = xh * bh + (xh * bl) / r;
    let ghost corr_spec = r128() - (t - 1);
    let ghost xf = (xh * corr_spec) / (H64 as int);
    proof {
        lemma_full_step_at(
            R64 as int,
            H64 as int,
            xh as int,
            bh as int,
            bl as int,
            t as int,
            corr_spec,
            xf,
        );
    }
    // 2^128 - (t - 1)
    let corr = (u128::MAX - t) + 2;
    let lo_corr = corr % r;
    let hi_corr = corr / r;
    proof {
        assert(xh * hi_corr < R64 * R64) by (nonlinear_arith)
            requires xh < R64, hi_corr < R64;
        assert(xh * lo_corr < R64 * R64) by (nonlinear_arith)
            requires xh < R64, lo_corr < R64;
        let h = H64 as int;
        let q = (xh * lo_corr) as int / h;
        let s = (xh * lo_corr) as int % h;
        assert(xh * corr == h * (2 * (xh * hi_corr) + q) + s) by (nonlinear_arith)
            requires
                corr == hi_corr * (2 * h) + lo_corr,
                xh * lo_corr == h * q + s,
        ;
        crate::arith::lemma_div_mod_unique((xh * corr) as int, h, 2 * (xh * hi_corr) + q, s);
        assert(H64 * H64 == 0x4000_0000_0000_0000_0000_0000_0000_0000) by (nonlinear_arith)
            requires H64 == 0x8000_0000_0000_0000;
        assert(q <= 2 * R64) by (nonlinear_arith)
            requires xh * lo_corr == h * q + s, s >= 0, xh * lo_corr < R64 * R64, h * 2 == R64, q >= 0;
    }
    let a = xh * hi_corr;
    let c = (xh * lo_corr) / H64;
    // x * corr = (xh * 2^64) * (hi_corr * 2^64 + lo_corr), shifted into place,
    // less five: that fits the word. One is taken off to account for the
    // highest bit of the correction, one for a possible carry, one for the
    // correction taken too large.
    let z = 2 * (a - 3) + (c + 1);
    let x = if z >= u128::MAX - 1 {
        z - (u128::MAX - 1)
    } else {
        z + 2
    };
    proof {
        let bi = b as int;
        let xr = xf - 3;
        assert(z == xf - 5);
        assert(b == bh * R64 + bl);
        assert((xf - 3) * bi == xf * bi - 3 * bi) by (nonlinear_arith);
        assert(164 * bi + 3 * bi <= U128 * bi) by (nonlinear_arith)
            requires bi >= 0, U128 == 167;
        let rw = r128();
        assert(rw == 0x1_0000_0000_0000_0000_0000_0000_0000_0000) by (nonlinear_arith)
            requires rw == R64 * R64, R64 == 0x1_0000_0000_0000_0000;
        assert(R64 * H64 == 0x8000_0000_0000_0000_0000_0000_0000_0000) by (nonlinear_arith)
            requires R64 == 0x1_0000_0000_0000_0000, H64 == 0x8000_0000_0000_0000;
        assert(rw / 2 == R64 * H64);
        assert((R64 * R64) * (R64 * H64) == rw * (rw / 2)) by (nonlinear_arith)
            requires rw == R64 * R64, rw / 2 == R64 * H64;
        if xr >= r128() {
            assert((xr - r128()) * bi + r128() * bi == xr * bi) by (nonlinear_arith);
            crate::arith::lemma_div_mod_unique(xr, r128(), 1, xr - r128());
        } else {
            crate::arith::lemma_div_mod_unique(xr, r128(), 0, xr);
        }
    }
    x
}

} // verus!
