//! The mathematical model of a binary interchange format.
//!
//! A bit pattern of a format with `bits` bits, of which the low `sig_bits`
//! hold the significand, is a natural number below `2^bits`. Its finite
//! values are all integer multiples of the smallest subnormal, so the model
//! measures magnitudes in that unit: `mag(x)` is the magnitude of `x` counted
//! in smallest subnormals, an exact natural number.

use vstd::prelude::*;
use vstd::arithmetic::power2::*;
use crate::arith::{lemma_pow2_le, lemma_pow2_values, lemma_div_mod, lemma_div_mod_unique, lemma_mod_multiple};

verus! {

/// A binary floating-point format: total width and significand field width.
pub struct Format {
    pub bits: nat,
    pub sig_bits: nat,
}

impl Format {
    /// At least one significand bit, between three and sixteen exponent bits,
    /// at most 128 bits in all, and an exponent range that reaches past the
    /// significand: every value with the largest finite exponent is a whole
    /// number.
    pub open spec fn wf(self) -> bool {
        &&& 1 <= self.sig_bits
        &&& self.sig_bits + 4 <= self.bits
        &&& self.bits <= self.sig_bits + 17
        &&& self.bits <= 128
        &&& self.sig_bits <= self.bias()
    }

    pub open spec fn exp_bits(self) -> nat {
        (self.bits - self.sig_bits - 1) as nat
    }

    /// The exponent field with all bits set, marking infinities and NaNs.
    pub open spec fn exp_max(self) -> nat {
        (pow2(self.exp_bits()) - 1) as nat
    }

    pub open spec fn bias(self) -> nat {
        (pow2((self.exp_bits() - 1) as nat) - 1) as nat
    }

    pub open spec fn sign_mask(self) -> nat {
        pow2((self.bits - 1) as nat)
    }

    pub open spec fn implicit_bit(self) -> nat {
        pow2(self.sig_bits)
    }

    pub open spec fn sig_mask(self) -> nat {
        (pow2(self.sig_bits) - 1) as nat
    }

    /// The pattern of positive infinity.
    pub open spec fn exp_mask(self) -> nat {
        self.exp_max() * pow2(self.sig_bits)
    }

    /// The pattern of the canonical quiet NaN.
    pub open spec fn qnan(self) -> nat {
        self.exp_mask() + pow2((self.sig_bits - 1) as nat)
    }

    /// The pattern `x` with the quiet bit, the top bit of the fraction, set.
    pub open spec fn quiet(self, x: nat) -> nat {
        if (x / pow2((self.sig_bits - 1) as nat)) % 2 == 1 {
            x
        } else {
            x + pow2((self.sig_bits - 1) as nat)
        }
    }

    /// The pattern of `1.0`.
    pub open spec fn one(self) -> nat {
        self.bias() * pow2(self.sig_bits)
    }

    pub open spec fn valid(self, x: nat) -> bool {
        x < pow2(self.bits)
    }

    pub open spec fn sign(self, x: nat) -> bool {
        x >= self.sign_mask()
    }

    /// The pattern with the sign bit cleared.
    pub open spec fn abs(self, x: nat) -> nat {
        if x >= self.sign_mask() {
            (x - self.sign_mask()) as nat
        } else {
            x
        }
    }

    /// The pattern of magnitude `a` with the given sign.
    pub open spec fn with_sign(self, neg: bool, a: nat) -> nat {
        if neg {
            a + self.sign_mask()
        } else {
            a
        }
    }

    pub open spec fn exp_field(self, x: nat) -> nat {
        self.abs(x) / pow2(self.sig_bits)
    }

    pub open spec fn frac(self, x: nat) -> nat {
        self.abs(x) % pow2(self.sig_bits)
    }

    pub open spec fn is_nan(self, x: nat) -> bool {
        self.abs(x) > self.exp_mask()
    }

    pub open spec fn is_inf(self, x: nat) -> bool {
        self.abs(x) == self.exp_mask()
    }

    pub open spec fn is_finite(self, x: nat) -> bool {
        self.abs(x) < self.exp_mask()
    }

    pub open spec fn is_zero(self, x: nat) -> bool {
        self.abs(x) == 0
    }

    /// The magnitude that the sign-less pattern `a` stands for, counted in
    /// smallest subnormals. Defined on infinity's pattern too, where it is the
    /// power of two that follows the largest finite magnitude.
    pub open spec fn emag(self, a: nat) -> nat {
        let e = a / pow2(self.sig_bits);
        let f = a % pow2(self.sig_bits);
        if e == 0 {
            f
        } else {
            (pow2(self.sig_bits) + f) * pow2((e - 1) as nat)
        }
    }

    /// The gap between the magnitudes of `a` and `a + 1`.
    pub open spec fn ulp(self, a: nat) -> nat {
        let e = a / pow2(self.sig_bits);
        if e == 0 {
            1
        } else {
            pow2((e - 1) as nat)
        }
    }

    /// The magnitude of the value of `x`, in smallest subnormals.
    pub open spec fn mag(self, x: nat) -> nat {
        self.emag(self.abs(x))
    }

    /// The value of `x` as a signed count of smallest subnormals.
    pub open spec fn signed_mag(self, x: nat) -> int {
        if self.sign(x) {
            -(self.mag(x) as int)
        } else {
            self.mag(x) as int
        }
    }

    /// The magnitude of `1.0`, in smallest subnormals.
    pub open spec fn unit(self) -> nat {
        pow2((self.bias() + self.sig_bits - 1) as nat)
    }

    /// The value of `x` is a whole number.
    pub open spec fn is_integral(self, x: nat) -> bool {
        self.mag(x) % self.unit() == 0
    }

    /// `r` is the sign-less pattern to which round-to-nearest, ties-to-even
    /// takes the real number `num / den` smallest subnormals: no pattern's
    /// magnitude is nearer, of two equally near ones `r` is the even one, and
    /// infinity's pattern stands for the power of two above the finite range.
    pub open spec fn is_nearest_even(self, r: nat, num: nat, den: nat) -> bool {
        &&& r <= self.exp_mask()
        &&& r > 0 ==> {
            let mid2 = (self.emag((r - 1) as nat) + self.emag(r)) * den;
            mid2 < 2 * num || (mid2 == 2 * num && r % 2 == 0)
        }
        &&& r < self.exp_mask() ==> {
            let mid2 = (self.emag(r) + self.emag(r + 1)) * den;
            2 * num < mid2 || (mid2 == 2 * num && r % 2 == 0)
        }
    }
}

/// The basic size relations among a format's masks.
pub proof fn lemma_format_basics(fmt: Format)
    requires
        fmt.wf(),
    ensures
        3 <= fmt.exp_bits() <= 16,
        fmt.exp_max() < 0x1_0000,
        fmt.exp_bits() + fmt.sig_bits + 1 == fmt.bits,
        fmt.exp_max() >= 7,
        fmt.bias() >= 3,
        fmt.exp_max() == 2 * fmt.bias() + 1,
        fmt.implicit_bit() >= 2,
        fmt.sig_mask() + 1 == fmt.implicit_bit(),
        fmt.exp_mask() + fmt.implicit_bit() == fmt.sign_mask(),
        fmt.sign_mask() * 2 == pow2(fmt.bits),
        pow2(fmt.bits) <= pow2(128),
        fmt.one() < fmt.exp_mask(),
        fmt.qnan() < fmt.sign_mask(),
        fmt.one() % pow2(fmt.sig_bits) == 0,
        fmt.exp_mask() % pow2(fmt.sig_bits) == 0,
        fmt.exp_mask() % 2 == 0,
{
    let e = fmt.exp_bits();
    let s = fmt.sig_bits;
    lemma_pow2_values();
    lemma_pow2_le(3, e);
    lemma_pow2_le(e, 16);
    lemma_pow2_le(2, (e - 1) as nat);
    lemma_pow2_unfold(e);
    lemma_pow2_le(1, s);
    lemma_pow2_unfold(s);
    lemma_pow2_le(fmt.bits, 128);
    lemma_pow2_unfold(fmt.bits);
    lemma_pow2_adds(e, s);
    let pe = pow2(e) as int;
    let ps = pow2(s) as int;
    let ph = pow2((s - 1) as nat) as int;
    let pb = pow2((e - 1) as nat) as int;
    assert((pe - 1) * ps + ps == pe * ps) by (nonlinear_arith);
    assert((pb - 1) * ps < (pe - 1) * ps) by (nonlinear_arith)
        requires pb - 1 < pe - 1, ps > 0;
    lemma_mod_multiple(fmt.bias() as int, ps);
    lemma_mod_multiple(fmt.exp_max() as int, ps);
    assert(fmt.exp_mask() == (fmt.exp_max() * ph) * 2) by (nonlinear_arith)
        requires fmt.exp_mask() == fmt.exp_max() * ps, ps == 2 * ph;
    lemma_mod_multiple((fmt.exp_max() * ph) as int, 2);
}

/// A valid pattern is its sign bit plus its sign-less part, and the
/// sign-less part is its exponent field times `2^sig_bits` plus its fraction.
pub proof fn lemma_fields(fmt: Format, x: nat)
    requires
        fmt.wf(),
        fmt.valid(x),
    ensures
        fmt.abs(x) < fmt.sign_mask(),
        x == fmt.with_sign(fmt.sign(x), fmt.abs(x)),
        fmt.abs(x) == fmt.exp_field(x) * pow2(fmt.sig_bits) + fmt.frac(x),
        fmt.frac(x) < pow2(fmt.sig_bits),
        fmt.exp_field(x) <= fmt.exp_max(),
        fmt.is_finite(x) <==> fmt.exp_field(x) < fmt.exp_max(),
        fmt.is_inf(x) <==> (fmt.exp_field(x) == fmt.exp_max() && fmt.frac(x) == 0),
{
    lemma_format_basics(fmt);
    let ps = pow2(fmt.sig_bits) as int;
    let a = fmt.abs(x) as int;
    lemma_div_mod(a, ps);
    let e = a / ps;
    let f = a % ps;
    let m = fmt.exp_max() as int;
    assert((m + 1) * ps == m * ps + ps) by (nonlinear_arith);
    assert(e <= m) by (nonlinear_arith)
        requires a == e * ps + f, 0 <= f, a < (m + 1) * ps, ps > 0;
    assert(e < m <==> a < m * ps) by (nonlinear_arith)
        requires a == e * ps + f, 0 <= f < ps, ps > 0;
    assert((e == m && f == 0) <==> a == m * ps) by (nonlinear_arith)
        requires a == e * ps + f, 0 <= f < ps, ps > 0;
}

/// The exponent field and the sign bit, read off the whole pattern.
pub proof fn lemma_field_bits(fmt: Format, x: nat)
    requires
        fmt.wf(),
        fmt.valid(x),
    ensures
        fmt.exp_field(x) == (x / pow2(fmt.sig_bits)) % pow2(fmt.exp_bits()),
        fmt.frac(x) == x % pow2(fmt.sig_bits),
        fmt.abs(x) == x % pow2((fmt.bits - 1) as nat),
        fmt.sign(x) <==> x / pow2((fmt.bits - 1) as nat) == 1,
        !fmt.sign(x) <==> x / pow2((fmt.bits - 1) as nat) == 0,
{
    lemma_format_basics(fmt);
    lemma_fields(fmt, x);
    let ps = pow2(fmt.sig_bits) as int;
    let pe = pow2(fmt.exp_bits()) as int;
    let sm = fmt.sign_mask() as int;
    let a = fmt.abs(x) as int;
    let e = fmt.exp_field(x) as int;
    let f = fmt.frac(x) as int;
    let sg: int = if fmt.sign(x) { 1 } else { 0 };
    lemma_pow2_adds(fmt.exp_bits(), fmt.sig_bits);
    assert(sm == pe * ps);
    assert(x == sg * sm + a) by (nonlinear_arith)
        requires x == (if sg == 1 { a + sm } else { a }), sg == 0 || sg == 1;
    lemma_div_mod_unique(x as int, sm, sg, a);
    assert(x == (sg * pe + e) * ps + f) by (nonlinear_arith)
        requires x == sg * sm + a, sm == pe * ps, a == e * ps + f;
    lemma_div_mod_unique(x as int, ps, sg * pe + e, f);
    lemma_pow2_pos(fmt.exp_bits());
    assert(fmt.exp_max() == pe - 1);
    assert(e <= fmt.exp_max());
    lemma_div_mod_unique(sg * pe + e, pe, sg, e);
}

/// Setting the sign of a sign-less pattern gives a valid pattern with that
/// sign and that sign-less part.
pub proof fn lemma_with_sign(fmt: Format, neg: bool, a: nat)
    requires
        fmt.wf(),
        a < fmt.sign_mask(),
    ensures
        fmt.valid(fmt.with_sign(neg, a)),
        fmt.abs(fmt.with_sign(neg, a)) == a,
        fmt.sign(fmt.with_sign(neg, a)) == neg,
{
    lemma_format_basics(fmt);
}

/// The patterns below the implicit bit are those with exponent field zero,
/// and they are their own fraction.
pub proof fn lemma_subnormal_pattern(fmt: Format, x: nat)
    requires
        fmt.wf(),
        fmt.valid(x),
    ensures
        fmt.abs(x) < pow2(fmt.sig_bits) <==> fmt.exp_field(x) == 0,
        fmt.exp_field(x) == 0 ==> fmt.frac(x) == fmt.abs(x),
{
    lemma_fields(fmt, x);
    let ps = pow2(fmt.sig_bits) as int;
    let e = fmt.exp_field(x) as int;
    let f = fmt.frac(x) as int;
    lemma_pow2_pos(fmt.sig_bits);
    assert(e * ps + f < ps <==> e == 0) by (nonlinear_arith)
        requires 0 <= f < ps, e >= 0;
    if e == 0 {
        assert(e * ps == 0) by (nonlinear_arith)
            requires e == 0;
    }
}

/// Setting the quiet bit keeps a pattern valid.
pub proof fn lemma_quiet_valid(fmt: Format, x: nat)
    requires
        fmt.wf(),
        fmt.valid(x),
    ensures
        fmt.valid(fmt.quiet(x)),
{
    lemma_format_basics(fmt);
    let k = (fmt.sig_bits - 1) as nat;
    let pk = pow2(k) as int;
    lemma_pow2_pos(k);
    crate::arith::lemma_pow2_split(fmt.bits, k);
    let t = pow2((fmt.bits - k) as nat) as int;
    lemma_pow2_unfold((fmt.bits - k) as nat);
    lemma_div_mod(x as int, pk);
    let q = x as int / pk;
    assert(q < t) by (nonlinear_arith)
        requires x == q * pk + x as int % pk, 0 <= x as int % pk, x < pk * t, pk > 0;
    if q % 2 == 0 {
        assert((q + 2) * pk <= t * pk) by (nonlinear_arith)
            requires q + 2 <= t, pk > 0;
        assert((q + 2) * pk == q * pk + pk + pk) by (nonlinear_arith);
    }
}

/// The pattern `e * 2^sig_bits + f` has exponent field `e` and fraction `f`.
pub proof fn lemma_compose(fmt: Format, e: nat, f: nat)
    requires
        fmt.wf(),
        f < pow2(fmt.sig_bits),
    ensures
        (e * pow2(fmt.sig_bits) + f) / pow2(fmt.sig_bits) == e,
        (e * pow2(fmt.sig_bits) + f) % pow2(fmt.sig_bits) == f,
{
    lemma_pow2_pos(fmt.sig_bits);
    lemma_div_mod_unique(
        (e * pow2(fmt.sig_bits) + f) as int,
        pow2(fmt.sig_bits) as int,
        e as int,
        f as int,
    );
}

/// The magnitude of the next pattern is one `ulp` further.
pub proof fn lemma_emag_step(fmt: Format, a: nat)
    requires
        fmt.wf(),
    ensures
        fmt.emag(a + 1) == fmt.emag(a) + fmt.ulp(a),
        fmt.ulp(a) >= 1,
        fmt.ulp(a + 1) >= fmt.ulp(a),
{
    let s = fmt.sig_bits;
    let ps = pow2(s) as int;
    lemma_pow2_pos(s);
    lemma_div_mod(a as int, ps);
    let e = (a / pow2(s)) as nat;
    let f = (a % pow2(s)) as nat;
    if e > 0 {
        lemma_pow2_pos((e - 1) as nat);
    }
    if f + 1 < ps {
        lemma_compose(fmt, e, f + 1);
        assert(a + 1 == e * pow2(s) + (f + 1));
        if e > 0 {
            let pe = pow2((e - 1) as nat) as int;
            assert((ps + (f + 1)) * pe == (ps + f) * pe + pe) by (nonlinear_arith);
        }
    } else {
        lemma_compose(fmt, e + 1, 0);
        assert(a + 1 == (e + 1) * pow2(s) + 0) by (nonlinear_arith)
            requires a == e * ps + f, f + 1 == ps, ps == pow2(s);
        if e > 0 {
            let pe = pow2((e - 1) as nat) as int;
            lemma_pow2_unfold(e);
            assert((ps + 0) * (2 * pe) == (ps + f) * pe + pe) by (nonlinear_arith)
                requires f + 1 == ps;
        } else {
            lemma_pow2_values();
            assert((ps + 0) * 1 == f + 1);
        }
    }
}

/// Within and at the end of a binade, the magnitude is linear in the
/// fraction: for an exponent field `e >= 1` and `g <= 2^sig_bits`, the
/// pattern `e * 2^sig_bits + g` has magnitude `(2^sig_bits + g) * 2^(e-1)`.
pub proof fn lemma_emag_linear(fmt: Format, e: nat, g: nat)
    requires
        fmt.wf(),
        e >= 1,
        g <= pow2(fmt.sig_bits),
    ensures
        fmt.emag(e * pow2(fmt.sig_bits) + g) == (pow2(fmt.sig_bits) + g) * pow2((e - 1) as nat),
{
    let ps = pow2(fmt.sig_bits);
    lemma_pow2_pos(fmt.sig_bits);
    if g < ps {
        lemma_compose(fmt, e, g);
    } else {
        lemma_compose(fmt, e + 1, 0);
        assert(e * ps + g == (e + 1) * ps + 0) by (nonlinear_arith)
            requires g == ps;
        lemma_pow2_unfold(e);
        let pe = pow2((e - 1) as nat);
        assert((ps + 0) * (2 * pe) == (ps + g) * pe) by (nonlinear_arith)
            requires g == ps;
    }
}

/// Subnormal patterns are their own magnitude.
pub proof fn lemma_emag_subnormal(fmt: Format, g: nat)
    requires
        fmt.wf(),
        g <= pow2(fmt.sig_bits),
    ensures
        fmt.emag(g) == g,
{
    lemma_pow2_pos(fmt.sig_bits);
    lemma_pow2_values();
    if g < pow2(fmt.sig_bits) {
        lemma_compose(fmt, 0, g);
    } else {
        lemma_compose(fmt, 1, 0);
        assert(1 * pow2(fmt.sig_bits) + 0 == g) by (nonlinear_arith)
            requires g == pow2(fmt.sig_bits);
        assert((pow2(fmt.sig_bits) + 0) * 1 == g) by (nonlinear_arith)
            requires g == pow2(fmt.sig_bits);
    }
}

/// Larger sign-less patterns stand for larger magnitudes.
pub proof fn lemma_emag_increases(fmt: Format, a: nat, b: nat)
    requires
        fmt.wf(),
        a < b,
    ensures
        fmt.emag(a) < fmt.emag(b),
    decreases b - a,
{
    lemma_emag_step(fmt, a);
    if a + 1 < b {
        lemma_emag_increases(fmt, a + 1, b);
    }
}

/// A finite value is its sign and its magnitude: two valid patterns with the
/// same sign and the same magnitude are the same pattern.
pub proof fn lemma_sign_mag_unique(fmt: Format, x: nat, y: nat)
    requires
        fmt.wf(),
        fmt.valid(x),
        fmt.valid(y),
        fmt.sign(x) == fmt.sign(y),
        fmt.mag(x) == fmt.mag(y),
    ensures
        x == y,
{
    lemma_fields(fmt, x);
    lemma_fields(fmt, y);
    if fmt.abs(x) < fmt.abs(y) {
        lemma_emag_increases(fmt, fmt.abs(x), fmt.abs(y));
    } else if fmt.abs(y) < fmt.abs(x) {
        lemma_emag_increases(fmt, fmt.abs(y), fmt.abs(x));
    }
}

/// Two patterns further on, the magnitude has grown by at least two `ulp`s.
pub proof fn lemma_emag_two_steps(fmt: Format, a: nat)
    requires
        fmt.wf(),
    ensures
        fmt.emag(a + 2) >= fmt.emag(a) + 2 * fmt.ulp(a),
{
    lemma_emag_step(fmt, a);
    lemma_emag_step(fmt, a + 1);
}

proof fn lemma_emag_half(fmt: Format)
    requires
        fmt.wf(),
    ensures
        fmt.one() >= pow2(fmt.sig_bits),
        2 * fmt.emag((fmt.one() - pow2(fmt.sig_bits)) as nat) == fmt.unit(),
{
    lemma_format_basics(fmt);
    let s = fmt.sig_bits;
    let ps = pow2(s) as int;
    let b = fmt.bias() as int;
    lemma_pow2_pos(s);
    assert(b * ps - ps == (b - 1) * ps) by (nonlinear_arith);
    assert((b - 1) * ps >= 0) by (nonlinear_arith)
        requires b >= 1, ps > 0;
    lemma_emag_linear(fmt, (b - 1) as nat, 0);
    lemma_pow2_adds(s, (b - 2) as nat);
    lemma_pow2_unfold((b + s - 1) as nat);
}

/// Zero has magnitude zero, `1.0` has magnitude `unit`, and the magnitude of
/// a pattern with exponent field `e >= 1` and fraction `f` is
/// `(2^sig_bits + f) * 2^(e-1)`.
pub proof fn lemma_emag_values(fmt: Format)
    requires
        fmt.wf(),
    ensures
        fmt.emag(0) == 0,
        fmt.emag(fmt.one()) == fmt.unit(),
        fmt.unit() >= 2,
        fmt.one() >= pow2(fmt.sig_bits),
        2 * fmt.emag((fmt.one() - pow2(fmt.sig_bits)) as nat) == fmt.unit(),
{
    lemma_emag_half(fmt);
    lemma_format_basics(fmt);
    let s = fmt.sig_bits;
    lemma_pow2_pos(s);
    lemma_compose(fmt, 0, 0);
    lemma_compose(fmt, fmt.bias(), 0);
    lemma_pow2_adds(s, (fmt.bias() - 1) as nat);
    lemma_pow2_le(1, (fmt.bias() + s - 1) as nat);
    lemma_pow2_values();
}

/// At most one pattern is the round-to-nearest-even image of a given real.
pub proof fn lemma_nearest_even_unique(fmt: Format, r1: nat, r2: nat, num: nat, den: nat)
    requires
        fmt.wf(),
        den > 0,
        fmt.is_nearest_even(r1, num, den),
        fmt.is_nearest_even(r2, num, den),
    ensures
        r1 == r2,
{
    lemma_nearest_even_order(fmt, r1, r2, num, den);
    lemma_nearest_even_order(fmt, r2, r1, num, den);
}

proof fn lemma_nearest_even_order(fmt: Format, r1: nat, r2: nat, num: nat, den: nat)
    requires
        fmt.wf(),
        den > 0,
        fmt.is_nearest_even(r1, num, den),
        fmt.is_nearest_even(r2, num, den),
    ensures
        r2 <= r1,
{
    if r1 < r2 {
        let a0 = fmt.emag(r1) as int;
        let a1 = fmt.emag(r1 + 1) as int;
        let b0 = fmt.emag((r2 - 1) as nat) as int;
        let b1 = fmt.emag(r2) as int;
        let d = den as int;
        lemma_emag_step(fmt, r1);
        if r1 + 1 < r2 {
            lemma_emag_increases(fmt, r1 + 1, r2);
            lemma_emag_increases(fmt, r1, (r2 - 1) as nat);
            assert((a0 + a1) * d < (b0 + b1) * d) by (nonlinear_arith)
                requires a0 + a1 < b0 + b1, d > 0;
        } else {
            assert(r1 % 2 == 0 ==> r2 % 2 != 0);
        }
    }
}

} // verus!
