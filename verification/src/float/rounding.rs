//! Facts about round-to-nearest-even that the arithmetic kernels share.

use vstd::prelude::*;
use vstd::arithmetic::power2::*;
use vstd::arithmetic::mul::lemma_mul_equality_converse;
use crate::arith::{lemma_pow2_le};
use crate::float::model::{
    Format, lemma_emag_increases, lemma_emag_linear, lemma_emag_step, lemma_emag_subnormal,
    lemma_emag_two_steps, lemma_fields, lemma_format_basics,
};

verus! {

/// Rounding depends on the real number only, not on the fraction that names it.
pub proof fn lemma_nearest_even_ratio(
    fmt: Format,
    r: nat,
    num: nat,
    den: nat,
    num2: nat,
    den2: nat,
)
    requires
        den > 0,
        den2 > 0,
        num * den2 == num2 * den,
        fmt.is_nearest_even(r, num2, den2),
    ensures
        fmt.is_nearest_even(r, num, den),
{
    if r > 0 {
        let c = (fmt.emag((r - 1) as nat) + fmt.emag(r)) as int;
        lemma_same_side(c, num as int, den as int, num2 as int, den2 as int);
    }
    if r < fmt.exp_mask() {
        let c = (fmt.emag(r) + fmt.emag(r + 1)) as int;
        lemma_same_side(c, num as int, den as int, num2 as int, den2 as int);
    }
}

proof fn lemma_same_side(c: int, num: int, den: int, num2: int, den2: int)
    requires
        den > 0,
        den2 > 0,
        num * den2 == num2 * den,
    ensures
        c * den < 2 * num <==> c * den2 < 2 * num2,
        c * den == 2 * num <==> c * den2 == 2 * num2,
{
    let x = c * den;
    let y = c * den2;
    assert(x * den2 == y * den) by (nonlinear_arith)
        requires x == c * den, y == c * den2;
    assert(x < 2 * num <==> y < 2 * num2) by (nonlinear_arith)
        requires x * den2 == y * den, num * den2 == num2 * den, den > 0, den2 > 0;
    assert(x == 2 * num <==> y == 2 * num2) by (nonlinear_arith)
        requires x * den2 == y * den, num * den2 == num2 * den, den > 0, den2 > 0;
}

/// Rounding from an estimate that is at most one and a half steps too low:
/// if the real number `num / den` lies at or above the magnitude of the
/// finite pattern `r0` and less than one and a half `ulp`s above it, then
/// it rounds to `r0`, or to `r0 + 1` where it lies more than half an `ulp`
/// above `r0`, or exactly half with `r0` odd.
pub proof fn lemma_round_from_below(fmt: Format, r0: nat, num: nat, den: nat, up: bool)
    requires
        fmt.wf(),
        den > 0,
        r0 < fmt.exp_mask(),
        fmt.emag(r0) * den <= num,
        2 * (num - fmt.emag(r0) * den) < 3 * (fmt.ulp(r0) * den),
        up == (2 * (num - fmt.emag(r0) * den) > fmt.ulp(r0) * den || (2 * (num - fmt.emag(r0)
            * den) == fmt.ulp(r0) * den && r0 % 2 == 1)),
    ensures
        fmt.is_nearest_even(if up { r0 + 1 } else { r0 }, num, den),
{
    let m0 = fmt.emag(r0) as int;
    let u = fmt.ulp(r0) as int;
    let d = den as int;
    let n = num as int;
    lemma_emag_step(fmt, r0);
    lemma_emag_two_steps(fmt, r0);
    let m1 = fmt.emag(r0 + 1) as int;
    let m2 = fmt.emag(r0 + 2) as int;
    assert((m0 + m1) * d == 2 * (m0 * d) + u * d) by (nonlinear_arith)
        requires m1 == m0 + u;
    assert((m1 + m2) * d >= 2 * (m0 * d) + 3 * (u * d)) by (nonlinear_arith)
        requires m1 == m0 + u, m2 >= m0 + 2 * u, d > 0;
    if r0 > 0 {
        lemma_emag_increases(fmt, (r0 - 1) as nat, r0);
        let mp = fmt.emag((r0 - 1) as nat) as int;
        assert((mp + m0) * d < 2 * (m0 * d)) by (nonlinear_arith)
            requires mp < m0, d > 0;
    }
}

/// What the kernels extract from a finite nonzero operand `x`: a significand
/// `sig` with the leading bit at position `sig_bits`, and an exponent `e`
/// counted like the exponent field, but running below one for subnormal
/// values, such that the magnitude of `x` is `sig * 2^(e - 1)`.
pub open spec fn is_operand(fmt: Format, x: nat, sig: nat, e: int) -> bool {
    &&& pow2(fmt.sig_bits) <= sig < 2 * pow2(fmt.sig_bits)
    &&& 1 - fmt.sig_bits <= e < fmt.exp_max()
    &&& if e >= 1 {
        fmt.mag(x) == sig * pow2((e - 1) as nat)
    } else {
        fmt.mag(x) * pow2((1 - e) as nat) == sig
    }
}

/// A normal operand: the significand with its implicit bit, and the exponent field.
pub proof fn lemma_operand_normal(fmt: Format, x: nat)
    requires
        fmt.wf(),
        fmt.valid(x),
        fmt.is_finite(x),
        fmt.exp_field(x) >= 1,
    ensures
        is_operand(fmt, x, pow2(fmt.sig_bits) + fmt.frac(x), fmt.exp_field(x) as int),
{
    lemma_format_basics(fmt);
    lemma_fields(fmt, x);
    lemma_emag_linear(fmt, fmt.exp_field(x), fmt.frac(x));
}

/// A subnormal operand: the fraction shifted up by `sh` places until its
/// leading bit is the implicit bit, and the exponent `1 - sh`.
pub proof fn lemma_operand_subnormal(fmt: Format, x: nat, sh: nat)
    requires
        fmt.wf(),
        fmt.valid(x),
        fmt.exp_field(x) == 0,
        pow2(fmt.sig_bits) <= fmt.frac(x) * pow2(sh) < 2 * pow2(fmt.sig_bits),
    ensures
        is_operand(fmt, x, fmt.frac(x) * pow2(sh), 1 - sh),
        1 <= sh <= fmt.sig_bits,
        fmt.abs(x) == fmt.frac(x),
{
    lemma_format_basics(fmt);
    lemma_fields(fmt, x);
    let f = fmt.frac(x);
    lemma_emag_subnormal(fmt, f);
    assert(0 * pow2(fmt.sig_bits) == 0);
    let ps = pow2(fmt.sig_bits) as int;
    let p = pow2(sh) as int;
    lemma_pow2_pos(sh);
    if sh == 0 {
        crate::arith::lemma_pow2_values();
        assert(f * 1 == f);
    }
    if sh > fmt.sig_bits {
        lemma_pow2_le(fmt.sig_bits + 1, sh);
        lemma_pow2_unfold(fmt.sig_bits + 1);
        assert(f * p >= p) by (nonlinear_arith)
            requires f >= 1, p >= 0;
        assert(f >= 1) by {
            if f == 0 {
                assert(0 * p == 0);
            }
        }
    }
    assert(f >= 1) by {
        if f == 0 {
            assert(0 * p == 0);
        }
    }
}

/// The ratio of two operands' magnitudes, by their significands and
/// exponents: `mag(a) / mag(b) = (sa / sb) * 2^(ea - eb)`, cleared of
/// fractions.
pub proof fn lemma_operand_ratio(
    fmt: Format,
    a: nat,
    sa: nat,
    ea: int,
    b: nat,
    sb: nat,
    eb: int,
    k1: nat,
    k2: nat,
)
    requires
        is_operand(fmt, a, sa, ea),
        is_operand(fmt, b, sb, eb),
        k2 - k1 == ea - eb,
    ensures
        fmt.mag(a) * pow2(k1) * sb == sa * pow2(k2) * fmt.mag(b),
        fmt.mag(a) > 0,
        fmt.mag(b) > 0,
{
    let ua: nat = if ea >= 1 { (ea - 1) as nat } else { 0 };
    let da: nat = if ea >= 1 { 0 } else { (1 - ea) as nat };
    let ub: nat = if eb >= 1 { (eb - 1) as nat } else { 0 };
    let db: nat = if eb >= 1 { 0 } else { (1 - eb) as nat };
    let ma = fmt.mag(a) as int;
    let mb = fmt.mag(b) as int;
    let (pua, pda, pub_, pdb) = (pow2(ua) as int, pow2(da) as int, pow2(ub) as int, pow2(
        db,
    ) as int);
    let pk1 = pow2(k1) as int;
    let pk2 = pow2(k2) as int;
    crate::arith::lemma_pow2_values();
    lemma_pow2_pos(ua);
    lemma_pow2_pos(da);
    lemma_pow2_pos(ub);
    lemma_pow2_pos(db);
    lemma_pow2_pos(fmt.sig_bits);
    assert(ma * pda == sa * pua) by (nonlinear_arith)
        requires
            if ea >= 1 {
                ma == sa * pua && pda == 1
            } else {
                ma * pda == sa && pua == 1
            },
    ;
    assert(mb * pdb == sb * pub_) by (nonlinear_arith)
        requires
            if eb >= 1 {
                mb == sb * pub_ && pdb == 1
            } else {
                mb * pdb == sb && pub_ == 1
            },
    ;
    // 2^(ua + k1 + db) == 2^(k2 + ub + da)
    lemma_pow2_adds(ua, k1);
    lemma_pow2_adds(ua + k1, db);
    lemma_pow2_adds(k2, ub);
    lemma_pow2_adds(k2 + ub, da);
    assert(ua + k1 + db == k2 + ub + da);
    let e1 = pua * pk1 * pdb;
    let e2 = pk2 * pub_ * pda;
    assert(e1 == e2);
    let x = ma * pk1 * sb;
    let y = sa * pk2 * mb;
    let m = pda * pdb;
    assert(m > 0) by (nonlinear_arith)
        requires m == pda * pdb, pda > 0, pdb > 0;
    assert(m * x == (sa * sb) * e1) by (nonlinear_arith)
        requires m == pda * pdb, x == ma * pk1 * sb, ma * pda == sa * pua, e1 == pua * pk1 * pdb;
    assert(m * y == (sa * sb) * e2) by (nonlinear_arith)
        requires m == pda * pdb, y == sa * pk2 * mb, mb * pdb == sb * pub_, e2 == pk2 * pub_ * pda;
    lemma_mul_equality_converse(m, x, y);
    assert(ma > 0) by {
        if ma == 0 {
            assert(0 * pda == 0);
            assert(sa * pua > 0) by (nonlinear_arith)
                requires sa > 0, pua > 0;
        }
    }
    assert(mb > 0) by {
        if mb == 0 {
            assert(0 * pdb == 0);
            assert(sb * pub_ > 0) by (nonlinear_arith)
                requires sb > 0, pub_ > 0;
        }
    }
}

/// The product of two operands' magnitudes, by their significands and
/// exponents: `mag(a) * mag(b) = sa * sb * 2^(ea + eb - 2)`, cleared of
/// fractions.
pub proof fn lemma_operand_product(
    fmt: Format,
    a: nat,
    sa: nat,
    ea: int,
    b: nat,
    sb: nat,
    eb: int,
    k1: nat,
    k2: nat,
)
    requires
        is_operand(fmt, a, sa, ea),
        is_operand(fmt, b, sb, eb),
        k2 - k1 == ea + eb - 2,
    ensures
        fmt.mag(a) * fmt.mag(b) * pow2(k1) == sa * sb * pow2(k2),
{
    let ua: nat = if ea >= 1 { (ea - 1) as nat } else { 0 };
    let da: nat = if ea >= 1 { 0 } else { (1 - ea) as nat };
    let ub: nat = if eb >= 1 { (eb - 1) as nat } else { 0 };
    let db: nat = if eb >= 1 { 0 } else { (1 - eb) as nat };
    let ma = fmt.mag(a) as int;
    let mb = fmt.mag(b) as int;
    let (pua, pda, pub_, pdb) = (pow2(ua) as int, pow2(da) as int, pow2(ub) as int, pow2(
        db,
    ) as int);
    let pk1 = pow2(k1) as int;
    let pk2 = pow2(k2) as int;
    crate::arith::lemma_pow2_values();
    lemma_pow2_pos(da);
    lemma_pow2_pos(db);
    assert(ma * pda == sa * pua) by (nonlinear_arith)
        requires
            if ea >= 1 {
                ma == sa * pua && pda == 1
            } else {
                ma * pda == sa && pua == 1
            },
    ;
    assert(mb * pdb == sb * pub_) by (nonlinear_arith)
        requires
            if eb >= 1 {
                mb == sb * pub_ && pdb == 1
            } else {
                mb * pdb == sb && pub_ == 1
            },
    ;
    // 2^(ua + ub + k1) == 2^(k2 + da + db)
    lemma_pow2_adds(ua, ub);
    lemma_pow2_adds(ua + ub, k1);
    lemma_pow2_adds(k2, da);
    lemma_pow2_adds(k2 + da, db);
    assert(ua + ub + k1 == k2 + da + db);
    let e1 = pua * pub_ * pk1;
    let e2 = pk2 * pda * pdb;
    assert(e1 == e2);
    let x = ma * mb * pk1;
    let y = sa * sb * pk2;
    let m = pda * pdb;
    assert(m > 0) by (nonlinear_arith)
        requires m == pda * pdb, pda > 0, pdb > 0;
    let ta = ma * pda;
    let tb = mb * pdb;
    assert(m * x == (ta * tb) * pk1) by (nonlinear_arith)
        requires m == pda * pdb, x == ma * mb * pk1, ta == ma * pda, tb == mb * pdb;
    assert(ta * tb == (sa * sb) * (pua * pub_)) by (nonlinear_arith)
        requires ta == sa * pua, tb == sb * pub_;
    assert(((sa * sb) * (pua * pub_)) * pk1 == (sa * sb) * e1) by (nonlinear_arith)
        requires e1 == pua * pub_ * pk1;
    assert(m * y == (sa * sb) * e2) by (nonlinear_arith)
        requires m == pda * pdb, y == sa * sb * pk2, e2 == pk2 * pda * pdb;
    lemma_mul_equality_converse(m, x, y);
}

} // verus!
