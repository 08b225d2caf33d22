//! What it means to round a float to a whole number, and the facts about
//! bit patterns that the rounding routines rest on.

use vstd::prelude::*;
use vstd::arithmetic::power2::*;
use crate::arith::{lemma_div_mod, lemma_div_mod_scale, lemma_div_mod_unique, lemma_pow2_le, lemma_pow2_split, lemma_mod_multiple};
use crate::float::{format_of, Float};
use crate::float::model::{
    Format, lemma_emag_increases, lemma_emag_linear, lemma_emag_values, lemma_fields,
    lemma_format_basics, lemma_with_sign,
};
use crate::support::env::Status;

verus! {

/// The largest multiple of `u` that is at most `n`.
pub open spec fn round_down(n: nat, u: nat) -> nat {
    (n / u) * u
}

/// The least multiple of `u` that is at least `n`.
pub open spec fn round_up(n: nat, u: nat) -> nat {
    if n % u == 0 {
        n
    } else {
        (n / u + 1) * u
    }
}

/// The multiple of `u` nearest to `n`; halfway, the larger one.
pub open spec fn round_half_away(n: nat, u: nat) -> nat {
    if 2 * (n % u) >= u {
        (n / u + 1) * u
    } else {
        (n / u) * u
    }
}

/// The multiple of `u` nearest to `n`; halfway, the even multiple.
pub open spec fn round_half_even(n: nat, u: nat) -> nat {
    if 2 * (n % u) > u || (2 * (n % u) == u && (n / u) % 2 == 1) {
        (n / u + 1) * u
    } else {
        (n / u) * u
    }
}

/// What a rounding routine owes of its value: a finite `x` goes to the
/// finite value of the same sign whose magnitude is `target`; an infinity or
/// NaN is handed back as it is.
pub open spec fn rounds_to_value(fmt: Format, x: nat, r: nat, target: nat) -> bool {
    if fmt.is_finite(x) {
        &&& fmt.valid(r)
        &&& fmt.is_finite(r)
        &&& fmt.sign(r) == fmt.sign(x)
        &&& fmt.mag(r) == target
    } else {
        r == x
    }
}

/// The status of rounding `x` to a whole number: inexact exactly when `x` is
/// finite and not whole.
pub open spec fn rounding_status(fmt: Format, x: nat) -> Status {
    if fmt.is_finite(x) && !fmt.is_integral(x) {
        Status::INEXACT
    } else {
        Status::OK
    }
}

/// What a rounding routine owes of its value and its status.
pub open spec fn rounds_to(fmt: Format, x: nat, r: nat, status: Status, target: nat) -> bool {
    &&& rounds_to_value(fmt, x, r, target)
    &&& status == rounding_status(fmt, x)
}

/// The magnitude of `x` rounded toward positive infinity.
pub open spec fn ceil_mag(fmt: Format, x: nat) -> nat {
    if fmt.sign(x) {
        round_down(fmt.mag(x), fmt.unit())
    } else {
        round_up(fmt.mag(x), fmt.unit())
    }
}

/// The magnitude of `x` rounded toward negative infinity.
pub open spec fn floor_mag(fmt: Format, x: nat) -> nat {
    if fmt.sign(x) {
        round_up(fmt.mag(x), fmt.unit())
    } else {
        round_down(fmt.mag(x), fmt.unit())
    }
}

/// The magnitude of `x` rounded toward zero.
pub open spec fn trunc_mag(fmt: Format, x: nat) -> nat {
    round_down(fmt.mag(x), fmt.unit())
}

/// The magnitude of `x` rounded to the nearest whole number, ties away from zero.
pub open spec fn round_mag(fmt: Format, x: nat) -> nat {
    round_half_away(fmt.mag(x), fmt.unit())
}

/// The magnitude of `x` rounded to the nearest whole number, ties to even.
pub open spec fn roundeven_mag(fmt: Format, x: nat) -> nat {
    round_half_even(fmt.mag(x), fmt.unit())
}

/// Every rounding is rounding down, plus one unit where the rule asks for it.
pub proof fn lemma_round_forms(n: nat, u: nat)
    requires
        u > 0,
    ensures
        round_down(n, u) + n % u == n,
        round_up(n, u) == round_down(n, u) + (if n % u == 0 { 0 } else { u }),
        round_half_away(n, u) == round_down(n, u) + (if 2 * (n % u) >= u { u } else { 0 }),
        round_half_even(n, u) == round_down(n, u) + (if 2 * (n % u) > u || (2 * (n % u) == u && (n
            / u) % 2 == 1) { u } else { 0 }),
        n < u ==> round_down(n, u) == 0,
{
    lemma_div_mod(n as int, u as int);
    let q = (n / u) as int;
    let ui = u as int;
    assert((q + 1) * ui == q * ui + ui) by (nonlinear_arith);
    if n < u {
        lemma_div_mod_unique(n as int, ui, 0, n as int);
        assert(0 * ui == 0);
    }
}

/// Rounding down and rounding up bracket the value: for every finite `x`,
/// `floor(x) <= x <= ceil(x)`, and either bound is met exactly when the
/// status of the rounding is `OK`, that is when `x` is a whole number.
pub proof fn lemma_floor_ceil_bracket(fmt: Format, x: nat, lo: nat, hi: nat)
    requires
        fmt.wf(),
        fmt.valid(x),
        fmt.is_finite(x),
        rounds_to_value(fmt, x, lo, floor_mag(fmt, x)),
        rounds_to_value(fmt, x, hi, ceil_mag(fmt, x)),
    ensures
        fmt.signed_mag(lo) <= fmt.signed_mag(x) <= fmt.signed_mag(hi),
        fmt.signed_mag(lo) == fmt.signed_mag(x) <==> rounding_status(fmt, x) == Status::OK,
        fmt.signed_mag(hi) == fmt.signed_mag(x) <==> rounding_status(fmt, x) == Status::OK,
{
    lemma_emag_values(fmt);
    lemma_round_forms(fmt.mag(x), fmt.unit());
    lemma_div_mod(fmt.mag(x) as int, fmt.unit() as int);
}

/// A whole number is its own truncation: rounding toward zero leaves every
/// value without a fractional part as it is, with status `OK`.
pub proof fn lemma_trunc_of_integral(fmt: Format, x: nat, r: nat, status: Status)
    requires
        fmt.wf(),
        fmt.valid(x),
        fmt.is_finite(x),
        fmt.is_integral(x),
        rounds_to(fmt, x, r, status, trunc_mag(fmt, x)),
    ensures
        r == x,
        status == Status::OK,
{
    lemma_emag_values(fmt);
    lemma_round_forms(fmt.mag(x), fmt.unit());
    lemma_fields(fmt, x);
    lemma_fields(fmt, r);
    if fmt.abs(r) < fmt.abs(x) {
        lemma_emag_increases(fmt, fmt.abs(r), fmt.abs(x));
    } else if fmt.abs(r) > fmt.abs(x) {
        lemma_emag_increases(fmt, fmt.abs(x), fmt.abs(r));
    }
}

/// Rounding commutes with a change of unit.
pub proof fn lemma_round_scale(n: nat, u: nat, p: nat)
    requires
        u > 0,
        p > 0,
    ensures
        round_down(n * p, u * p) == round_down(n, u) * p,
        round_up(n * p, u * p) == round_up(n, u) * p,
        round_half_away(n * p, u * p) == round_half_away(n, u) * p,
        round_half_even(n * p, u * p) == round_half_even(n, u) * p,
        (n * p) % (u * p) == 0 <==> n % u == 0,
{
    lemma_div_mod_scale(n as int, u as int, p as int);
    lemma_div_mod(n as int, u as int);
    let q = (n / u) as int;
    let r = (n % u) as int;
    let ui = u as int;
    let pi = p as int;
    assert(q * (ui * pi) == (q * ui) * pi) by (nonlinear_arith);
    assert((q + 1) * (ui * pi) == ((q + 1) * ui) * pi) by (nonlinear_arith);
    assert(r * pi == 0 <==> r == 0) by (nonlinear_arith)
        requires pi > 0, r >= 0;
    assert(2 * (r * pi) >= ui * pi <==> 2 * r >= ui) by (nonlinear_arith)
        requires pi > 0;
    assert(2 * (r * pi) > ui * pi <==> 2 * r > ui) by (nonlinear_arith)
        requires pi > 0;
    assert(2 * (r * pi) == ui * pi <==> 2 * r == ui) by (nonlinear_arith)
        requires pi > 0;
}

/// The significand mask shifted right by `e` selects the low `sig_bits - e` bits.
pub proof fn lemma_fraction_mask(fmt: Format, e: nat)
    requires
        fmt.wf(),
        e < fmt.sig_bits,
    ensures
        fmt.sig_mask() / pow2(e) == pow2((fmt.sig_bits - e) as nat) - 1,
        pow2((fmt.sig_bits - e) as nat) >= 2,
        pow2((fmt.sig_bits - e) as nat) <= pow2(fmt.sig_bits),
        pow2((fmt.sig_bits - e) as nat) == 2 * pow2((fmt.sig_bits - e - 1) as nat),
{
    lemma_pow2_split(fmt.sig_bits, e);
    lemma_pow2_pos(fmt.sig_bits);
    let k = (fmt.sig_bits - e) as nat;
    let pe = pow2(e) as int;
    let pk = pow2(k) as int;
    assert(fmt.sig_mask() == (pk - 1) * pe + (pe - 1)) by (nonlinear_arith)
        requires fmt.sig_mask() == pe * pk - 1;
    lemma_div_mod_unique(fmt.sig_mask() as int, pe, pk - 1, pe - 1);
    lemma_pow2_le(1, k);
    lemma_pow2_le(k, fmt.sig_bits);
    lemma_pow2_unfold(k);
    crate::arith::lemma_pow2_values();
}

/// A finite value whose exponent is below zero has magnitude below one.
pub proof fn lemma_below_one(fmt: Format, x: nat)
    requires
        fmt.wf(),
        fmt.valid(x),
        fmt.exp_field(x) < fmt.bias(),
    ensures
        fmt.is_finite(x),
        fmt.mag(x) < fmt.unit(),
        fmt.abs(x) < fmt.one(),
        fmt.mag(x) == 0 <==> fmt.abs(x) == 0,
        fmt.mag(x) / fmt.unit() == 0,
        fmt.mag(x) % fmt.unit() == fmt.mag(x),
        2 * fmt.mag(x) >= fmt.unit() <==> fmt.abs(x) >= fmt.one() - pow2(fmt.sig_bits),
        2 * fmt.mag(x) > fmt.unit() <==> fmt.abs(x) > fmt.one() - pow2(fmt.sig_bits),
{
    lemma_format_basics(fmt);
    lemma_fields(fmt, x);
    lemma_emag_values(fmt);
    let ps = pow2(fmt.sig_bits) as int;
    let e = fmt.exp_field(x) as int;
    let b = fmt.bias() as int;
    assert(fmt.abs(x) < b * ps) by (nonlinear_arith)
        requires fmt.abs(x) == e * ps + fmt.frac(x), fmt.frac(x) < ps, e < b;
    lemma_emag_increases(fmt, fmt.abs(x), fmt.one());
    if fmt.abs(x) > 0 {
        lemma_emag_increases(fmt, 0, fmt.abs(x));
    }
    lemma_div_mod_unique(fmt.mag(x) as int, fmt.unit() as int, 0, fmt.mag(x) as int);
    let h = (fmt.one() - pow2(fmt.sig_bits)) as nat;
    if fmt.abs(x) < h {
        lemma_emag_increases(fmt, fmt.abs(x), h);
    } else if fmt.abs(x) > h {
        lemma_emag_increases(fmt, h, fmt.abs(x));
    }
}

/// The value of magnitude zero or one with the sign of `x`.
pub fn signed_zero_or_one<F: Float>(x: F, one: bool) -> (r: F)
    ensures
        format_of::<F>().valid(r.spec_repr()),
        format_of::<F>().is_finite(r.spec_repr()),
        format_of::<F>().sign(r.spec_repr()) == format_of::<F>().sign(x.spec_repr()),
        format_of::<F>().mag(r.spec_repr()) == (if one {
            format_of::<F>().unit()
        } else {
            0
        }),
{
    let ghost fmt = format_of::<F>();
    proof {
        F::lemma_format();
        lemma_format_basics(fmt);
        lemma_emag_values(fmt);
        lemma_with_sign(fmt, fmt.sign(x.spec_repr()), 0);
        lemma_with_sign(fmt, fmt.sign(x.spec_repr()), fmt.one());
        crate::arith::lemma_pow2_values();
    }
    let sign = if x.is_sign_negative() {
        F::sign_mask()
    } else {
        0
    };
    let a = if one {
        F::one_int()
    } else {
        0
    };
    F::from_repr(sign + a)
}

/// A value whose exponent is at least the significand's width is a whole number.
pub proof fn lemma_integral(fmt: Format, x: nat)
    requires
        fmt.wf(),
        fmt.valid(x),
        fmt.exp_field(x) >= fmt.bias() + fmt.sig_bits,
    ensures
        fmt.is_integral(x),
{
    lemma_format_basics(fmt);
    lemma_fields(fmt, x);
    let s = fmt.sig_bits;
    let e = fmt.exp_field(x);
    let f = fmt.frac(x);
    lemma_emag_linear(fmt, e, f);
    let k = (fmt.bias() + s - 1) as nat;
    lemma_pow2_split((e - 1) as nat, k);
    let n = (pow2(s) + f) as int;
    let t = pow2((e - 1 - k) as nat) as int;
    let u = fmt.unit() as int;
    assert(n * (u * t) == (n * t) * u) by (nonlinear_arith);
    lemma_mod_multiple(n * t, u);
}

/// The case in which the significand holds the fraction: a value whose
/// exponent `e` satisfies `0 <= e < sig_bits` keeps its fraction in the low
/// `k = sig_bits - e` bits of its pattern. With `n` the significand with its
/// implicit bit and `p = 2^(exponent field - 1)`, the magnitude is `n * p`
/// and one is `2^k * p`; and putting any `g <= 2^sig_bits` in place of the
/// fraction field gives the value of magnitude `(2^sig_bits + g) * p` and
/// the same sign.
pub proof fn lemma_fraction_case(fmt: Format, x: nat, k: nat, g: nat)
    requires
        fmt.wf(),
        fmt.valid(x),
        fmt.bias() <= fmt.exp_field(x) < fmt.bias() + fmt.sig_bits,
        k == fmt.sig_bits - (fmt.exp_field(x) - fmt.bias()),
        g <= pow2(fmt.sig_bits),
    ensures
        1 <= k <= fmt.sig_bits,
        fmt.is_finite(x),
        pow2((fmt.exp_field(x) - 1) as nat) > 0,
        fmt.mag(x) == (pow2(fmt.sig_bits) + fmt.frac(x)) * pow2((fmt.exp_field(x) - 1) as nat),
        fmt.unit() == pow2(k) * pow2((fmt.exp_field(x) - 1) as nat),
        x % pow2(k) == (pow2(fmt.sig_bits) + fmt.frac(x)) % pow2(k),
        x % pow2(k) <= fmt.frac(x),
        pow2(fmt.sig_bits) % pow2(k) == 0,
        ({
            let r = (x - fmt.frac(x) + g) as nat;
            &&& x >= fmt.frac(x)
            &&& fmt.valid(r)
            &&& fmt.is_finite(r)
            &&& fmt.sign(r) == fmt.sign(x)
            &&& fmt.mag(r) == (pow2(fmt.sig_bits) + g) * pow2((fmt.exp_field(x) - 1) as nat)
        }),
{
    lemma_format_basics(fmt);
    lemma_fields(fmt, x);
    let s = fmt.sig_bits;
    let e = fmt.exp_field(x);
    let f = fmt.frac(x);
    let ps = pow2(s) as int;
    let pk = pow2(k) as int;
    let emax = fmt.exp_max() as int;
    lemma_emag_linear(fmt, e, f);
    lemma_emag_linear(fmt, e, g);
    lemma_pow2_pos((e - 1) as nat);
    lemma_pow2_adds(k, (e - 1) as nat);
    // the low k bits
    lemma_pow2_split(s, k);
    let t = pow2((s - k) as nat) as int;
    let a = fmt.abs(x) as int;
    let sg: int = if fmt.sign(x) { fmt.sign_mask() as int } else { 0 };
    lemma_pow2_split((fmt.bits - 1) as nat, k);
    let ts = pow2((fmt.bits - 1 - k) as nat) as int;
    lemma_div_mod(f as int, pk);
    let fq = f as int / pk;
    let fr = f as int % pk;
    let hi: int = if fmt.sign(x) { ts } else { 0 };
    assert(x == (hi + e * t + fq) * pk + fr) by (nonlinear_arith)
        requires
            x == sg + e * ps + f,
            sg == hi * pk,
            ps == pk * t,
            f == fq * pk + fr,
    ;
    lemma_div_mod_unique(x as int, pk, hi + e * t + fq, fr);
    assert(ps + f == (t + fq) * pk + fr) by (nonlinear_arith)
        requires ps == pk * t, f == fq * pk + fr;
    lemma_div_mod_unique(ps + f, pk, t + fq, fr);
    lemma_mod_multiple(t, pk);
    assert(fr <= f) by (nonlinear_arith)
        requires f == fq * pk + fr, fq >= 0, pk > 0;
    // the pattern with the fraction replaced
    let r = (x - f + g) as nat;
    let ra = (e * pow2(s) + g) as nat;
    assert(ra < fmt.exp_mask()) by (nonlinear_arith)
        requires ra == e * ps + g, g <= ps, e + 2 <= emax, fmt.exp_mask() == emax * ps, ps > 0;
    assert(r == fmt.with_sign(fmt.sign(x), ra));
}

/// The fraction case, after the low `k` bits `r` of the pattern were cleared
/// and `2^k` was added if `bump`: the result has the sign of `x`, and its
/// magnitude is that of `x` rounded down to a whole number, plus one if
/// `bump`. The remainder of the magnitude compares with one and its half as
/// `r` does with `2^k`, and the whole part is odd as the significand above
/// the low `k` bits is.
pub proof fn lemma_bump(fmt: Format, x: nat, k: nat, bump: bool)
    requires
        fmt.wf(),
        fmt.valid(x),
        fmt.bias() <= fmt.exp_field(x) < fmt.bias() + fmt.sig_bits,
        k == fmt.sig_bits - (fmt.exp_field(x) - fmt.bias()),
    ensures
        ({
            let r = x % pow2(k);
            let res = (x - r + (if bump { pow2(k) } else { 0 })) as nat;
            let m = fmt.mag(x);
            let u = fmt.unit();
            &&& x >= r
            &&& fmt.valid(res)
            &&& fmt.is_finite(res)
            &&& fmt.is_finite(x)
            &&& fmt.sign(res) == fmt.sign(x)
            &&& fmt.mag(res) == round_down(m, u) + (if bump { u } else { 0 })
            &&& u > 0
            &&& (m % u == 0) == (r == 0)
            &&& (2 * (m % u) >= u) == (2 * r >= pow2(k))
            &&& (2 * (m % u) > u) == (2 * r > pow2(k))
            &&& (m / u) % 2 == ((pow2(fmt.sig_bits) + fmt.frac(x)) / pow2(k)) % 2
        }),
{
    let s = fmt.sig_bits;
    let f = fmt.frac(x);
    let pk = pow2(k);
    let r = x % pk;
    lemma_fraction_case(fmt, x, k, 0);
    let n = pow2(s) + f;
    let p = pow2((fmt.exp_field(x) - 1) as nat);
    lemma_pow2_pos(k);
    lemma_div_mod(n as int, pk as int);
    lemma_div_mod(f as int, pk as int);
    lemma_div_mod(pow2(s) as int, pk as int);
    let g = (f - r + (if bump { pk } else { 0 })) as nat;
    // f - r and 2^s are multiples of 2^k, so f - r + 2^k <= 2^s
    let fq = f as int / pk as int;
    let sq = pow2(s) as int / pk as int;
    assert(n == (sq + fq) * pk + f as int % pk as int) by (nonlinear_arith)
        requires
            n == pow2(s) + f,
            pow2(s) == sq * pk + 0,
            f == fq * pk + f as int % pk as int,
    ;
    lemma_div_mod_unique(n as int, pk as int, sq + fq, f as int % pk as int);
    assert(f as int % pk as int == r);
    assert(fq + 1 <= sq) by (nonlinear_arith)
        requires f == fq * pk + r, r >= 0, f < pow2(s), pow2(s) == sq * pk, pk > 0;
    assert((fq + 1) * pk <= sq * pk) by (nonlinear_arith)
        requires fq + 1 <= sq, pk > 0;
    assert((fq + 1) * pk == fq * pk + pk) by (nonlinear_arith);
    lemma_fraction_case(fmt, x, k, g);
    lemma_round_scale(n, pk, p);
    lemma_div_mod_scale(n as int, pk as int, p as int);
    assert(pow2(s) + g == round_down(n, pk) + (if bump { pk } else { 0 })) by {
        assert(round_down(n, pk) == (n / pk) * pk);
    }
    let ni = n as int;
    let pki = pk as int;
    let pi = p as int;
    assert((round_down(n, pk) + pk) * p == round_down(n, pk) * p + pk * p) by (nonlinear_arith);
    assert(r * pi == 0 <==> r == 0) by (nonlinear_arith)
        requires pi > 0, r >= 0;
    assert(2 * (r * pi) >= pki * pi <==> 2 * r >= pki) by (nonlinear_arith)
        requires pi > 0;
    assert(2 * (r * pi) > pki * pi <==> 2 * r > pki) by (nonlinear_arith)
        requires pi > 0;
}

} // verus!
