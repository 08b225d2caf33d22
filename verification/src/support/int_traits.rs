//! Operations on integers that reach past one word.
//!
//! A double word is a pair `(lo, hi)` of words: with `R` the number of
//! values of a word, it stands for `lo + hi * R`.

pub mod mod_mul;

use vstd::prelude::*;
use vstd::arithmetic::power2::*;
use crate::arith::{lemma_div_mod, lemma_pow2_le, lemma_pow2_values, pow2_u128, shl_u128};
use crate::integer::Int;
use crate::support::int_traits::mod_mul::word;

verus! {

/// The number that the double word `(lo, hi)` of the word type `U` stands for.
pub open spec fn double<U: Int>(lo: U, hi: U) -> int {
    lo.value() + hi.value() * word::<U>()
}

/// The full product of two words, as a double word `(lo, hi)`: nothing overflows.
pub fn widen_mul<U: Int>(a: U, b: U) -> (r: (U, U))
    requires
        !U::spec_signed(),
        U::spec_bits() <= 64,
    ensures
        double(r.0, r.1) == a.value() * b.value(),
{
    let ghost rr = word::<U>();
    proof {
        a.lemma_int();
        b.lemma_int();
        lemma_pow2_values();
        lemma_pow2_le(U::spec_bits(), 64);
        assert(0 <= a.value() * b.value() < rr * rr) by (nonlinear_arith)
            requires 0 <= a.value() < rr, 0 <= b.value() < rr;
        assert(rr * rr <= 0x1_0000_0000_0000_0000 * 0x1_0000_0000_0000_0000) by (nonlinear_arith)
            requires 0 < rr <= 0x1_0000_0000_0000_0000;
        lemma_div_mod(a.value() * b.value(), rr);
        let q = (a.value() * b.value()) / rr;
        assert(q < rr) by (nonlinear_arith)
            requires
                a.value() * b.value() == q * rr + (a.value() * b.value()) % rr,
                0 <= (a.value() * b.value()) % rr,
                a.value() * b.value() < rr * rr,
                rr > 0,
        ;
    }
    let p = a.to_u128() * b.to_u128();
    let r = pow2_u128(U::bits());
    (U::from_u128(p % r), U::from_u128(p / r))
}

/// Divides the double word `(lo, hi)` by the word `d`. The quotient fits a
/// word exactly when `hi < d`: then the quotient and the remainder are
/// returned, and else `None`.
pub fn checked_narrowing_div_rem<U: Int>(lo: U, hi: U, d: U) -> (r: Option<(U, U)>)
    requires
        !U::spec_signed(),
        U::spec_bits() <= 64,
    ensures
        r is Some <==> hi.value() < d.value(),
        r matches Some((q, rem)) ==> q.value() == double(lo, hi) / d.value() && rem.value()
            == double(lo, hi) % d.value(),
{
    let ghost rr = word::<U>();
    proof {
        lo.lemma_int();
        hi.lemma_int();
        d.lemma_int();
        lemma_pow2_values();
        lemma_pow2_le(U::spec_bits(), 64);
    }
    let dv = d.to_u128();
    if hi.to_u128() >= dv {
        return None;
    }
    proof {
        assert(hi.value() * rr + lo.value() < dv * rr) by (nonlinear_arith)
            requires hi.value() + 1 <= dv, 0 <= lo.value() < rr;
        assert(dv * rr <= 0x1_0000_0000_0000_0000 * 0x1_0000_0000_0000_0000) by (nonlinear_arith)
            requires 0 < dv <= rr, rr <= 0x1_0000_0000_0000_0000;
        assert(hi.value() * rr >= 0) by (nonlinear_arith)
            requires hi.value() >= 0, rr >= 0;
        let n = double(lo, hi);
        lemma_div_mod(n, dv as int);
        let q = n / (dv as int);
        assert(q < rr) by (nonlinear_arith)
            requires n == q * dv + n % (dv as int), 0 <= n % (dv as int), n < dv * rr, dv > 0;
    }
    let n = shl_u128(hi.to_u128(), U::bits()) + lo.to_u128();
    Some((U::from_u128(n / dv), U::from_u128(n % dv)))
}

} // verus!
