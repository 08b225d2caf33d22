//! Modular multiplication by a fixed factor, without division.

use vstd::prelude::*;
use vstd::arithmetic::power2::*;
use crate::arith::{
    lemma_div_mod, lemma_div_mod_unique, lemma_pow2_le, lemma_pow2_values, pow2_u128, shl_u128,
};
use crate::integer::Int;

verus! {

/// Barrett reduction using the constant `R == (1 << K) == (1 << U::BITS)`
///
/// After constructing as `Reducer::new(b, n)`,
/// has operations to efficiently compute
///  - `(a * b) / n` and `(a * b) % n`
///  - `Reducer::new((a * b * b) % n, n)`, as long as `a * (n - 1) < R`
#[derive(Clone, Copy, PartialEq, Eq, Debug)]
pub struct Reducer<U> {
    /// the multiplying factor `b in 0..n`
    pub num: U,
    /// the modulus `n in 1..=R/2`
    pub div: U,
    /// the precomputed quotient, `q = (b << K) / n`
    pub quo: U,
    /// the remainder of that division, `r = (b << K) % n`
    pub rem: U,
}

/// The number of values of the word type `U`: `R = 2^bits`.
pub open spec fn word<U: Int>() -> int {
    pow2(U::spec_bits()) as int
}

/// The estimate of Barrett reduction: with `b * R = q * n + r` and `t` the
/// high word of `a * q`, the product `a * b` exceeds `t * n` by less than
/// `2 * n`.
pub proof fn lemma_barrett(a: int, b: int, n: int, q: int, r: int, rr: int, t: int, s: int)
    requires
        0 <= b < n,
        2 * n <= rr,
        0 <= a < rr,
        b * rr == q * n + r,
        0 <= r < n,
        a * q == t * rr + s,
        0 <= s < rr,
    ensures
        0 <= a * b - t * n < 2 * n,
        0 <= t < rr,
{
    let d = a * b - t * n;
    assert(a * (b * rr) == a * (q * n) + a * r) by (nonlinear_arith)
        requires b * rr == q * n + r;
    assert(a * (q * n) == (a * q) * n) by (nonlinear_arith);
    assert((t * rr + s) * n == (t * n) * rr + n * s) by (nonlinear_arith);
    assert(a * (b * rr) == (a * b) * rr) by (nonlinear_arith);
    assert(d * rr == (a * b) * rr - (t * n) * rr) by (nonlinear_arith)
        requires d == a * b - t * n;
    assert(d * rr == a * r + n * s);
    assert(0 <= a * r <= rr * n) by (nonlinear_arith)
        requires 0 <= a < rr, 0 <= r < n;
    assert(0 <= n * s < n * rr) by (nonlinear_arith)
        requires 0 <= s < rr, n > 0;
    assert(d >= 0) by (nonlinear_arith)
        requires d * rr >= 0, rr > 0;
    assert((2 * n) * rr == rr * n + n * rr) by (nonlinear_arith);
    assert(d < 2 * n) by (nonlinear_arith)
        requires d * rr < (2 * n) * rr, rr > 0;
    // the size of t: q < rr since b < n
    assert(q < rr) by (nonlinear_arith)
        requires b * rr == q * n + r, r >= 0, b < n, n > 0, rr > 0;
    assert(q >= 0) by (nonlinear_arith)
        requires b * rr == q * n + r, r < n, b >= 0, n > 0, rr > 0;
    assert(a * q < rr * rr) by (nonlinear_arith)
        requires 0 <= a < rr, 0 <= q < rr;
    assert(a * q >= 0) by (nonlinear_arith)
        requires 0 <= a, 0 <= q;
    assert(t < rr) by (nonlinear_arith)
        requires t * rr + s < rr * rr, s >= 0, rr > 0;
    assert(t >= 0) by (nonlinear_arith)
        requires t * rr + s >= 0, s < rr, rr > 0;
}

impl<U: Int> Reducer<U> {
    /// A word type of at most 64 bits, a factor below the modulus, a modulus
    /// of at most half a word, and the quotient and remainder of
    /// `num * R` by the modulus.
    pub open spec fn wf(self) -> bool {
        &&& !U::spec_signed()
        &&& U::spec_bits() <= 64
        &&& 0 <= self.num.value() < self.div.value()
        &&& 2 * self.div.value() <= word::<U>()
        &&& self.quo.value() == (self.num.value() * word::<U>()) / self.div.value()
        &&& self.rem.value() == (self.num.value() * word::<U>()) % self.div.value()
    }

    /// Facts about sizes that every method needs.
    proof fn lemma_sizes(self)
        requires
            self.wf(),
        ensures
            0 < word::<U>() <= 0x1_0000_0000_0000_0000,
            self.num.value() * word::<U>() == self.quo.value() * self.div.value()
                + self.rem.value(),
            0 <= self.rem.value() < self.div.value(),
            0 <= self.quo.value() < word::<U>(),
    {
        lemma_pow2_values();
        lemma_pow2_le(U::spec_bits(), 64);
        let rr = word::<U>();
        let n = self.div.value();
        let b = self.num.value();
        lemma_div_mod(b * rr, n);
        assert(b * rr >= 0) by (nonlinear_arith)
            requires b >= 0, rr > 0;
        let q = self.quo.value();
        let r = self.rem.value();
        assert(q < rr) by (nonlinear_arith)
            requires b * rr == q * n + r, r >= 0, b < n, n > 0, rr > 0;
    }

    /// Requires `num < div <= R/2`
    pub fn new(num: U, div: U) -> (r: Self)
        requires
            !U::spec_signed(),
            U::spec_bits() <= 64,
            0 <= num.value() < div.value(),
            2 * div.value() <= word::<U>(),
        ensures
            r.wf(),
            r.num == num,
            r.div == div,
    {
        proof {
            lemma_pow2_values();
            lemma_pow2_le(U::spec_bits(), 64);
            num.lemma_int();
            let rr = word::<U>();
            let n = div.value();
            let b = num.value();
            assert(0 <= b * rr < n * rr) by (nonlinear_arith)
                requires 0 <= b < n, rr > 0;
            assert(n * rr <= 0x1_0000_0000_0000_0000 * 0x1_0000_0000_0000_0000)
                by (nonlinear_arith)
                requires 0 < n <= rr, rr <= 0x1_0000_0000_0000_0000;
            lemma_div_mod(b * rr, n);
            let q = (b * rr) / n;
            assert(q < rr) by (nonlinear_arith)
                requires b * rr == q * n + (b * rr) % n, 0 <= (b * rr) % n, b < n, n > 0, rr > 0;
        }
        let bk = shl_u128(num.to_u128(), U::bits());
        let n = div.to_u128();
        let quo = U::from_u128(bk / n);
        let rem = U::from_u128(bk % n);
        Self { num, div, quo, rem }
    }

    /// Return the unique pair `(quotient, remainder)`
    /// s.t. `a * b == quotient * n + remainder`, and `0 <= remainder < n`
    pub fn mul_into_div_rem(&self, a: U) -> (r: (U, U))
        requires
            self.wf(),
        ensures
            r.0.value() == (a.value() * self.num.value()) / self.div.value(),
            r.1.value() == (a.value() * self.num.value()) % self.div.value(),
    {
        let (q, mut r) = self.mul_into_unnormalized_div_rem(a);
        // The unnormalized remainder is still guaranteed to be less than `2n`, so
        // one checked subtraction is sufficient.
        let ghost r0 = r.value();
        let ghost ab = a.value() * self.num.value();
        let ghost n = self.div.value();
        let carry = self.fixup(&mut r);
        proof {
            self.lemma_sizes();
            a.lemma_int();
            let qn: int = if carry { q.value() + 1 } else { q.value() };
            assert((q.value() + 1) * n == q.value() * n + n) by (nonlinear_arith);
            lemma_div_mod_unique(ab, n, qn, r.value());
            // the quotient fits the word
            assert(qn < word::<U>()) by (nonlinear_arith)
                requires
                    ab == qn * n + r.value(),
                    r.value() >= 0,
                    ab == a.value() * self.num.value(),
                    0 <= a.value() < word::<U>(),
                    0 <= self.num.value() < n,
                    n > 0,
            ;
        }
        let q = if carry {
            U::from_u128(q.to_u128() + 1)
        } else {
            q
        };
        (q, r)
    }

    /// Takes the modulus off `x` once, if `x` reaches it, and says whether it did.
    pub fn fixup(&self, x: &mut U) -> (r: bool)
        requires
            self.wf(),
            0 <= old(x).value() < word::<U>(),
        ensures
            r == (old(x).value() >= self.div.value()),
            final(x).value() == (if r {
                old(x).value() - self.div.value()
            } else {
                old(x).value()
            }),
    {
        let v = x.to_u128();
        let n = self.div.to_u128();
        if v >= n {
            proof {
                lemma_pow2_le(0, U::spec_bits());
            }
            *x = U::from_u128(v - n);
            true
        } else {
            false
        }
    }

    /// Return some pair `(quotient, remainder)`
    /// s.t. `a * b == quotient * n + remainder`, and `0 <= remainder < 2n`:
    /// the quotient is the high word of `a` times the precomputed quotient.
    pub fn mul_into_unnormalized_div_rem(&self, a: U) -> (r: (U, U))
        requires
            self.wf(),
        ensures
            a.value() * self.num.value() == r.0.value() * self.div.value() + r.1.value(),
            0 <= r.1.value() < 2 * self.div.value(),
            r.0.value() == (a.value() * self.quo.value()) / word::<U>(),
    {
        // General idea: Estimate the quotient `quotient = t in 0..a` s.t.
        // the remainder `ab - tn` is close to zero, so `t ~= ab / n`
        //
        // Using the definition of euclidean division on the two divisions done:
        // ```
        // bR = qn + r,  with 0 <= r < n
        // aq = tR + s,  with 0 <= s < R
        // ```
        // Then
        // ```
        // (ab - tn)R
        // = abR - ntR
        // = a(qn + r) - n(aq - s)
        // = ar + ns
        // ```
        // Since `s < R` and `r < n`,
        // ```
        // 0 <= ns < nR
        // 0 <= ar < an
        // 0 <= (ab - tn) == (ar + ns)/R < n(1 + a/R)
        // ```
        let ghost rr = word::<U>();
        proof {
            self.lemma_sizes();
            a.lemma_int();
            assert(a.value() * self.quo.value() < rr * rr) by (nonlinear_arith)
                requires 0 <= a.value() < rr, 0 <= self.quo.value() < rr;
            assert(rr * rr <= 0x1_0000_0000_0000_0000 * 0x1_0000_0000_0000_0000)
                by (nonlinear_arith)
                requires 0 < rr <= 0x1_0000_0000_0000_0000;
            assert(a.value() * self.num.value() < rr * rr) by (nonlinear_arith)
                requires 0 <= a.value() < rr, 0 <= self.num.value() < rr;
        }
        let r = pow2_u128(U::bits());
        let a = a.to_u128();
        let aq = a * self.quo.to_u128();
        let t = aq / r;
        proof {
            lemma_div_mod(aq as int, rr);
            lemma_barrett(
                a as int,
                self.num.value(),
                self.div.value(),
                self.quo.value(),
                self.rem.value(),
                rr,
                t as int,
                (aq % r) as int,
            );
            assert(t * self.div.value() <= a * self.num.value());
        }
        let ab = a * self.num.to_u128();
        let tn = t * self.div.to_u128();
        (U::from_u128(t), U::from_u128(ab - tn))
    }

    /// Constructs a new reducer with `b` set to `(ab * b) % n`
    ///
    /// Requires `r * ab == ra * b`, where `r = bR % n`.
    pub fn with_scaled_num_rem(&self, ab: U, ra: U) -> (r: Self)
        requires
            self.wf(),
            self.rem.value() * ab.value() == ra.value() * self.num.value(),
        ensures
            r.wf(),
            r.div == self.div,
            r.num.value() == (ab.value() * self.num.value()) % self.div.value(),
    {
        // The new factor `v = abb mod n`:
        let (_k, v) = self.mul_into_div_rem(ab);

        // `rab = cn + d`, where `0 <= d < n`
        let (c, d) = self.mul_into_div_rem(ra);

        // We need `abbR = Xn + Y`:
        // abbR
        // = ab(qn + r)
        // = abqn + rab
        // = abqn + cn + d
        // = (abq + c)n + d
        let ghost rr = word::<U>();
        proof {
            self.lemma_sizes();
            ab.lemma_int();
            ra.lemma_int();
            c.lemma_int();
            assert(self.quo.value() * ab.value() < rr * rr) by (nonlinear_arith)
                requires 0 <= ab.value() < rr, 0 <= self.quo.value() < rr;
            assert(self.quo.value() * ab.value() + c.value() < rr * rr) by (nonlinear_arith)
                requires
                    0 <= ab.value() <= rr - 1,
                    0 <= self.quo.value() <= rr - 1,
                    0 <= c.value() <= rr - 1,
            ;
            assert(rr * rr <= 0x1_0000_0000_0000_0000 * 0x1_0000_0000_0000_0000)
                by (nonlinear_arith)
                requires 0 < rr <= 0x1_0000_0000_0000_0000;
            assert(self.quo.value() * ab.value() >= 0) by (nonlinear_arith)
                requires 0 <= ab.value(), 0 <= self.quo.value();
            lemma_scaled(
                ab.value(),
                self.num.value(),
                self.div.value(),
                self.quo.value(),
                self.rem.value(),
                rr,
                ra.value(),
            );
        }
        let r = pow2_u128(U::bits());
        let quo = (self.quo.to_u128() * ab.to_u128() + c.to_u128()) % r;
        Self { num: v, div: self.div, quo: U::from_u128(quo), rem: d }
    }

    /// Computes the reducer with the factor `b` set to `(a * b * b) % n`
    /// Requires that `a * (n - 1)` does not overflow.
    pub fn squared_with_scale(&self, a: U) -> (r: Self)
        requires
            self.wf(),
            0 <= a.value(),
            a.value() * (self.div.value() - 1) < word::<U>(),
        ensures
            r.wf(),
            r.div == self.div,
            r.num.value() == (a.value() * self.num.value() * self.num.value()) % self.div.value(),
    {
        let ghost rr = word::<U>();
        proof {
            self.lemma_sizes();
            let n = self.div.value();
            let av = a.value();
            assert(av * self.num.value() <= av * (n - 1)) by (nonlinear_arith)
                requires av >= 0, self.num.value() <= n - 1;
            assert(av * self.rem.value() <= av * (n - 1)) by (nonlinear_arith)
                requires av >= 0, self.rem.value() <= n - 1;
            assert(av * self.num.value() >= 0) by (nonlinear_arith)
                requires av >= 0, self.num.value() >= 0;
            assert(av * self.rem.value() >= 0) by (nonlinear_arith)
                requires av >= 0, self.rem.value() >= 0;
            assert(self.rem.value() * (av * self.num.value()) == (av * self.rem.value())
                * self.num.value()) by (nonlinear_arith);
            assert((av * self.num.value()) * self.num.value() == av * self.num.value()
                * self.num.value());
        }
        let a = a.to_u128();
        self.with_scaled_num_rem(
            U::from_u128(a * self.num.to_u128()),
            U::from_u128(a * self.rem.to_u128()),
        )
    }

    /// Computes the reducer with the factor `b` set to `(b * b << s) % n`
    /// Requires that `(n - 1) << s` does not overflow.
    pub fn squared_with_shift(&self, s: u32) -> (r: Self)
        requires
            self.wf(),
            s < 128,
            (self.div.value() - 1) * pow2(s as nat) < word::<U>(),
        ensures
            r.wf(),
            r.div == self.div,
            r.num.value() == (self.num.value() * self.num.value() * pow2(s as nat))
                % self.div.value(),
    {
        let ghost rr = word::<U>();
        let ghost p = pow2(s as nat) as int;
        proof {
            self.lemma_sizes();
            lemma_pow2_pos(s as nat);
            lemma_pow2_values();
            let n = self.div.value();
            assert(self.num.value() * p <= (n - 1) * p) by (nonlinear_arith)
                requires p >= 0, self.num.value() <= n - 1;
            assert(self.rem.value() * p <= (n - 1) * p) by (nonlinear_arith)
                requires p >= 0, self.rem.value() <= n - 1;
            assert(self.num.value() * p >= 0) by (nonlinear_arith)
                requires p >= 0, self.num.value() >= 0;
            assert(self.rem.value() * p >= 0) by (nonlinear_arith)
                requires p >= 0, self.rem.value() >= 0;
            assert(self.rem.value() * (self.num.value() * p) == (self.rem.value() * p)
                * self.num.value()) by (nonlinear_arith);
            assert((self.num.value() * p) * self.num.value() == self.num.value()
                * self.num.value() * p) by (nonlinear_arith);
        }
        self.with_scaled_num_rem(
            U::from_u128(shl_u128(self.num.to_u128(), s)),
            U::from_u128(shl_u128(self.rem.to_u128(), s)),
        )
    }
}

/// The quotient and remainder of the new factor: with `b * R = q * n + r`
/// and `r * ab = ra * b`, the factor `v = (ab * b) % n` has
/// `v * R = ((q * ab + c) % R) * n + d` for `ra * b = c * n + d`.
proof fn lemma_scaled(ab: int, b: int, n: int, q: int, r: int, rr: int, ra: int)
    requires
        0 <= b < n,
        2 * n <= rr,
        0 <= ab < rr,
        0 <= ra < rr,
        b * rr == q * n + r,
        0 <= r < n,
        0 <= q < rr,
        r * ab == ra * b,
    ensures
        ({
            let v = (ab * b) % n;
            let c = (ra * b) / n;
            let d = (ra * b) % n;
            &&& (v * rr) / n == (q * ab + c) % rr
            &&& (v * rr) % n == d
            &&& q * ab + c >= 0
        }),
{
    let v = (ab * b) % n;
    let k = (ab * b) / n;
    let c = (ra * b) / n;
    let d = (ra * b) % n;
    lemma_div_mod(ab * b, n);
    lemma_div_mod(ra * b, n);
    assert(ab * b >= 0) by (nonlinear_arith)
        requires ab >= 0, b >= 0;
    assert(ra * b >= 0) by (nonlinear_arith)
        requires ra >= 0, b >= 0;
    assert(q * ab >= 0) by (nonlinear_arith)
        requires ab >= 0, q >= 0;
    // ab * b * R = (ab * q + c) * n + d
    assert(ab * (b * rr) == (ab * q) * n + ab * r) by (nonlinear_arith)
        requires b * rr == q * n + r;
    assert(ab * r == c * n + d) by (nonlinear_arith)
        requires r * ab == ra * b, ra * b == c * n + d;
    assert((ab * b) * rr == ab * (b * rr)) by (nonlinear_arith);
    assert((k * n + v) * rr == (k * rr) * n + v * rr) by (nonlinear_arith);
    let x = q * ab + c - k * rr;
    assert(v * rr == x * n + d) by (nonlinear_arith)
        requires
            (k * rr) * n + v * rr == (ab * q) * n + c * n + d,
            x == q * ab + c - k * rr,
    ;
    lemma_div_mod_unique(v * rr, n, x, d);
    assert(0 <= x < rr) by (nonlinear_arith)
        requires v * rr == x * n + d, 0 <= d < n, 0 <= v < n, rr > 0, n > 0;
    lemma_div_mod_unique(q * ab + c, rr, k, x);
}

} // verus!
