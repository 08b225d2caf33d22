//! Remainders of shifted numbers by Barrett reduction.
//!
//! A [`Reducer`] holds a number `x` below twice a modulus `n` and maps it to
//! `(x << k) - u * n` for a suitable `u`, without a division and without a
//! number wider than two words.

use vstd::prelude::*;
use vstd::arithmetic::power2::*;
use crate::arith::{
    bit_length_u128, lemma_bit_length, lemma_div_mod, lemma_div_mod_unique, lemma_mod_multiple,
    lemma_pow2_le, lemma_pow2_split, lemma_pow2_values, lemma_u128_single_bit, low_bits_u128,
    pow2_u128, shl_u128, shr_u128,
};
use crate::integer::Int;
use crate::support::int_traits::checked_narrowing_div_rem;
use crate::support::int_traits::mod_mul::word;

verus! {

/// Contains:
///  n in (R/8, R/4)
///  x in [0, 2n)
#[derive(Debug, Clone, PartialEq, Eq)]
pub struct Reducer<U> {
    /// let m = 2n
    pub m: U,
    /// RR/2 = qm + r
    pub r: U,
    /// 2xq, a double word
    pub xq2: u128,
}

impl<U: Int> Reducer<U> {
    /// The modulus `n`.
    pub open spec fn modulus(self) -> int {
        self.m.value() / 2
    }

    /// `q`, the quotient of `R * R / 2` by `m = 2 * n`.
    pub open spec fn quotient(self) -> int {
        (word::<U>() * word::<U>() / 2) / self.m.value()
    }

    /// The number `x` that is held.
    pub open spec fn remainder(self) -> int {
        self.xq2 as int / (2 * self.quotient())
    }

    /// A word type of at most 64 bits, a modulus strictly between an eighth
    /// and a quarter of a word, and a held number below twice the modulus.
    pub open spec fn wf(self) -> bool {
        &&& !U::spec_signed()
        &&& U::spec_bits() <= 64
        &&& self.m.value() % 2 == 0
        &&& word::<U>() < 4 * self.m.value()
        &&& 2 * self.m.value() < word::<U>()
        &&& self.r.value() == (word::<U>() * word::<U>() / 2) % self.m.value()
        &&& self.xq2 == 2 * self.remainder() * self.quotient()
        &&& 0 <= self.remainder() < self.m.value()
    }

    /// Facts about sizes that every method needs.
    proof fn lemma_sizes(self)
        requires
            self.wf(),
        ensures
            16 <= word::<U>() <= 0x1_0000_0000_0000_0000,
            word::<U>() % 2 == 0,
            word::<U>() == pow2(U::spec_bits()),
            word::<U>() * (word::<U>() / 2) == self.quotient() * self.m.value() + self.r.value(),
            word::<U>() * word::<U>() / 2 == word::<U>() * (word::<U>() / 2),
            0 <= self.r.value() < self.m.value(),
            word::<U>() < self.quotient() < 2 * word::<U>(),
            self.xq2 + 2 * word::<U>() + 2 <= word::<U>() * word::<U>(),
    {
        lemma_pow2_values();
        lemma_pow2_le(U::spec_bits(), 64);
        self.m.lemma_int();
        lemma_pow2_le(4, U::spec_bits());
        lemma_pow2_unfold(U::spec_bits());
        let rr = word::<U>();
        let m = self.m.value();
        let h = rr / 2;
        assert(rr * rr == (rr * h) * 2) by (nonlinear_arith)
            requires rr == 2 * h;
        assert(rr * rr / 2 == rr * h);
        lemma_half_square(rr, h, m, self.remainder());
    }

    /// Construct a reducer for `(x << _) mod n`.
    ///
    /// Requires `R/8 < n < R/4` and `x < 2n`.
    pub fn new(x: U, n: U) -> (r: Self)
        requires
            !U::spec_signed(),
            U::spec_bits() <= 64,
            word::<U>() < 8 * n.value(),
            4 * n.value() < word::<U>(),
            0 <= x.value() < 2 * n.value(),
        ensures
            r.wf(),
            r.modulus() == n.value(),
            r.remainder() == x.value(),
    {
        let ghost rr = word::<U>();
        let ghost h = rr / 2;
        let ghost mv = 2 * n.value();
        let ghost xv = x.value();
        proof {
            lemma_pow2_values();
            lemma_pow2_le(U::spec_bits(), 64);
            x.lemma_int();
            lemma_pow2_le(4, U::spec_bits());
            lemma_pow2_unfold(U::spec_bits());
            assert(rr * rr == (rr * h) * 2) by (nonlinear_arith)
                requires rr == 2 * h;
            lemma_half_square(rr, h, mv, xv);
            let v = h - mv;
            assert(0 <= v * rr < mv * rr) by (nonlinear_arith)
                requires 0 <= v < mv, rr > 0;
            assert(mv * rr <= 0x1_0000_0000_0000_0000 * 0x1_0000_0000_0000_0000)
                by (nonlinear_arith)
                requires 0 < mv <= rr, rr <= 0x1_0000_0000_0000_0000;
            lemma_div_mod(v * rr, mv);
            let f = (v * rr) / mv;
            let r = (v * rr) % mv;
            // RR/2 = (R + f) m + r
            assert(rr * h == (rr + f) * mv + r) by (nonlinear_arith)
                requires v * rr == f * mv + r, v == h - mv;
            lemma_div_mod_unique(rr * h, mv, rr + f, r);
            assert(f < rr) by (nonlinear_arith)
                requires v * rr == f * mv + r, r >= 0, v < mv, mv > 0, rr > 0;
            assert((2 * xv) * rr + (2 * xv) * f == 2 * xv * (rr + f)) by (nonlinear_arith);
            assert(0 <= (2 * xv) * f < rr * rr) by (nonlinear_arith)
                requires 0 <= 2 * xv < rr, 0 <= f < rr;
            assert(0 <= (2 * xv) * rr < rr * rr) by (nonlinear_arith)
                requires 0 <= 2 * xv < rr, rr > 0;
            assert(rr * rr <= 0x1_0000_0000_0000_0000 * 0x1_0000_0000_0000_0000)
                by (nonlinear_arith)
                requires 0 < rr <= 0x1_0000_0000_0000_0000;
            let q = rr + f;
            assert(2 * xv * q == xv * (2 * q)) by (nonlinear_arith);
            lemma_mod_multiple(xv, 2 * q);
        }
        let word = pow2_u128(U::bits());
        let m = 2 * n.to_u128();

        // We need q and r s.t. RR/2 = qm + r
        // As R/4 < m < R/2,
        // we have R <= q < 2R
        // so let q = R + f
        // RR/2 = (R + f)m + r
        // R(R/2 - m) = fm + r
        // v = R/2 - m < R/4 < m
        let v = word / 2 - m;
        let (f, r) = match checked_narrowing_div_rem(U::from_u128(0), U::from_u128(v), U::from_u128(m)) {
            Some((f, r)) => (f.to_u128(), r.to_u128()),
            None => (0, 0),
        };

        // xq < qm <= RR/2
        // 2xq < RR
        // 2xq = 2xR + 2xf;
        let x2 = 2 * x.to_u128();
        let xq2 = shl_u128(x2, U::bits()) + x2 * f;
        Self { m: U::from_u128(m), r: U::from_u128(r), xq2 }
    }

    /// Extract the current remainder in the range `[0, 2n)`
    pub fn partial_remainder(&self) -> (x: U)
        requires
            self.wf(),
        ensures
            x.value() == self.remainder(),
    {
        // RR/2 = qm + r, 0 <= r < m
        // 2xq = uR + v, 0 <= v < R
        // muR = 2mxq - mv
        // = xRR - 2xr - mv
        // mu + (2xr + mv)/R == xR
        //
        // 0 <= (2xr + mv)/R < 2m
        // Add `mu` to each term to obtain:
        // mu <= xR < mu + 2m
        //
        // Since `0 <= 2m < R`, `xR` is the only multiple of `R` between
        // `mu` and `m(u+2)`, so we can truncate the latter to find `x`.
        let ghost rr = word::<U>();
        proof {
            self.lemma_sizes();
            lemma_div_mod(self.xq2 as int, rr);
            let u = self.xq2 as int / rr;
            let v = self.xq2 as int % rr;
            assert(u + 2 < rr) by (nonlinear_arith)
                requires self.xq2 == u * rr + v, v >= 0, self.xq2 + 2 * rr + 2 <= rr * rr, rr > 0;
            assert(0 <= self.m.value() * (u + 2) < rr * rr) by (nonlinear_arith)
                requires 0 <= self.m.value() < rr, 0 <= u + 2 < rr;
            assert(rr * rr <= 0x1_0000_0000_0000_0000 * 0x1_0000_0000_0000_0000)
                by (nonlinear_arith)
                requires 0 < rr <= 0x1_0000_0000_0000_0000;
            lemma_extract(
                rr,
                self.m.value(),
                self.quotient(),
                self.r.value(),
                self.remainder(),
                u,
                v,
            );
        }
        let u = shr_u128(self.xq2, U::bits());
        U::from_u128(shr_u128(self.m.to_u128() * (u + 2), U::bits()))
    }

    /// Maps the remainder `x` to `(x << k) - un`,
    /// for a suitable quotient `u`, which is returned.
    pub fn shift_reduce(&mut self, k: u32) -> (u: U)
        requires
            old(self).wf(),
            k < U::spec_bits(),
        ensures
            final(self).wf(),
            final(self).m == old(self).m,
            final(self).r == old(self).r,
            u.value() == old(self).xq2 as nat / pow2((2 * U::spec_bits() - 1 - k) as nat),
            final(self).remainder() == old(self).remainder() * pow2(k as nat) - u.value() * old(
                self,
            ).modulus(),
    {
        let ghost rr = word::<U>();
        let ghost old_x = self.remainder();
        let ghost q = self.quotient();
        let bits = U::bits();
        let j = 2 * bits - 1 - k;
        proof {
            self.lemma_sizes();
            lemma_pow2_adds(U::spec_bits(), U::spec_bits());
            lemma_pow2_unfold(2 * U::spec_bits());
            lemma_pow2_adds(j as nat, k as nat);
            lemma_pow2_split(j as nat, U::spec_bits());
            lemma_pow2_pos(j as nat);
            lemma_pow2_pos(k as nat);
            lemma_pow2_values();
            lemma_div_mod(self.xq2 as int, pow2(j as nat) as int);
            let a = self.xq2 as int / pow2(j as nat) as int;
            let low = self.xq2 as int % pow2(j as nat) as int;
            let b = low * pow2(k as nat);
            assert(0 <= b < rr * (rr / 2)) by (nonlinear_arith)
                requires
                    b == low * pow2(k as nat),
                    0 <= low < pow2(j as nat),
                    pow2(j as nat) * pow2(k as nat) == rr * (rr / 2),
                    pow2(k as nat) > 0,
            ;
            assert(a < rr) by (nonlinear_arith)
                requires
                    self.xq2 == a * pow2(j as nat) + low,
                    low >= 0,
                    self.xq2 < rr * rr,
                    pow2(j as nat) == rr * pow2((j - U::spec_bits()) as nat),
                    pow2((j - U::spec_bits()) as nat) >= 1,
                    rr > 0,
                    a >= 0,
            ;
            assert(rr * rr <= 0x1_0000_0000_0000_0000 * 0x1_0000_0000_0000_0000)
                by (nonlinear_arith)
                requires 0 < rr <= 0x1_0000_0000_0000_0000;
            assert(self.xq2 * pow2(k as nat) == a * (pow2(j as nat) * pow2(k as nat)) + low
                * pow2(k as nat)) by (nonlinear_arith)
                requires self.xq2 == a * pow2(j as nat) + low;
            lemma_shift_step(
                rr,
                self.m.value(),
                q,
                self.r.value(),
                old_x,
                a,
                b,
                pow2(k as nat) as int,
            );
        }
        // 2xq << k = aRR/2 + b;
        let a = shr_u128(self.xq2, j);
        let b = shl_u128(low_bits_u128(self.xq2, j), k);

        // (2xq << k) - aqm
        // = aRR/2 + b - aqm
        // = a(RR/2 - qm) + b
        // = ar + b
        self.xq2 = a * self.r.to_u128() + b;
        U::from_u128(a)
    }

    /// Maps the remainder `x` to `x(R/2) - un`,
    /// for a suitable quotient `u`, which is returned.
    pub fn word_reduce(&mut self) -> (u: U)
        requires
            old(self).wf(),
        ensures
            final(self).wf(),
            final(self).m == old(self).m,
            final(self).r == old(self).r,
            u.value() == old(self).xq2 as nat / pow2(U::spec_bits()),
            final(self).remainder() == old(self).remainder() * pow2((U::spec_bits() - 1) as nat)
                - u.value() * old(self).modulus(),
    {
        let ghost rr = word::<U>();
        let ghost old_x = self.remainder();
        let ghost q = self.quotient();
        proof {
            self.lemma_sizes();
            self.m.lemma_int();
            lemma_pow2_unfold(U::spec_bits());
            lemma_pow2_values();
            lemma_div_mod(self.xq2 as int, rr);
            let u = self.xq2 as int / rr;
            let v = self.xq2 as int % rr;
            // the low word of 2xq is even
            let h = rr / 2;
            assert(self.xq2 == 2 * (old_x * q)) by (nonlinear_arith)
                requires self.xq2 == 2 * old_x * q;
            assert(v == 2 * (old_x * q - u * h)) by (nonlinear_arith)
                requires self.xq2 == 2 * (old_x * q), self.xq2 == u * rr + v, rr == 2 * h;
            let b = (v / 2) * rr;
            assert(0 <= b < rr * h) by (nonlinear_arith)
                requires b == (v / 2) * rr, 0 <= v / 2 < h, rr > 0;
            assert(rr * h <= 0x1_0000_0000_0000_0000 * 0x8000_0000_0000_0000) by (nonlinear_arith)
                requires 0 < rr <= 0x1_0000_0000_0000_0000, rr == 2 * h;
            assert(u < rr) by (nonlinear_arith)
                requires self.xq2 == u * rr + v, v >= 0, self.xq2 < rr * rr, rr > 0, u >= 0;
            assert(self.xq2 * h == u * (rr * h) + b) by (nonlinear_arith)
                requires self.xq2 == u * rr + v, v == 2 * (v / 2), b == (v / 2) * rr, rr == 2 * h;
            assert(rr * rr <= 0x1_0000_0000_0000_0000 * 0x1_0000_0000_0000_0000)
                by (nonlinear_arith)
                requires 0 < rr <= 0x1_0000_0000_0000_0000;
            lemma_shift_step(rr, self.m.value(), q, self.r.value(), old_x, u, b, h);
        }
        // 2xq = uR + v
        let v = low_bits_u128(self.xq2, U::bits());
        let u = shr_u128(self.xq2, U::bits());
        // xqR - uqm
        // = uRR/2 + vR/2 - uRR/2 + ur
        // = ur + (v/2)R
        self.xq2 = u * self.r.to_u128() + shl_u128(v / 2, U::bits());
        U::from_u128(u)
    }
}

/// The round trip of a reduction: where a reducer that held `x` holds
/// `x * 2^k - u * n` after a shift by `k`, as `shift_reduce` and
/// `word_reduce` leave it, the number it holds is congruent to `x * 2^k`
/// modulo `n` and lies below `2 * n`. Taking `n` off once where it is reached
/// gives `(x << k) mod n`.
pub proof fn lemma_shift_reduce_round_trip<U: Int>(
    before: Reducer<U>,
    after: Reducer<U>,
    k: nat,
    u: int,
)
    requires
        before.wf(),
        after.wf(),
        after.m == before.m,
        after.remainder() == before.remainder() * pow2(k) - u * before.modulus(),
    ensures
        0 <= after.remainder() < 2 * before.modulus(),
        after.remainder() % before.modulus() == (before.remainder() * pow2(k)) % before.modulus(),
        (if after.remainder() >= before.modulus() {
            after.remainder() - before.modulus()
        } else {
            after.remainder()
        }) == (before.remainder() * pow2(k)) % before.modulus(),
{
    before.lemma_sizes();
    let n = before.modulus();
    let a = before.remainder() * pow2(k);
    let r = after.remainder();
    lemma_div_mod(r, n);
    let q = r / n;
    assert(a == (q + u) * n + r % n) by (nonlinear_arith)
        requires r == a - u * n, r == q * n + r % n;
    lemma_div_mod_unique(a, n, q + u, r % n);
    if r >= n {
        lemma_div_mod_unique(r, n, 1, r - n);
    } else {
        lemma_div_mod_unique(r, n, 0, r);
    }
}

/// Compute the remainder `(x << e) % y` with unbounded integers.
/// Requires `x < 2y` and `y.leading_zeros() >= 2`
pub fn linear_mul_reduction<U: Int>(x: U, e: u32, y: U) -> (r: U)
    requires
        !U::spec_signed(),
        U::spec_bits() <= 64,
        4 * y.value() < word::<U>(),
        0 <= x.value() < 2 * y.value(),
    ensures
        r.value() == (x.value() * pow2(e as nat)) % y.value(),
{
    let ghost rr = word::<U>();
    let bits = U::bits();
    let xv = x.to_u128();
    let yv = y.to_u128();
    let len = bit_length_u128(yv);
    proof {
        lemma_pow2_values();
        lemma_pow2_le(U::spec_bits(), 64);
        x.lemma_int();
        lemma_bit_length(yv as nat);
        lemma_pow2_unfold(len as nat);
        lemma_pow2_unfold(U::spec_bits());
        lemma_pow2_unfold((U::spec_bits() - 1) as nat);
        if len + 2 > bits {
            lemma_pow2_le((bits - 2) as nat, (len - 1) as nat);
        }
        lemma_u128_single_bit(yv, (len - 1) as u128);
        lemma_pow2_pos(e as nat);
    }
    // power of two divisor
    if (yv & (yv - 1)) == 0 {
        let ghost j = (len - 1) as nat;
        if e < bits {
            proof {
                lemma_pow2_le(e as nat, 63);
                assert(xv * pow2(e as nat) < 0x8000_0000_0000_0000 * 0x8000_0000_0000_0000)
                    by (nonlinear_arith)
                    requires xv < 0x8000_0000_0000_0000, 0 < pow2(e as nat) <= 0x8000_0000_0000_0000;
                crate::arith::lemma_u128_and_mask((xv * pow2(e as nat)) as u128, j as u128);
            }
            return U::from_u128(shl_u128(xv, e) & (yv - 1));
        } else {
            proof {
                lemma_pow2_split(e as nat, j);
                let t = pow2((e - j) as nat) as int;
                assert(xv * pow2(e as nat) == (xv * t) * yv) by (nonlinear_arith)
                    requires pow2(e as nat) == yv * t;
                lemma_mod_multiple(xv * t, yv as int);
                lemma_pow2_le(0, U::spec_bits());
            }
            return U::from_u128(0);
        }
    }
    // shift the divisor so it has exactly two leading zeros

    let y_shift = bits - len - 2;
    let ghost ps = pow2(y_shift as nat) as int;
    proof {
        lemma_pow2_adds((len - 1) as nat, y_shift as nat);
        lemma_pow2_adds(len as nat, y_shift as nat);
        lemma_pow2_unfold((U::spec_bits() - 2) as nat);
        lemma_pow2_pos(y_shift as nat);
        assert(pow2((len - 1) as nat) * ps < yv * ps < pow2(len as nat) * ps) by (nonlinear_arith)
            requires pow2((len - 1) as nat) < yv < pow2(len as nat), ps > 0;
        assert(xv < 2 * (yv * ps)) by (nonlinear_arith)
            requires xv < 2 * yv, ps >= 1;
    }
    let n = shl_u128(yv, y_shift);
    let mut m = Reducer::new(x, U::from_u128(n));
    let total: u64 = e as u64 + y_shift as u64;
    let mut left: u64 = total;
    let ghost mut c: int = 0;
    proof {
        assert(xv * pow2(0) - 0 * n == xv) by (nonlinear_arith)
            requires pow2(0) == 1;
    }
    while left >= (bits - 1) as u64
        invariant
            m.wf(),
            m.modulus() == n,
            left <= total,
            m.remainder() == xv * pow2((total - left) as nat) - c * n,
            bits == U::spec_bits(),
            8 <= bits <= 64,
        decreases left,
    {
        let ghost before = m.remainder();
        let ghost done = (total - left) as nat;
        let u = m.word_reduce();
        left -= (bits - 1) as u64;
        proof {
            let p = pow2((bits - 1) as nat) as int;
            lemma_pow2_adds(done, (bits - 1) as nat);
            assert((xv * pow2(done) - c * n) * p - u.value() * n == xv * (pow2(done) * p) - (c * p
                + u.value()) * n) by (nonlinear_arith);
            c = c * p + u.value();
        }
    }
    let ghost done = (total - left) as nat;
    let u = m.shift_reduce(left as u32);
    proof {
        let p = pow2(left as nat) as int;
        lemma_pow2_adds(done, left as nat);
        assert((xv * pow2(done) - c * n) * p - u.value() * n == xv * (pow2(done) * p) - (c * p
            + u.value()) * n) by (nonlinear_arith);
        c = c * p + u.value();
        // the held number is a multiple of the shift
        lemma_pow2_adds(e as nat, y_shift as nat);
        let xr = m.remainder();
        let z = xv * pow2(e as nat) - c * yv;
        assert(xr == z * ps) by (nonlinear_arith)
            requires
                xr == xv * (pow2(e as nat) * ps) - c * n,
                n == yv * ps,
                z == xv * pow2(e as nat) - c * yv,
        ;
        lemma_div_mod_unique(xr, ps, z, 0);
        assert((2 * yv) * ps == 2 * n) by (nonlinear_arith)
            requires n == yv * ps;
        assert(m.m.value() == 2 * n);
        assert(0 <= z < 2 * yv) by (nonlinear_arith)
            requires 0 <= z * ps < (2 * yv) * ps, ps > 0;
        if z >= yv {
            assert((c + 1) * yv == c * yv + yv) by (nonlinear_arith);
            lemma_div_mod_unique(xv * pow2(e as nat), yv as int, c + 1, z - yv);
        } else {
            lemma_div_mod_unique(xv * pow2(e as nat), yv as int, c, z);
        }
    }
    let rem = shr_u128(m.partial_remainder().to_u128(), y_shift);
    if rem >= yv {
        U::from_u128(rem - yv)
    } else {
        U::from_u128(rem)
    }
}

/// Sizes around `R * R / 2 = q * m + r` for `R/4 < m < R/2`: the quotient
/// lies strictly between `R` and `2 * R`, and `2 * x * q` for `x < m` leaves
/// room below `R * R`.
proof fn lemma_half_square(rr: int, h: int, m: int, x: int)
    requires
        rr == 2 * h,
        rr >= 16,
        rr < 4 * m,
        2 * m < rr,
        0 <= x < m,
    ensures
        ({
            let q = (rr * h) / m;
            let r = (rr * h) % m;
            &&& rr * h == q * m + r
            &&& 0 <= r < m
            &&& rr < q < 2 * rr
            &&& 2 * x * q + 2 * rr + 2 <= rr * rr
            &&& 2 * x * q >= 0
        }),
{
    let q = (rr * h) / m;
    let r = (rr * h) % m;
    assert(rr * h >= 0) by (nonlinear_arith)
        requires rr >= 0, h >= 0;
    lemma_div_mod(rr * h, m);
    // q > R: (R + 1) m <= R h, since m <= h - 1 and R >= ... 
    assert(q > rr) by {
        if q <= rr {
            assert(q * m + r < rr * m + m) by (nonlinear_arith)
                requires q <= rr, r < m, m > 0;
            assert(rr * m + m <= rr * h) by (nonlinear_arith)
                requires m <= h - 1, rr >= 16, m < rr, rr == 2 * h, m >= 0;
        }
    }
    assert(q < 2 * rr) by {
        if q >= 2 * rr {
            assert(q * m >= (2 * rr) * m) by (nonlinear_arith)
                requires q >= 2 * rr, m > 0;
            assert((2 * rr) * m > rr * h) by (nonlinear_arith)
                requires 4 * m > rr, rr == 2 * h, rr > 0;
        }
    }
    assert(2 * x * q <= 2 * (m - 1) * q) by (nonlinear_arith)
        requires x <= m - 1, q >= 0;
    assert(2 * (m - 1) * q == 2 * (q * m) - 2 * q) by (nonlinear_arith);
    assert(rr * rr == 2 * (rr * h)) by (nonlinear_arith)
        requires rr == 2 * h;
    assert(2 * x * q >= 0) by (nonlinear_arith)
        requires x >= 0, q >= 0;
}

/// Reading the held number off `2 * x * q = u * R + v`: it is the high
/// word of `m * (u + 2)`.
proof fn lemma_extract(rr: int, m: int, q: int, r: int, x: int, u: int, v: int)
    requires
        rr > 0,
        rr % 2 == 0,
        2 * m < rr,
        rr * (rr / 2) == q * m + r,
        0 <= r < m,
        0 <= x < m,
        2 * x * q == u * rr + v,
        0 <= v < rr,
    ensures
        (m * (u + 2)) / rr == x,
{
    let w = 2 * x * r + m * v;
    // m u R = x R R - w
    assert(m * (u * rr) == 2 * x * (q * m) - m * v) by (nonlinear_arith)
        requires 2 * x * q == u * rr + v;
    assert(2 * x * (q * m) == x * (rr * rr) - 2 * x * r) by (nonlinear_arith)
        requires rr * (rr / 2) == q * m + r, rr == 2 * (rr / 2);
    assert((x * rr - m * u) * rr == w) by (nonlinear_arith)
        requires m * (u * rr) == x * (rr * rr) - 2 * x * r - m * v, w == 2 * x * r + m * v;
    assert(0 <= 2 * x * r < m * rr) by (nonlinear_arith)
        requires 0 <= x < m, 0 <= r < m, 2 * m < rr;
    assert(0 <= m * v < m * rr) by (nonlinear_arith)
        requires 0 <= v < rr, m > 0;
    let d = x * rr - m * u;
    assert((2 * m) * rr == m * rr + m * rr) by (nonlinear_arith);
    assert(0 <= d < 2 * m) by (nonlinear_arith)
        requires d * rr == w, 0 <= w < (2 * m) * rr, rr > 0;
    assert(m * (u + 2) == x * rr + (2 * m - d)) by (nonlinear_arith)
        requires d == x * rr - m * u;
    lemma_div_mod_unique(m * (u + 2), rr, x, 2 * m - d);
}

/// One reduction step: with `2 * x * q * p = a * R * R / 2 + b`, the
/// double word `a * r + b` is `2 * x' * q` for `x' = x * p - a * m / 2`,
/// which again lies below `m`.
proof fn lemma_shift_step(rr: int, m: int, q: int, r: int, x: int, a: int, b: int, p: int)
    requires
        rr >= 16,
        rr % 2 == 0,
        m % 2 == 0,
        rr < 4 * m,
        2 * m < rr,
        q == (rr * (rr / 2)) / m,
        r == (rr * (rr / 2)) % m,
        0 <= x < m,
        (2 * x * q) * p == a * (rr * (rr / 2)) + b,
        0 <= a < rr,
        0 <= b < rr * (rr / 2),
    ensures
        ({
            let xn = x * p - a * (m / 2);
            &&& a * r + b == 2 * xn * q
            &&& 0 <= xn < m
            &&& (a * r + b) / (2 * q) == xn
            &&& 0 <= a * r + b < rr * rr
        }),
{
    let h = rr / 2;
    let n = m / 2;
    lemma_half_square(rr, h, m, x);
    let xn = x * p - a * n;
    assert(2 * xn * q == (2 * x * q) * p - a * (q * m)) by (nonlinear_arith)
        requires xn == x * p - a * n, m == 2 * n;
    assert(a * (q * m) == a * (rr * h) - a * r) by (nonlinear_arith)
        requires rr * h == q * m + r;
    assert(a * r + b == 2 * xn * q);
    assert(0 <= a * r <= (rr - 1) * (m - 1)) by (nonlinear_arith)
        requires 0 <= a <= rr - 1, 0 <= r <= m - 1;
    assert((rr - 1) * (m - 1) + rr * h - 1 < 2 * (q * m)) by (nonlinear_arith)
        requires rr * h == q * m + r, r <= m - 1, 2 * m + 2 <= rr, rr == 2 * h, m >= 1;
    assert(2 * xn * q == (2 * q) * xn) by (nonlinear_arith);
    assert(2 * (q * m) == (2 * q) * m) by (nonlinear_arith);
    assert(0 <= xn < m) by (nonlinear_arith)
        requires 0 <= (2 * q) * xn < (2 * q) * m, q > 0;
    lemma_div_mod_unique(a * r + b, 2 * q, xn, 0);
    assert(rr * rr == 2 * (rr * h)) by (nonlinear_arith)
        requires rr == 2 * h;
}

} // verus!
