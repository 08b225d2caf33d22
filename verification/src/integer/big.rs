//! Integers used for wide operations, larger than `u128`.

use vstd::prelude::*;

verus! {

/// `2^64`, the number of values of a limb.
pub const LIMB: u128 = 0x1_0000_0000_0000_0000;

/// A 256-bit unsigned integer represented as 4 64-bit limbs.
///
/// Each limb is a native-endian number, but the array is little-limb-endian.
#[allow(non_camel_case_types)]
#[derive(Clone, Copy, Debug, PartialEq, PartialOrd)]
pub struct u256(pub [u64; 4]);

/// A 256-bit signed integer represented as 4 64-bit limbs.
///
/// Each limb is a native-endian number, but the array is little-limb-endian.
#[allow(non_camel_case_types)]
#[derive(Clone, Copy, Debug, PartialEq, PartialOrd)]
pub struct i256(pub [u64; 4]);

/// The number that four limbs stand for, the first the lowest.
pub open spec fn limbs_value(l0: u64, l1: u64, l2: u64, l3: u64) -> nat {
    (l0 + (l1 + (l2 + l3 * LIMB) * LIMB) * LIMB) as nat
}

impl u256 {
    /// The number that `self` is.
    pub open spec fn value(self) -> nat {
        limbs_value(self.0[0], self.0[1], self.0[2], self.0[3])
    }

    /// The largest value, `2^256 - 1`.
    pub fn max() -> (r: Self)
        ensures
            r.value() == LIMB * LIMB * LIMB * LIMB - 1,
    {
        assert((LIMB - 1) + ((LIMB - 1) + ((LIMB - 1) + (LIMB - 1) * LIMB) * LIMB) * LIMB == LIMB
            * LIMB * LIMB * LIMB - 1) by (nonlinear_arith);
        Self([u64::MAX, u64::MAX, u64::MAX, u64::MAX])
    }

    /// Reinterpret as a signed integer
    pub fn signed(self) -> (r: i256)
        ensures
            r.0 == self.0,
    {
        i256(self.0)
    }

    /// The low half.
    pub fn lo(self) -> (r: u128)
        ensures
            r == self.0[0] + self.0[1] * LIMB,
            r == self.value() % (LIMB * LIMB) as nat,
    {
        let ghost (l0, l1, l2, l3) = (self.0[0] as int, self.0[1] as int, self.0[2] as int, self.0[3] as int);
        proof {
            let l = LIMB as int;
            assert(l0 + (l1 + (l2 + l3 * l) * l) * l == (l2 + l3 * l) * (l * l) + (l0 + l1 * l))
                by (nonlinear_arith);
            assert(0 <= l0 + l1 * l < l * l) by (nonlinear_arith)
                requires 0 <= l0 < l, 0 <= l1 < l;
            crate::arith::lemma_div_mod_unique(self.value() as int, l * l, l2 + l3 * l, l0 + l1 * l);
        }
        self.0[0] as u128 + (self.0[1] as u128) * LIMB
    }

    /// The high half.
    pub fn hi(self) -> (r: u128)
        ensures
            r == self.0[2] + self.0[3] * LIMB,
            r == self.value() / (LIMB * LIMB) as nat,
    {
        let ghost (l0, l1, l2, l3) = (self.0[0] as int, self.0[1] as int, self.0[2] as int, self.0[3] as int);
        proof {
            let l = LIMB as int;
            assert(l0 + (l1 + (l2 + l3 * l) * l) * l == (l2 + l3 * l) * (l * l) + (l0 + l1 * l))
                by (nonlinear_arith);
            assert(0 <= l0 + l1 * l < l * l) by (nonlinear_arith)
                requires 0 <= l0 < l, 0 <= l1 < l;
            crate::arith::lemma_div_mod_unique(self.value() as int, l * l, l2 + l3 * l, l0 + l1 * l);
        }
        self.0[2] as u128 + (self.0[3] as u128) * LIMB
    }
}

impl i256 {
    /// The number that `self` is, in two's complement.
    pub open spec fn value(self) -> int {
        let u = limbs_value(self.0[0], self.0[1], self.0[2], self.0[3]);
        if self.0[3] >= 0x8000_0000_0000_0000 {
            u - LIMB * LIMB * LIMB * LIMB
        } else {
            u as int
        }
    }

    /// Reinterpret as an unsigned integer
    pub fn unsigned(self) -> (r: u256)
        ensures
            r.0 == self.0,
    {
        u256(self.0)
    }

    /// The low half, which is unsigned.
    pub fn lo(self) -> (r: u128)
        ensures
            r == self.0[0] + self.0[1] * LIMB,
    {
        self.0[0] as u128 + (self.0[1] as u128) * LIMB
    }

    /// The high half, which carries the sign.
    pub fn hi(self) -> (r: i128)
        ensures
            r == self.0[2] + self.0[3] * LIMB - (if self.0[3] >= 0x8000_0000_0000_0000 {
                LIMB * LIMB
            } else {
                0
            }),
    {
        if self.0[3] >= 0x8000_0000_0000_0000 {
            let top = (self.0[3] - 0x8000_0000_0000_0000) as i128;
            (self.0[2] as i128 + top * (LIMB as i128)) - 0x4000_0000_0000_0000_0000_0000_0000_0000
                - 0x4000_0000_0000_0000_0000_0000_0000_0000
        } else {
            self.0[2] as i128 + (self.0[3] as i128) * (LIMB as i128)
        }
    }
}

/// Widens a `u128` to 256 bits.
pub fn widen(x: u128) -> (r: u256)
    ensures
        r.value() == x,
{
    let w0 = (x % LIMB) as u64;
    let w1 = (x / LIMB) as u64;
    let r = u256([w0, w1, 0, 0]);
    assert(r.value() == x) by {
        assert(limbs_value(w0, w1, 0, 0) == w0 + w1 * LIMB) by (nonlinear_arith);
    }
    r
}

/// Widens a `u128` to 256 bits, the upper half zero.
pub fn zero_widen(x: u128) -> (r: u256)
    ensures
        r.value() == x,
{
    widen(x)
}

/// The full 256-bit product of two `u128`.
///
/// Each factor is split into two limbs; the four partial products are summed
/// limb by limb, with the carries propagated upward.
pub fn zero_widen_mul(a: u128, b: u128) -> (r: u256)
    ensures
        r.value() == a * b,
{
    let a0 = a % LIMB;
    let a1 = a / LIMB;
    let b0 = b % LIMB;
    let b1 = b / LIMB;
    proof {
        let m = LIMB - 1;
        assert(a0 * b0 <= m * m && a0 * b1 <= m * m && a1 * b0 <= m * m && a1 * b1 <= m * m)
            by (nonlinear_arith)
            requires 0 <= a0 <= m, 0 <= a1 <= m, 0 <= b0 <= m, 0 <= b1 <= m;
        assert(m * m == 0xffff_ffff_ffff_fffe_0000_0000_0000_0001) by (nonlinear_arith)
            requires m == 0xffff_ffff_ffff_ffff;
    }
    let p00 = a0 * b0;
    let p01 = a0 * b1;
    let p10 = a1 * b0;
    let p11 = a1 * b1;

    let limb0 = p00 % LIMB;
    // at most three limbs' worth: the carry is at most two
    let mid = p00 / LIMB + p01 % LIMB + p10 % LIMB;
    let limb1 = mid % LIMB;
    let hi = p11 + p01 / LIMB + p10 / LIMB + mid / LIMB;
    let limb2 = hi % LIMB;
    let limb3 = hi / LIMB;
    let r = u256([limb0 as u64, limb1 as u64, limb2 as u64, limb3 as u64]);
    proof {
        let l = LIMB as int;
        assert(a * b == (a0 + a1 * l) * (b0 + b1 * l));
        lemma_expand(a0 as int, a1 as int, b0 as int, b1 as int, l);
        assert(limb0 + (limb1 + (limb2 + limb3 * l) * l) * l == limb0 + limb1 * l + hi * (l * l))
            by (nonlinear_arith)
            requires hi == limb2 + limb3 * l;
        lemma_carry(
            p00 as int,
            p01 as int,
            p10 as int,
            p11 as int,
            (p00 / LIMB) as int,
            limb0 as int,
            (p01 / LIMB) as int,
            (p01 % LIMB) as int,
            (p10 / LIMB) as int,
            (p10 % LIMB) as int,
            (mid / LIMB) as int,
            limb1 as int,
            l,
        );
    }
    r
}

/// The product of two numbers of two limbs, by the partial products.
proof fn lemma_expand(a0: int, a1: int, b0: int, b1: int, l: int)
    ensures
        (a0 + a1 * l) * (b0 + b1 * l) == a0 * b0 + (a0 * b1 + a1 * b0) * l + (a1 * b1) * (l * l),
{
    let x = a1 * l;
    let y = b1 * l;
    assert((a0 + x) * (b0 + y) == a0 * b0 + a0 * y + x * b0 + x * y) by (nonlinear_arith);
    assert(a0 * y == (a0 * b1) * l) by (nonlinear_arith)
        requires y == b1 * l;
    assert(x * b0 == (a1 * b0) * l) by (nonlinear_arith)
        requires x == a1 * l;
    assert(x * y == (a1 * b1) * (l * l)) by (nonlinear_arith)
        requires x == a1 * l, y == b1 * l;
    assert((a0 * b1) * l + (a1 * b0) * l == (a0 * b1 + a1 * b0) * l) by (nonlinear_arith);
}

/// Summing the partial products limb by limb, with the carries moved up.
proof fn lemma_carry(
    p00: int,
    p01: int,
    p10: int,
    p11: int,
    c00: int,
    r00: int,
    c01: int,
    r01: int,
    c10: int,
    r10: int,
    cm: int,
    rm: int,
    l: int,
)
    requires
        p00 == c00 * l + r00,
        p01 == c01 * l + r01,
        p10 == c10 * l + r10,
        c00 + r01 + r10 == cm * l + rm,
    ensures
        p00 + (p01 + p10) * l + p11 * (l * l) == r00 + rm * l + (p11 + c01 + c10 + cm) * (l * l),
{
    assert(p00 + (p01 + p10) * l + p11 * (l * l) == r00 + rm * l + (p11 + c01 + c10 + cm) * (l
        * l)) by (nonlinear_arith)
        requires
            p00 == c00 * l + r00,
            p01 == c01 * l + r01,
            p10 == c10 * l + r10,
            c00 + r01 + r10 == cm * l + rm,
    ;
}

/// Two upper limbs of all ones add `2^256 - 2^128`.
proof fn lemma_sign_extension(w0: int, w1: int, l: int)
    ensures
        w0 + (w1 + ((l - 1) + (l - 1) * l) * l) * l == w0 + w1 * l + l * l * l * l - l * l,
{
    assert(w0 + (w1 + ((l - 1) + (l - 1) * l) * l) * l == w0 + w1 * l + l * l * l * l - l * l)
        by (nonlinear_arith);
}

/// The full 256-bit product of two `u128`.
pub fn widen_mul(a: u128, b: u128) -> (r: u256)
    ensures
        r.value() == a * b,
{
    zero_widen_mul(a, b)
}

/// Widens an `i128` to 256 bits, keeping its value.
pub fn widen_signed(x: i128) -> (r: i256)
    ensures
        r.value() == x,
{
    let negative = x < 0;
    // the two's complement pattern of `x` in 128 bits
    let bits: u128 = if negative {
        (x + i128::MAX + 1) as u128 + 0x8000_0000_0000_0000_0000_0000_0000_0000
    } else {
        x as u128
    };
    let w0 = (bits % LIMB) as u64;
    let w1 = (bits / LIMB) as u64;
    let r = if negative {
        i256([w0, w1, u64::MAX, u64::MAX])
    } else {
        i256([w0, w1, 0, 0])
    };
    proof {
        let l = LIMB as int;
        assert(limbs_value(w0, w1, 0, 0) == w0 + w1 * LIMB);
        lemma_sign_extension(w0 as int, w1 as int, l);
        assert(l * l == 0x1_0000_0000_0000_0000_0000_0000_0000_0000) by (nonlinear_arith)
            requires l == 0x1_0000_0000_0000_0000;
    }
    r
}

/// Widens an `i128` to 256 bits as if it were unsigned: the upper half is zero.
pub fn zero_widen_signed(x: u128) -> (r: i256)
    ensures
        r.unsigned_value() == x,
{
    let u = zero_widen(x);
    u.signed()
}

impl i256 {
    /// The number that the limbs are when read without a sign.
    pub open spec fn unsigned_value(self) -> nat {
        limbs_value(self.0[0], self.0[1], self.0[2], self.0[3])
    }
}

} // verus!
