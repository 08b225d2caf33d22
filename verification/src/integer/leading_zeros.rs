//! Counting leading zeros without a hardware instruction.
//!
//! These functions happen to produce the correct count for zero without an
//! explicit zero check.

use vstd::prelude::*;
use vstd::arithmetic::power2::*;
use crate::arith::{bit_length, lemma_bisect, lemma_pow2_values, shr_u128};
use crate::integer::Int;

verus! {

/// The number of leading zeros of the value `x` in a word of `bits` bits.
pub open spec fn leading_zeros(bits: nat, x: nat) -> int {
    bits - bit_length(x)
}

/// Returns the number of leading binary zeros in `x`.
pub fn leading_zeros_default<T: Int>(x: T) -> (r: usize)
    requires
        !T::spec_signed(),
        T::spec_bits() == 16 || T::spec_bits() == 32 || T::spec_bits() == 64,
    ensures
        r == leading_zeros(T::spec_bits(), x.value() as nat),
{
    // The basic idea is to test if the higher bits of `x` are zero and bisect the number
    // of leading zeros. It is possible for all branches of the bisection to use the same
    // code path by conditionally shifting the higher parts down to let the next bisection
    // step work on the higher or lower parts of `x`. Instead of starting with `z == 0`
    // and adding to the number of zeros, it is slightly faster to start with
    // `z == usize::MAX.count_ones()` and subtract from the potential number of zeros,
    // because it simplifies the final bisection step.
    let ghost x0 = x.value() as nat;
    proof {
        x.lemma_int();
        lemma_pow2_values();
    }
    let mut x = x.to_u128();
    // the number of potential leading zeros
    let mut z = T::bits() as usize;
    // a temporary
    let mut t: u128;

    if T::bits() >= 64 {
        proof {
            lemma_bisect(x as nat, 32);
        }
        t = shr_u128(x, 32);
        if t != 0 {
            z -= 32;
            x = t;
        }
    }
    if T::bits() >= 32 {
        proof {
            lemma_bisect(x as nat, 16);
        }
        t = shr_u128(x, 16);
        if t != 0 {
            z -= 16;
            x = t;
        }
    }
    proof {
        lemma_bisect(x as nat, 8);
    }
    t = shr_u128(x, 8);
    if t != 0 {
        z -= 8;
        x = t;
    }
    proof {
        lemma_bisect(x as nat, 4);
    }
    t = shr_u128(x, 4);
    if t != 0 {
        z -= 4;
        x = t;
    }
    proof {
        lemma_bisect(x as nat, 2);
    }
    t = shr_u128(x, 2);
    if t != 0 {
        z -= 2;
        x = t;
    }
    // the last two bisections are combined into one conditional
    proof {
        lemma_bisect(x as nat, 1);
        lemma_short(x as nat);
    }
    t = shr_u128(x, 1);
    if t != 0 {
        z - 2
    } else {
        z - x as usize
    }
}

/// A bisection step that shifts by the whole half or not at all.
proof fn lemma_step(x: nat, t: nat, s: nat)
    requires
        x < pow2(2 * s),
        t == (if x >= pow2(s) { s } else { 0 }),
    ensures
        x / pow2(t) < pow2(s),
        bit_length(x) == bit_length(x / pow2(t)) + t,
{
    lemma_bisect(x, s);
    lemma_pow2_values();
    if t == 0 {
        assert(x / 1 == x);
    }
}

/// The lengths of the numbers below four.
proof fn lemma_short(x: nat)
    requires
        x < 4,
    ensures
        bit_length(x) == (if x >= 2 { 2 } else { x }),
{
    assert(bit_length(0) == 0);
    assert(bit_length(1) == bit_length(0) + 1);
    assert(bit_length(2) == bit_length(1) + 1);
    assert(bit_length(3) == bit_length(1) + 1);
}

/// One bisection step without a branch on the data: where `x` reaches
/// `2^s`, the upper part is shifted down and `s` is taken off the number `z`
/// of potential leading zeros.
fn halve(x: u128, z: u32, s: u32) -> (r: (u128, u32))
    requires
        1 <= s <= 32,
        x < pow2(2 * s as nat),
        z >= 2 * s,
    ensures
        r.0 < pow2(s as nat),
        r.1 >= s,
        r.1 + bit_length(x as nat) == z + bit_length(r.0 as nat),
{
    // If the upper `s` bits of `x` are not all 0, `t` is set to `s`, otherwise
    // `t` is set to 0.
    let t = if x >= crate::arith::pow2_u128(s) {
        s
    } else {
        0
    };
    proof {
        lemma_step(x as nat, t as nat, s as nat);
    }
    // If `t` was set to `s`, then the upper bits are shifted down for the
    // next step to process, and `s` is subtracted from the number of potential
    // leading zeros
    (shr_u128(x, t), z - t)
}

/// Returns the number of leading binary zeros in `x`.
///
/// This method bisects with a step that is either the whole half or
/// nothing, which compiles to a conditional set where there is no
/// predicated instruction.
pub fn leading_zeros_riscv<T: Int>(x: T) -> (r: usize)
    requires
        !T::spec_signed(),
        T::spec_bits() == 16 || T::spec_bits() == 32 || T::spec_bits() == 64,
    ensures
        r == leading_zeros(T::spec_bits(), x.value() as nat),
{
    let ghost x0 = x.value() as nat;
    proof {
        x.lemma_int();
        lemma_pow2_values();
    }
    let mut x = x.to_u128();
    // the number of potential leading zeros
    let mut z = T::bits();
    if T::bits() >= 64 {
        let (xn, zn) = halve(x, z, 32);
        x = xn;
        z = zn;
    }
    if T::bits() >= 32 {
        let (xn, zn) = halve(x, z, 16);
        x = xn;
        z = zn;
    }
    let (x, z) = halve(x, z, 8);
    let (x, z) = halve(x, z, 4);
    let (x, z) = halve(x, z, 2);
    let (x, z) = halve(x, z, 1);
    // All bits except the LSB are guaranteed to be zero for this final bisection step.
    // If `x != 0` then `x == 1` and subtracts one potential zero from `z`.
    proof {
        lemma_short(x as nat);
    }
    z as usize - x as usize
}

} // verus!
