//! Arithmetic facts shared by the whole crate: powers of two, Euclidean
//! division, and the bridge between bit operations on `u128` and their
//! meaning on natural numbers.

use vstd::prelude::*;
use vstd::arithmetic::power2::*;
use vstd::arithmetic::div_mod::*;
use vstd::bits::*;

verus! {

/// `2^n` is positive, and the powers of two are ordered like their exponents.
pub proof fn lemma_pow2_le(a: nat, b: nat)
    requires
        a <= b,
    ensures
        0 < pow2(a) <= pow2(b),
{
    lemma_pow2_pos(a);
    if a < b {
        lemma_pow2_strictly_increases(a, b);
    }
}

/// `2^a = 2^b * 2^(a-b)` for `b <= a`.
pub proof fn lemma_pow2_split(a: nat, b: nat)
    requires
        b <= a,
    ensures
        pow2(a) == pow2(b) * pow2((a - b) as nat),
        pow2(b) > 0,
        pow2((a - b) as nat) > 0,
{
    lemma_pow2_adds(b, (a - b) as nat);
    lemma_pow2_pos(b);
    lemma_pow2_pos((a - b) as nat);
}

/// The values of the powers of two at the word sizes this crate uses.
pub proof fn lemma_pow2_values()
    ensures
        pow2(0) == 1,
        pow2(1) == 2,
        pow2(2) == 4,
        pow2(3) == 8,
        pow2(4) == 16,
        pow2(5) == 32,
        pow2(7) == 128,
        pow2(8) == 0x100,
        pow2(10) == 0x400,
        pow2(14) == 0x4000,
        pow2(15) == 0x8000,
        pow2(16) == 0x1_0000,
        pow2(31) == 0x8000_0000,
        pow2(32) == 0x1_0000_0000,
        pow2(63) == 0x8000_0000_0000_0000,
        pow2(64) == 0x1_0000_0000_0000_0000,
        pow2(127) == 0x8000_0000_0000_0000_0000_0000_0000_0000,
        pow2(128) == 0x1_0000_0000_0000_0000_0000_0000_0000_0000,
{
    lemma2_to64();
    lemma2_to64_rest();
    lemma_pow2_adds(63, 64);
    lemma_pow2_adds(64, 64);
}

/// Quotient and remainder are determined by `x = q * d + r` with `0 <= r < d`.
pub proof fn lemma_div_mod_unique(x: int, d: int, q: int, r: int)
    requires
        d > 0,
        0 <= r < d,
        x == q * d + r,
    ensures
        x / d == q,
        x % d == r,
{
    lemma_fundamental_div_mod_converse(x, d, q, r);
}

/// `x = (x / d) * d + x % d` with the usual bounds, in the form most proofs here want.
pub proof fn lemma_div_mod(x: int, d: int)
    requires
        d > 0,
    ensures
        x == (x / d) * d + x % d,
        0 <= x % d < d,
        x >= 0 ==> x / d >= 0,
        x >= 0 ==> (x / d) * d <= x,
{
    lemma_fundamental_div_mod(x, d);
    lemma_mod_bound(x, d);
    assert((x / d) * d == d * (x / d)) by (nonlinear_arith);
    if x >= 0 {
        lemma_div_pos_is_pos(x, d);
    }
}

/// A common factor cancels in a quotient, and scales the remainder.
pub proof fn lemma_div_mod_scale(x: int, d: int, c: int)
    requires
        x >= 0,
        d > 0,
        c > 0,
    ensures
        (x * c) / (d * c) == x / d,
        (x * c) % (d * c) == (x % d) * c,
        d * c > 0,
{
    lemma_div_mod(x, d);
    let q = x / d;
    let r = x % d;
    assert(d * c > 0) by (nonlinear_arith)
        requires d > 0, c > 0;
    assert(x * c == q * (d * c) + r * c) by (nonlinear_arith)
        requires x == q * d + r;
    assert(0 <= r * c < d * c) by (nonlinear_arith)
        requires 0 <= r < d, c > 0;
    lemma_div_mod_unique(x * c, d * c, q, r * c);
}

/// Dividing by a product is dividing twice.
pub proof fn lemma_div_div(x: int, a: int, b: int)
    requires
        x >= 0,
        a > 0,
        b > 0,
    ensures
        (x / a) / b == x / (a * b),
        a * b > 0,
{
    lemma_div_denominator(x, a, b);
    assert(a * b > 0) by (nonlinear_arith)
        requires a > 0, b > 0;
}

/// Multiples of the divisor are the numbers with remainder zero.
pub proof fn lemma_mod_multiple(q: int, d: int)
    requires
        d > 0,
    ensures
        (q * d) % d == 0,
        (q * d) / d == q,
{
    lemma_div_mod_unique(q * d, d, q, 0);
}

/// Shifting a `u128` left by `s` multiplies by `2^s` when nothing is shifted out.
pub proof fn lemma_u128_shl(x: u128, s: u128)
    requires
        s < 128,
        x * pow2(s as nat) < pow2(128),
    ensures
        (x << s) == x * pow2(s as nat),
    decreases s,
{
    lemma_pow2_values();
    if s == 0 {
        assert(x << 0u128 == x) by (bit_vector);
        assert(x * pow2(0) == x);
    } else {
        let t = (s - 1) as u128;
        lemma_pow2_unfold(s as nat);
        assert(x * pow2(s as nat) == 2 * (x * pow2(t as nat))) by (nonlinear_arith)
            requires pow2(s as nat) == 2 * pow2(t as nat);
        lemma_u128_shl(x, t);
        let y = x << t;
        assert(y < 0x8000_0000_0000_0000_0000_0000_0000_0000u128);
        assert(x * pow2(s as nat) == 2 * y);
        assert(x << s == (x << t) * 2) by (bit_vector)
            requires s == t + 1, s < 128, (x << t) < 0x8000_0000_0000_0000_0000_0000_0000_0000u128;
    }
}

/// Shifting a `u128` right by `s` divides by `2^s`.
pub proof fn lemma_u128_shr(x: u128, s: u128)
    requires
        s < 128,
    ensures
        (x >> s) == x as nat / pow2(s as nat),
{
    lemma_u128_shr_is_div(x, s);
}

/// `1 << s` is `2^s`.
pub proof fn lemma_u128_one_shl(s: u128)
    requires
        s < 128,
    ensures
        (1u128 << s) == pow2(s as nat),
        pow2(s as nat) < pow2(128),
{
    lemma_pow2_strictly_increases(s as nat, 128);
    lemma_u128_shl(1, s);
}

/// Masking with `2^k - 1` keeps the remainder modulo `2^k`.
pub proof fn lemma_u128_and_mask(x: u128, k: u128)
    requires
        k < 128,
    ensures
        x & ((pow2(k as nat) - 1) as u128) == x as nat % pow2(k as nat),
        pow2(k as nat) - 1 < pow2(128),
{
    lemma_u128_one_shl(k);
    lemma_pow2_pos(k as nat);
    let m = ((1u128 << k) - 1) as u128;
    let q = x >> k;
    lemma_u128_shr(x, k);
    lemma_div_mod(x as int, pow2(k as nat) as int);
    lemma_pow2_values();
    lemma_u128_shl(q, k);
    assert(x & m == x - (q << k)) by (bit_vector)
        requires k < 128, m == (1u128 << k) - 1, q == x >> k;
}

/// Clearing the bits selected by a mask subtracts them.
pub proof fn lemma_u128_xor_clear(x: u128, m: u128)
    ensures
        x ^ (x & m) == x - (x & m),
        (x & m) <= x,
{
    assert(x ^ (x & m) == x - (x & m)) by (bit_vector);
    assert((x & m) <= x) by (bit_vector);
}

/// Masking with the complement of a mask subtracts the masked bits.
pub proof fn lemma_u128_and_not(x: u128, m: u128)
    ensures
        x & !m == x - (x & m),
{
    assert(x & !m == x - (x & m)) by (bit_vector);
}

/// Setting the lowest bit of an even number adds one; an odd number keeps it.
pub proof fn lemma_u128_or_one(x: u128)
    ensures
        x | 1 == (if x % 2 == 0 { x + 1 } else { x as int }),
        x | 0 == x,
{
    assert(x | 1 == (if x % 2 == 0 { x + 1 } else { x as int })) by (bit_vector);
    assert(x | 0 == x) by (bit_vector);
}

/// A number that shares no bit with its predecessor has a single bit set.
pub proof fn lemma_u128_single_bit(y: u128, j: u128)
    requires
        j < 128,
        pow2(j as nat) <= y < 2 * pow2(j as nat),
    ensures
        (y & ((y - 1) as u128)) == 0 <==> y == pow2(j as nat),
{
    lemma_u128_one_shl(j);
    lemma_u128_shr(y, j);
    lemma_pow2_pos(j as nat);
    lemma_div_mod_unique(y as int, pow2(j as nat) as int, 1, y - pow2(j as nat));
    let p = 1u128 << j;
    let z = (y - 1) as u128;
    assert((y & z) == 0 <==> y == p) by (bit_vector)
        requires j < 128, p == 1u128 << j, (y >> j) == 1, z == y - 1;
}

} // verus!

verus! {

/// The number of bits needed to write `x`: zero for zero, else one more than
/// the position of the highest set bit.
pub open spec fn bit_length(x: nat) -> nat
    decreases x,
{
    if x == 0 {
        0
    } else {
        bit_length(x / 2) + 1
    }
}

/// A positive `x` lies in `[2^(n-1), 2^n)` for `n = bit_length(x)`.
pub proof fn lemma_bit_length(x: nat)
    ensures
        x == 0 <==> bit_length(x) == 0,
        x > 0 ==> pow2((bit_length(x) - 1) as nat) <= x < pow2(bit_length(x)),
    decreases x,
{
    lemma_pow2_values();
    if x > 1 {
        lemma_bit_length(x / 2);
        lemma_pow2_unfold(bit_length(x));
        lemma_pow2_unfold(bit_length(x / 2));
    } else if x == 1 {
        assert(bit_length(0) == 0);
        assert(bit_length(1) == 1);
    }
}

/// The only `n` with `2^(n-1) <= x < 2^n` is `bit_length(x)`.
pub proof fn lemma_bit_length_unique(x: nat, n: nat)
    requires
        n >= 1,
        pow2((n - 1) as nat) <= x < pow2(n),
    ensures
        bit_length(x) == n,
{
    lemma_bit_length(x);
    lemma_pow2_pos((n - 1) as nat);
    let b = bit_length(x);
    if b < n {
        lemma_pow2_le(b, (n - 1) as nat);
    } else if b > n {
        lemma_pow2_le(n, (b - 1) as nat);
    }
}

/// Dropping `s` low bits of a number that has higher bits shortens it by `s`.
pub proof fn lemma_bit_length_shift(x: nat, s: nat)
    requires
        x >= pow2(s),
    ensures
        bit_length(x) == bit_length(x / pow2(s)) + s,
{
    lemma_pow2_pos(s);
    let q = x / pow2(s);
    lemma_div_mod(x as int, pow2(s) as int);
    let p = pow2(s) as int;
    let r = x as int % p;
    assert(q >= 1) by {
        if q == 0 {
            assert((q as int) * p == 0) by (nonlinear_arith)
                requires q == 0;
        }
    }
    lemma_bit_length(q);
    let n = bit_length(q);
    lemma_pow2_adds((n - 1) as nat, s);
    lemma_pow2_adds(n, s);
    assert(pow2((n - 1) as nat) * pow2(s) <= x < pow2(n) * pow2(s)) by (nonlinear_arith)
        requires
            x == q * pow2(s) + x % pow2(s),
            0 <= x % pow2(s) < pow2(s),
            pow2((n - 1) as nat) <= q < pow2(n),
    ;
    lemma_bit_length_unique(x, n + s);
}

/// One step of a bisection for the highest set bit: of a number `v` below
/// `2^(2s)`, either the upper half `v / 2^s` is not zero, and `v` is `s`
/// bits longer than it, or `v` is below `2^s`.
pub proof fn lemma_bisect(v: nat, s: nat)
    requires
        v < pow2(2 * s),
    ensures
        v / pow2(s) < pow2(s),
        v / pow2(s) != 0 ==> bit_length(v) == bit_length(v / pow2(s)) + s,
        v / pow2(s) == 0 <==> v < pow2(s),
{
    lemma_pow2_adds(s, s);
    lemma_pow2_pos(s);
    lemma_div_mod(v as int, pow2(s) as int);
    let p = pow2(s) as int;
    let t = v as int / p;
    let low = v as int % p;
    assert(t < p) by (nonlinear_arith)
        requires v == t * p + low, 0 <= low, v < p * p, p > 0;
    if t != 0 {
        assert(v >= p) by (nonlinear_arith)
            requires v == t * p + low, 0 <= low, t >= 1, p > 0;
        lemma_bit_length_shift(v, s);
    } else {
        assert(t * p == 0) by (nonlinear_arith)
            requires t == 0;
    }
}

fn bisect(v: u128, n: u32, s: u32, Ghost(x): Ghost<nat>) -> (r: (u128, u32))
    requires
        1 <= s <= 64,
        v < pow2(2 * s as nat),
        n + 2 * s <= 128,
        bit_length(x) == n + bit_length(v as nat),
    ensures
        r.0 < pow2(s as nat),
        r.1 <= n + s,
        bit_length(x) == r.1 + bit_length(r.0 as nat),
{
    let t = v >> s;
    proof {
        lemma_u128_shr(v, s as u128);
        lemma_pow2_adds(s as nat, s as nat);
        lemma_pow2_pos(s as nat);
        lemma_div_mod(v as int, pow2(s as nat) as int);
        let p = pow2(s as nat) as int;
        assert(t < p) by (nonlinear_arith)
            requires v == t * p + v as int % p, 0 <= v as int % p, v < p * p, p > 0;
        if t != 0 {
            assert(v >= p) by (nonlinear_arith)
                requires v == t * p + v as int % p, 0 <= v as int % p, t >= 1, p > 0;
            lemma_bit_length_shift(v as nat, s as nat);
        } else {
            assert((t as int) * p == 0) by (nonlinear_arith)
                requires t == 0;
        }
    }
    if t != 0 {
        (t, n + s)
    } else {
        (v, n)
    }
}

/// Computes `bit_length` of a `u128` by bisection.
pub fn bit_length_u128(x: u128) -> (n: u32)
    ensures
        n == bit_length(x as nat),
        n <= 128,
{
    proof {
        lemma_pow2_values();
    }
    let (v, n) = bisect(x, 0, 64, Ghost(x as nat));
    let (v, n) = bisect(v, n, 32, Ghost(x as nat));
    let (v, n) = bisect(v, n, 16, Ghost(x as nat));
    let (v, n) = bisect(v, n, 8, Ghost(x as nat));
    let (v, n) = bisect(v, n, 4, Ghost(x as nat));
    let (v, n) = bisect(v, n, 2, Ghost(x as nat));
    let (v, n) = bisect(v, n, 1, Ghost(x as nat));
    proof {
        assert(bit_length(0) == 0);
        assert(bit_length(1) == 1) by {
            assert(bit_length(1) == bit_length(0) + 1);
        }
    }
    n + (v as u32)
}

/// `2^s` as a `u128`.
pub fn pow2_u128(s: u32) -> (r: u128)
    requires
        s < 128,
    ensures
        r == pow2(s as nat),
        r >= 1,
{
    proof {
        lemma_u128_one_shl(s as u128);
        lemma_pow2_pos(s as nat);
    }
    1u128 << s
}

/// `x * 2^s`, for a product that fits.
pub fn shl_u128(x: u128, s: u32) -> (r: u128)
    requires
        s < 128,
        x * pow2(s as nat) < pow2(128),
    ensures
        r == x * pow2(s as nat),
{
    proof {
        lemma_u128_shl(x, s as u128);
    }
    x << s
}

/// `x / 2^s`.
pub fn shr_u128(x: u128, s: u32) -> (r: u128)
    requires
        s < 128,
    ensures
        r == x as nat / pow2(s as nat),
        r <= x,
{
    proof {
        lemma_u128_shr(x, s as u128);
        lemma_pow2_pos(s as nat);
        lemma_div_mod(x as int, pow2(s as nat) as int);
        let p = pow2(s as nat) as int;
        let q = x as int / p;
        assert(q <= x) by (nonlinear_arith)
            requires x == q * p + x as int % p, 0 <= x as int % p, p >= 1, q >= 0;
    }
    x >> s
}

/// `x mod 2^s`.
pub fn low_bits_u128(x: u128, s: u32) -> (r: u128)
    requires
        s < 128,
    ensures
        r == x as nat % pow2(s as nat),
{
    proof {
        lemma_u128_and_mask(x, s as u128);
        lemma_u128_one_shl(s as u128);
        lemma_pow2_pos(s as nat);
    }
    x & ((1u128 << s) - 1)
}

} // verus!
