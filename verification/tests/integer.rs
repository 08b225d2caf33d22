use softfp::integer::big::{i256, u256, widen, widen_mul, widen_signed, zero_widen, zero_widen_mul};
use softfp::integer::leading_zeros::{leading_zeros_default, leading_zeros_riscv};
use softfp::integer::{Int, LargeInt};

fn next(s: &mut u64) -> u64 {
    *s ^= *s << 13;
    *s ^= *s >> 7;
    *s ^= *s << 17;
    *s
}

#[test]
fn leading_zeros() {
    let mut s = 0x9216_d5d9_8979_fb1b;
    for _ in 0..100_000 {
        let r = next(&mut s);
        let x = r >> (next(&mut s) % 64);
        assert_eq!(leading_zeros_default(x), x.leading_zeros() as usize);
        assert_eq!(leading_zeros_riscv(x), x.leading_zeros() as usize);
        assert_eq!(leading_zeros_default(x as u32), (x as u32).leading_zeros() as usize);
        assert_eq!(leading_zeros_riscv(x as u32), (x as u32).leading_zeros() as usize);
        assert_eq!(leading_zeros_default(x as u16), (x as u16).leading_zeros() as usize);
        assert_eq!(leading_zeros_riscv(x as u16), (x as u16).leading_zeros() as usize);
    }
    assert_eq!(leading_zeros_default(0u32), 32);
    assert_eq!(leading_zeros_riscv(0u64), 64);
    assert_eq!(leading_zeros_default(u64::MAX), 0);
    assert_eq!(leading_zeros_riscv(1u16), 15);
}

#[test]
fn widening_multiplication() {
    assert_eq!(zero_widen_mul(0, u128::MAX), u256([0, 0, 0, 0]));
    assert_eq!(zero_widen_mul(1, u128::MAX), u256([u64::MAX, u64::MAX, 0, 0]));
    assert_eq!(
        zero_widen_mul(u128::MAX, u128::MAX),
        u256([1, 0, u64::MAX - 1, u64::MAX])
    );
    assert_eq!(zero_widen_mul(1 << 127, 2), u256([0, 0, 1, 0]));
    assert_eq!(widen_mul(1 << 64, 1 << 64), u256([0, 0, 1, 0]));
    // against the product modulo 2^128 and a few exact ones
    let mut s = 0x1f83_d9ab_fb41_bd6b;
    for _ in 0..100_000 {
        let a = ((next(&mut s) as u128) << 64) | next(&mut s) as u128;
        let b = ((next(&mut s) as u128) << 64) | next(&mut s) as u128;
        let p = zero_widen_mul(a, b);
        assert_eq!(p.lo(), a.wrapping_mul(b));
        assert_eq!(p, zero_widen_mul(b, a));
        // (a * b) / b == a, by long division of the four limbs
        let small = b >> 64 | 1;
        let q = zero_widen_mul(a, small);
        let mut rem: u128 = 0;
        let mut quo = [0u64; 4];
        for i in (0..4).rev() {
            let cur = (rem << 64) | q.0[i] as u128;
            quo[i] = (cur / small) as u64;
            rem = cur % small;
        }
        assert_eq!(rem, 0);
        assert_eq!(u256(quo).lo(), a);
        assert_eq!(u256(quo).hi(), 0);
    }
}

#[test]
fn halves_and_signs() {
    let x = u256([1, 2, 3, 4]);
    assert_eq!(x.lo(), (2u128 << 64) | 1);
    assert_eq!(x.hi(), (4u128 << 64) | 3);
    assert_eq!(x.signed(), i256([1, 2, 3, 4]));
    assert_eq!(x.signed().unsigned(), x);
    assert_eq!(u256::max(), u256([u64::MAX; 4]));
    assert_eq!(widen(u128::MAX), u256([u64::MAX, u64::MAX, 0, 0]));
    assert_eq!(zero_widen(7), u256([7, 0, 0, 0]));
    assert_eq!(widen_signed(-1), i256([u64::MAX; 4]));
    assert_eq!(widen_signed(-2).lo(), u128::MAX - 1);
    assert_eq!(widen_signed(-2).hi(), -1);
    assert_eq!(widen_signed(i128::MIN), i256([0, 1 << 63, u64::MAX, u64::MAX]));
    assert_eq!(widen_signed(5), i256([5, 0, 0, 0]));
    assert_eq!(i256([0, 0, 0, 1 << 63]).hi(), i128::MIN);
    assert_eq!(i256([0, 0, 7, 0]).hi(), 7);
}

#[test]
fn integer_traits() {
    assert_eq!(<u32 as Int>::bits(), 32);
    assert_eq!(<i64 as Int>::bits(), 64);
    assert_eq!((-25i32).init_float(), (true, 25u32));
    assert_eq!(25u32.init_float(), (false, 25u32));
    assert_eq!(i32::MIN.init_float(), (true, 1u32 << 31));
    assert_eq!(i64::MIN.init_float(), (true, 1u64 << 63));
    assert_eq!(i128::MIN.init_float(), (true, 1u128 << 127));
    assert_eq!(0i64.init_float(), (false, 0u64));
    assert_eq!(0x1234_5678_9abc_def0u64.low(), 0x9abc_def0);
    assert_eq!(0x1234_5678_9abc_def0u64.high(), 0x1234_5678);
    assert_eq!(u64::from_parts(0x9abc_def0, 0x1234_5678), 0x1234_5678_9abc_def0);
    assert_eq!((-2i64).low(), 0xffff_fffe);
    assert_eq!((-2i64).high(), -1);
    assert_eq!(i64::from_parts(0xffff_fffe, -1), -2);
    assert_eq!(i64::MIN.high(), i32::MIN);
    assert_eq!(i64::from_parts(0, i32::MIN), i64::MIN);
    assert_eq!(<u8 as Int>::from_u128(200), 200u8);
    assert_eq!(<i128 as Int>::from_i128(-3), -3);
    assert_eq!(7u16.to_u128(), 7);
    assert_eq!((-7i32).to_i128(), -7);
}

#[test]
fn double_words() {
    use_double_words();
}

fn use_double_words() {
    assert_eq!(widen_words(0xffu8, 0xffu8), (0x01, 0xfe));
    assert_eq!(widen_words(u64::MAX, u64::MAX), (1, u64::MAX - 1));
    assert_eq!(widen_words(0x1234_5678u32, 0), (0, 0));
    for hi in 0..=255u8 {
        for d in [1u8, 2, 3, 7, 100, 128, 255] {
            for lo in [0u8, 1, 77, 255] {
                let n = (hi as u32) << 8 | lo as u32;
                let got = narrow(lo, hi, d);
                if hi < d {
                    assert_eq!(got, Some(((n / d as u32) as u8, (n % d as u32) as u8)));
                } else {
                    assert_eq!(got, None);
                }
            }
        }
    }
    assert_eq!(narrow(0u64, 1, 0), None);
    assert_eq!(narrow(5u64, 1, 2), Some((0x8000_0000_0000_0002, 1)));
    assert_eq!(narrow(u32::MAX, u32::MAX - 1, u32::MAX), Some((u32::MAX, u32::MAX - 1)));
}

fn widen_words<U: Int>(a: U, b: U) -> (U, U) {
    softfp::support::int_traits::widen_mul(a, b)
}

fn narrow<U: Int>(lo: U, hi: U, d: U) -> Option<(U, U)> {
    softfp::support::int_traits::checked_narrowing_div_rem(lo, hi, d)
}
