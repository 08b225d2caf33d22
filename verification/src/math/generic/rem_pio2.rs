//! The decisions of the reduction of a binary64 argument modulo pi/2.
//!
//! The reduction itself is floating-point arithmetic. What is decided on the
//! bit pattern of the argument is decided here: which of the three regimes
//! an argument falls in, how a large argument is cut into digits for the
//! multi-word reduction, and when a medium argument's remainder has lost so
//! many bits to cancellation that another round of correction is due.

use vstd::prelude::*;
use vstd::arithmetic::power2::*;
use crate::float::{format_of, Float};
use crate::float::formats::F64;
use crate::float::model::{lemma_field_bits, lemma_fields, lemma_format_basics};

verus! {

/// High word of the binary64 nearest below `3 pi / 4`.
pub const FRAC_3PI_4_HI: u32 = 0x4002d97c;

/// High word of `5 pi / 4`.
pub const FRAC_5PI_4_HI: u32 = 0x400f6a7a;

/// High word of `3 pi / 2`.
pub const FRAC_3PI_2_HI: u32 = 0x4012d97c;

/// High word of `7 pi / 4`.
pub const FRAC_7PI_4_HI: u32 = 0x4015fdbc;

/// High word of `2 pi`.
pub const TAU_HI: u32 = 0x401921fb;

/// High word of `9 pi / 4`.
pub const FRAC_9PI_4_HI: u32 = 0x401c463b;

/// The fraction bits of the high word of `pi / 2`, and of `pi`.
pub const FRAC_PI_2_HI: u32 = 0x921fb;

/// High word of `2^20 * pi / 2`.
pub const FRAC_2_POW_20_PI_2: u32 = 0x413921fb;

/// The exponent gap between argument and remainder above which the first
/// round of a medium reduction, good to 85 bits, is followed by a second.
pub const SECOND_ROUND_GAP: i32 = 16;

/// The gap above which the second round, good to 118 bits, is followed by a
/// third, which is good to 151 bits and covers all cases.
pub const THIRD_ROUND_GAP: i32 = 49;

/// The exponent given to a large argument before it is cut into digits: the
/// digits have 24 bits.
pub const MAGIC: u32 = 23;

/// How an argument is reduced.
#[derive(Clone, Copy, PartialEq, Eq, Structural, Debug)]
pub enum Regime {
    /// By subtracting `n * pi / 2` directly, for `n` from -4 to 4 without 0.
    Near { n: i32 },
    /// By rounding `x * 2 / pi` to a whole number and subtracting in up to
    /// three rounds.
    Medium,
    /// The argument is an infinity or a NaN: there is nothing to reduce.
    NotFinite,
    /// By the multi-word reduction on digits of base `2^24`.
    Large,
}

/// The high word of the magnitude of a binary64 pattern.
pub open spec fn high_word(bits: u64) -> u32 {
    ((bits as nat / 0x1_0000_0000) % 0x8000_0000) as u32
}

/// The regime of an argument, by the high word `ix` of its magnitude and its sign.
pub open spec fn regime_of(ix: u32, negative: bool) -> Regime {
    let sign: i32 = if negative { -1i32 } else { 1i32 };
    if ix <= FRAC_5PI_4_HI {
        // |x| ~<= 5pi/4
        if ix % 0x10_0000 == FRAC_PI_2_HI {
            // |x| ~= pi/2 or 2pi/2: cancellation
            Regime::Medium
        } else if ix <= FRAC_3PI_4_HI {
            Regime::Near { n: sign }
        } else {
            Regime::Near { n: (2 * sign) as i32 }
        }
    } else if ix <= FRAC_9PI_4_HI {
        // |x| ~<= 9pi/4
        if ix <= FRAC_7PI_4_HI {
            if ix == FRAC_3PI_2_HI {
                // |x| ~= 3pi/2
                Regime::Medium
            } else {
                Regime::Near { n: (3 * sign) as i32 }
            }
        } else if ix == TAU_HI {
            // |x| ~= 4pi/2
            Regime::Medium
        } else {
            Regime::Near { n: (4 * sign) as i32 }
        }
    } else if ix < FRAC_2_POW_20_PI_2 {
        // |x| ~< 2^20*(pi/2), medium size
        Regime::Medium
    } else if ix >= 0x7ff0_0000 {
        Regime::NotFinite
    } else {
        Regime::Large
    }
}

/// Selects the regime in which `x` is reduced.
pub fn regime(x: F64) -> (r: Regime)
    ensures
        r == regime_of(high_word(x.raw), x.raw >= 0x8000_0000_0000_0000),
        r == Regime::NotFinite <==> !format_of::<F64>().is_finite(x.spec_repr()),
        r matches Regime::Near { n } ==> 1 <= n <= 4 || -4 <= n <= -1,
{
    let bits = x.raw;
    let ix = ((bits / 0x1_0000_0000) % 0x8000_0000) as u32;
    let pos = bits < 0x8000_0000_0000_0000;
    proof {
        let fmt = format_of::<F64>();
        F64::lemma_format();
        x.lemma_repr();
        lemma_format_basics(fmt);
        lemma_fields(fmt, x.spec_repr());
        lemma2_to64();
        lemma2_to64_rest();
        assert(fmt.exp_mask() == 0x7ff * 0x10_0000_0000_0000);
    }
    let sign: i32 = if pos {
        1
    } else {
        -1
    };
    if ix <= FRAC_5PI_4_HI {
        if ix % 0x10_0000 == FRAC_PI_2_HI {
            return Regime::Medium;
        }
        if ix <= FRAC_3PI_4_HI {
            return Regime::Near { n: sign };
        }
        return Regime::Near { n: 2 * sign };
    }
    if ix <= FRAC_9PI_4_HI {
        if ix <= FRAC_7PI_4_HI {
            if ix == FRAC_3PI_2_HI {
                return Regime::Medium;
            }
            return Regime::Near { n: 3 * sign };
        }
        if ix == TAU_HI {
            return Regime::Medium;
        }
        return Regime::Near { n: 4 * sign };
    }
    if ix < FRAC_2_POW_20_PI_2 {
        return Regime::Medium;
    }
    if ix >= 0x7ff0_0000 {
        return Regime::NotFinite;
    }
    Regime::Large
}

/// Whether the remainder `y0` of a medium reduction has lost more than
/// `gap` bits against the argument, whose magnitude has the high word `ix`:
/// whether the exponent of the argument exceeds that of `y0` by more than
/// `gap`.
pub fn lost_more_than(ix: u32, y0: F64, gap: i32) -> (r: bool)
    requires
        ix < 0x8000_0000,
        -0x1000 <= gap <= 0x1000,
    ensures
        r == (ix as int / 0x10_0000 - format_of::<F64>().exp_field(y0.spec_repr()) > gap),
{
    proof {
        F64::lemma_format();
        lemma_format_basics(format_of::<F64>());
    }
    let ey = y0.ex() as i32;
    let ex = (ix / 0x10_0000) as i32;
    ex - ey > gap
}

/// A large argument cut into digits: the digits of base `2^24`, the first the
/// highest, how many of them there are up to the last that is not zero, and
/// the power of two of the first.
pub struct Digits {
    pub tx: [u32; 3],
    pub len: usize,
    pub e0: i32,
}

/// Cuts the magnitude of a large argument into digits of base `2^24` for the
/// multi-word reduction: the 53 bits of the significand make a first digit
/// of 24 bits, a second of 24, and a third that holds the last 5 at its top.
/// The magnitude is `tx[0] * 2^e0 + tx[1] * 2^(e0 - 24) + tx[2] * 2^(e0 - 48)`.
pub fn large_digits(x: F64) -> (r: Digits)
    requires
        format_of::<F64>().is_finite(x.spec_repr()),
        format_of::<F64>().exp_field(x.spec_repr()) >= 1,
    ensures
        r.tx[0] * 0x1_0000_0000_0000 + r.tx[1] * 0x100_0000 + r.tx[2] == (0x10_0000_0000_0000
            + format_of::<F64>().frac(x.spec_repr())) * 0x8_0000,
        0x80_0000 <= r.tx[0] < 0x100_0000,
        r.tx[1] < 0x100_0000,
        r.tx[2] < 0x100_0000,
        r.e0 == format_of::<F64>().exp_field(x.spec_repr()) - 1023 - MAGIC,
        1 <= r.len <= 3,
        r.len < 3 ==> r.tx[2] == 0,
        r.len < 2 ==> r.tx[1] == 0,
        r.len > 1 ==> r.tx[r.len - 1] != 0,
{
    proof {
        let fmt = format_of::<F64>();
        F64::lemma_format();
        x.lemma_repr();
        lemma_format_basics(fmt);
        lemma_fields(fmt, x.spec_repr());
        lemma_field_bits(fmt, x.spec_repr());
        lemma2_to64();
        lemma2_to64_rest();
    }
    let frac = x.raw % 0x10_0000_0000_0000;
    let sig = 0x10_0000_0000_0000 + frac;
    let ex = x.ex();
    // set z = scalbn(|x|, -ilogb(x) + 23): its whole part is the first digit
    let t0 = (sig / 0x2000_0000) as u32;
    let rest = sig % 0x2000_0000;
    let t1 = (rest / 0x20) as u32;
    let t2 = ((rest % 0x20) * 0x8_0000) as u32;
    // skip zero terms, first term is non-zero
    let len: usize = if t2 != 0 {
        3
    } else if t1 != 0 {
        2
    } else {
        1
    };
    Digits { tx: [t0, t1, t2], len, e0: ex as i32 - (1023 + MAGIC) as i32 }
}

} // verus!
