//! The integer abstraction: what the float routines ask of an integer type.
//!
//! The generic routines compute on `u128` (or `i128`) carriers and go through
//! [`Int`] to get a word out of its type and back into it.

pub mod big;
pub mod leading_zeros;

use vstd::prelude::*;
use vstd::arithmetic::power2::*;
use crate::arith::lemma_pow2_values;

verus! {

/// The largest value of the integer type `I`.
pub open spec fn int_max<I: Int>() -> int {
    if I::spec_signed() {
        pow2((I::spec_bits() - 1) as nat) - 1
    } else {
        pow2(I::spec_bits()) - 1
    }
}

/// The least value of the integer type `I`.
pub open spec fn int_min<I: Int>() -> int {
    if I::spec_signed() {
        -(pow2((I::spec_bits() - 1) as nat) as int)
    } else {
        0
    }
}

/// Trait for some basic operations on integers
pub trait Int: Copy + Sized {
    /// Unsigned version of Self
    type UnsignedInt;

    /// The bitwidth of the type.
    spec fn spec_bits() -> nat;

    /// Whether the type has negative values.
    spec fn spec_signed() -> bool;

    /// The number that `self` is.
    spec fn value(self) -> int;

    /// The number that a value of the unsigned version is.
    spec fn unsigned_value(u: Self::UnsignedInt) -> nat;

    /// The width is a whole number of bytes up to sixteen, and every value
    /// is in the range of its width and signedness.
    proof fn lemma_int(self)
        ensures
            8 <= Self::spec_bits() <= 128,
            Self::spec_bits() % 8 == 0,
            Self::spec_signed() ==> -pow2((Self::spec_bits() - 1) as nat) <= self.value() < pow2(
                (Self::spec_bits() - 1) as nat,
            ),
            !Self::spec_signed() ==> 0 <= self.value() < pow2(Self::spec_bits()),
    ;

    /// Returns the bitwidth of the int type
    fn bits() -> (r: u32)
        ensures
            r == Self::spec_bits(),
    ;

    /// Extracts the sign from self and returns a tuple.
    ///
    /// This is used by the module float to prepare conversions.
    /// This is needed by the generic code supporting signed and unsigned conversions.
    fn init_float(self) -> (r: (bool, Self::UnsignedInt))
        ensures
            r.0 == (self.value() < 0),
            Self::unsigned_value(r.1) == (if self.value() < 0 {
                -self.value()
            } else {
                self.value()
            }),
    ;

    /// A value of the unsigned version on the unsigned carrier.
    fn unsigned_to_u128(u: Self::UnsignedInt) -> (r: u128)
        ensures
            r == Self::unsigned_value(u),
    ;

    /// The value on the unsigned carrier, for a value that is not negative.
    fn to_u128(self) -> (r: u128)
        requires
            self.value() >= 0,
        ensures
            r == self.value(),
    ;

    /// The value on the signed carrier, for a value that fits it.
    fn to_i128(self) -> (r: i128)
        requires
            self.value() <= i128::MAX,
        ensures
            r == self.value(),
    ;

    /// The value `v` in this type, for a `v` in the type's range.
    fn from_u128(v: u128) -> (r: Self)
        requires
            Self::spec_signed() ==> v < pow2((Self::spec_bits() - 1) as nat),
            !Self::spec_signed() ==> v < pow2(Self::spec_bits()),
        ensures
            r.value() == v,
    ;

    /// The value `v` in this type, for a `v` in the type's range.
    fn from_i128(v: i128) -> (r: Self)
        requires
            Self::spec_signed() ==> -pow2((Self::spec_bits() - 1) as nat) <= v < pow2(
                (Self::spec_bits() - 1) as nat,
            ),
            !Self::spec_signed() ==> 0 <= v < pow2(Self::spec_bits()),
        ensures
            r.value() == v,
    ;
}

impl Int for u8 {
    type UnsignedInt = u8;

    open spec fn spec_bits() -> nat {
        8
    }

    open spec fn spec_signed() -> bool {
        false
    }

    open spec fn value(self) -> int {
        self as int
    }

    open spec fn unsigned_value(u: u8) -> nat {
        u as nat
    }

    proof fn lemma_int(self) {
        lemma_pow2_values();
    }

    fn bits() -> (r: u32) {
        8
    }

    fn init_float(self) -> (r: (bool, u8)) {
        (false, self)
    }

    fn unsigned_to_u128(u: u8) -> (r: u128) {
        u as u128
    }

    fn to_u128(self) -> (r: u128) {
        self as u128
    }

    fn to_i128(self) -> (r: i128) {
        self as i128
    }

    fn from_u128(v: u128) -> (r: Self) {
        proof {
            lemma_pow2_values();
        }
        v as u8
    }

    fn from_i128(v: i128) -> (r: Self) {
        proof {
            lemma_pow2_values();
        }
        v as u8
    }
}

impl Int for u16 {
    type UnsignedInt = u16;

    open spec fn spec_bits() -> nat {
        16
    }

    open spec fn spec_signed() -> bool {
        false
    }

    open spec fn value(self) -> int {
        self as int
    }

    open spec fn unsigned_value(u: u16) -> nat {
        u as nat
    }

    proof fn lemma_int(self) {
        lemma_pow2_values();
    }

    fn bits() -> (r: u32) {
        16
    }

    fn init_float(self) -> (r: (bool, u16)) {
        (false, self)
    }

    fn unsigned_to_u128(u: u16) -> (r: u128) {
        u as u128
    }

    fn to_u128(self) -> (r: u128) {
        self as u128
    }

    fn to_i128(self) -> (r: i128) {
        self as i128
    }

    fn from_u128(v: u128) -> (r: Self) {
        proof {
            lemma_pow2_values();
        }
        v as u16
    }

    fn from_i128(v: i128) -> (r: Self) {
        proof {
            lemma_pow2_values();
        }
        v as u16
    }
}

impl Int for u32 {
    type UnsignedInt = u32;

    open spec fn spec_bits() -> nat {
        32
    }

    open spec fn spec_signed() -> bool {
        false
    }

    open spec fn value(self) -> int {
        self as int
    }

    open spec fn unsigned_value(u: u32) -> nat {
        u as nat
    }

    proof fn lemma_int(self) {
        lemma_pow2_values();
    }

    fn bits() -> (r: u32) {
        32
    }

    fn init_float(self) -> (r: (bool, u32)) {
        (false, self)
    }

    fn unsigned_to_u128(u: u32) -> (r: u128) {
        u as u128
    }

    fn to_u128(self) -> (r: u128) {
        self as u128
    }

    fn to_i128(self) -> (r: i128) {
        self as i128
    }

    fn from_u128(v: u128) -> (r: Self) {
        proof {
            lemma_pow2_values();
        }
        v as u32
    }

    fn from_i128(v: i128) -> (r: Self) {
        proof {
            lemma_pow2_values();
        }
        v as u32
    }
}

impl Int for u64 {
    type UnsignedInt = u64;

    open spec fn spec_bits() -> nat {
        64
    }

    open spec fn spec_signed() -> bool {
        false
    }

    open spec fn value(self) -> int {
        self as int
    }

    open spec fn unsigned_value(u: u64) -> nat {
        u as nat
    }

    proof fn lemma_int(self) {
        lemma_pow2_values();
    }

    fn bits() -> (r: u32) {
        64
    }

    fn init_float(self) -> (r: (bool, u64)) {
        (false, self)
    }

    fn unsigned_to_u128(u: u64) -> (r: u128) {
        u as u128
    }

    fn to_u128(self) -> (r: u128) {
        self as u128
    }

    fn to_i128(self) -> (r: i128) {
        self as i128
    }

    fn from_u128(v: u128) -> (r: Self) {
        proof {
            lemma_pow2_values();
        }
        v as u64
    }

    fn from_i128(v: i128) -> (r: Self) {
        proof {
            lemma_pow2_values();
        }
        v as u64
    }
}

impl Int for u128 {
    type UnsignedInt = u128;

    open spec fn spec_bits() -> nat {
        128
    }

    open spec fn spec_signed() -> bool {
        false
    }

    open spec fn value(self) -> int {
        self as int
    }

    open spec fn unsigned_value(u: u128) -> nat {
        u as nat
    }

    proof fn lemma_int(self) {
        lemma_pow2_values();
    }

    fn bits() -> (r: u32) {
        128
    }

    fn init_float(self) -> (r: (bool, u128)) {
        (false, self)
    }

    fn unsigned_to_u128(u: u128) -> (r: u128) {
        u as u128
    }

    fn to_u128(self) -> (r: u128) {
        self as u128
    }

    fn to_i128(self) -> (r: i128) {
        self as i128
    }

    fn from_u128(v: u128) -> (r: Self) {
        proof {
            lemma_pow2_values();
        }
        v as u128
    }

    fn from_i128(v: i128) -> (r: Self) {
        proof {
            lemma_pow2_values();
        }
        v as u128
    }
}

impl Int for i32 {
    type UnsignedInt = u32;

    open spec fn spec_bits() -> nat {
        32
    }

    open spec fn spec_signed() -> bool {
        true
    }

    open spec fn value(self) -> int {
        self as int
    }

    open spec fn unsigned_value(u: u32) -> nat {
        u as nat
    }

    proof fn lemma_int(self) {
        lemma_pow2_values();
    }

    fn bits() -> (r: u32) {
        32
    }

    fn init_float(self) -> (r: (bool, u32)) {
        if self < 0 {
            (true, (-(self as i64)) as u32)
        } else {
            (false, self as u32)
        }
    }

    fn unsigned_to_u128(u: u32) -> (r: u128) {
        u as u128
    }

    fn to_u128(self) -> (r: u128) {
        self as u128
    }

    fn to_i128(self) -> (r: i128) {
        self as i128
    }

    fn from_u128(v: u128) -> (r: Self) {
        proof {
            lemma_pow2_values();
        }
        v as i32
    }

    fn from_i128(v: i128) -> (r: Self) {
        proof {
            lemma_pow2_values();
        }
        v as i32
    }
}

impl Int for i64 {
    type UnsignedInt = u64;

    open spec fn spec_bits() -> nat {
        64
    }

    open spec fn spec_signed() -> bool {
        true
    }

    open spec fn value(self) -> int {
        self as int
    }

    open spec fn unsigned_value(u: u64) -> nat {
        u as nat
    }

    proof fn lemma_int(self) {
        lemma_pow2_values();
    }

    fn bits() -> (r: u32) {
        64
    }

    fn init_float(self) -> (r: (bool, u64)) {
        if self < 0 {
            (true, (-(self as i128)) as u64)
        } else {
            (false, self as u64)
        }
    }

    fn unsigned_to_u128(u: u64) -> (r: u128) {
        u as u128
    }

    fn to_u128(self) -> (r: u128) {
        self as u128
    }

    fn to_i128(self) -> (r: i128) {
        self as i128
    }

    fn from_u128(v: u128) -> (r: Self) {
        proof {
            lemma_pow2_values();
        }
        v as i64
    }

    fn from_i128(v: i128) -> (r: Self) {
        proof {
            lemma_pow2_values();
        }
        v as i64
    }
}

impl Int for i128 {
    type UnsignedInt = u128;

    open spec fn spec_bits() -> nat {
        128
    }

    open spec fn spec_signed() -> bool {
        true
    }

    open spec fn value(self) -> int {
        self as int
    }

    open spec fn unsigned_value(u: u128) -> nat {
        u as nat
    }

    proof fn lemma_int(self) {
        lemma_pow2_values();
    }

    fn bits() -> (r: u32) {
        128
    }

    fn init_float(self) -> (r: (bool, u128)) {
        if self == i128::MIN {
            (true, 0x8000_0000_0000_0000_0000_0000_0000_0000u128)
        } else if self < 0 {
            (true, (-self) as u128)
        } else {
            (false, self as u128)
        }
    }

    fn unsigned_to_u128(u: u128) -> (r: u128) {
        u as u128
    }

    fn to_u128(self) -> (r: u128) {
        self as u128
    }

    fn to_i128(self) -> (r: i128) {
        self as i128
    }

    fn from_u128(v: u128) -> (r: Self) {
        proof {
            lemma_pow2_values();
        }
        v as i128
    }

    fn from_i128(v: i128) -> (r: Self) {
        proof {
            lemma_pow2_values();
        }
        v as i128
    }
}

/// Trait to convert an integer to/from smaller parts
pub trait LargeInt: Int {
    type LowHalf;

    type HighHalf;

    /// The number that a low half is.
    spec fn low_value(l: Self::LowHalf) -> int;

    /// The number that a high half is.
    spec fn high_value(h: Self::HighHalf) -> int;

    /// The low half: the value modulo `2^32`.
    fn low(self) -> (r: Self::LowHalf)
        ensures
            Self::low_value(r) == self.value() % 0x1_0000_0000,
    ;

    /// The high half: the value divided by `2^32`, rounded down.
    fn high(self) -> (r: Self::HighHalf)
        ensures
            Self::high_value(r) == self.value() / 0x1_0000_0000,
    ;

    /// The integer with the given halves.
    fn from_parts(low: Self::LowHalf, high: Self::HighHalf) -> (r: Self)
        ensures
            r.value() == Self::high_value(high) * 0x1_0000_0000 + Self::low_value(low),
    ;
}

impl LargeInt for u64 {
    type LowHalf = u32;

    type HighHalf = u32;

    open spec fn low_value(l: u32) -> int {
        l as int
    }

    open spec fn high_value(h: u32) -> int {
        h as int
    }

    fn low(self) -> (r: u32) {
        (self % 0x1_0000_0000) as u32
    }

    fn high(self) -> (r: u32) {
        (self / 0x1_0000_0000) as u32
    }

    fn from_parts(low: u32, high: u32) -> (r: u64) {
        low as u64 + (high as u64) * 0x1_0000_0000
    }
}

impl LargeInt for i64 {
    type LowHalf = u32;

    type HighHalf = i32;

    open spec fn low_value(l: u32) -> int {
        l as int
    }

    open spec fn high_value(h: i32) -> int {
        h as int
    }

    fn low(self) -> (r: u32) {
        // moved up by 2^63, the value is not negative and keeps its low half
        let up = self as i128 + 0x8000_0000_0000_0000;
        (up % 0x1_0000_0000) as u32
    }

    fn high(self) -> (r: i32) {
        let up = self as i128 + 0x8000_0000_0000_0000;
        (up / 0x1_0000_0000 - 0x8000_0000) as i32
    }

    fn from_parts(low: u32, high: i32) -> (r: i64) {
        (low as i128 + (high as i128) * 0x1_0000_0000) as i64
    }
}

} // verus!
