//! Software floating point on bit patterns.
//!
//! A float is handled as the bit pattern of its format. The trait [`Float`]
//! describes a format and gives access to the pattern; the verified
//! operations are generic over it and compute on `u128` carriers.

pub mod model;
pub mod formats;
pub mod reciprocal;
pub mod rounding;
pub mod div;
pub mod mul;
pub mod conv;
pub mod bitops;

use vstd::prelude::*;
use vstd::arithmetic::power2::*;
use crate::arith::{
    bit_length_u128, lemma_bit_length, lemma_div_mod, lemma_pow2_le, lemma_pow2_values,
    low_bits_u128, pow2_u128, shl_u128, shr_u128,
};
use crate::float::model::{Format, lemma_format_basics, lemma_field_bits, lemma_fields};

verus! {

/// Basic operations on the bit pattern of a float.
pub trait Float: Copy + Sized {
    /// The format: its width and the width of its significand field.
    spec fn spec_format() -> Format;

    /// The bit pattern of `self`.
    spec fn spec_repr(self) -> nat;

    /// Every implementor is a well-formed format.
    proof fn lemma_format()
        ensures
            Self::spec_format().wf(),
    ;

    /// Every value's pattern fits the format's width.
    proof fn lemma_repr(self)
        ensures
            Self::spec_format().valid(self.spec_repr()),
    ;

    /// Returns the bitwidth of the float type
    fn bits() -> (r: u32)
        ensures
            r == Self::spec_format().bits,
    ;

    /// Returns the bitwidth of the significand
    fn significand_bits() -> (r: u32)
        ensures
            r == Self::spec_format().sig_bits,
    ;

    /// Returns the bit pattern of `self`, zero-extended
    fn repr(self) -> (r: u128)
        ensures
            r == self.spec_repr(),
            Self::spec_format().valid(r as nat),
    ;

    /// Returns the float with the bit pattern `a`
    fn from_repr(a: u128) -> (f: Self)
        requires
            Self::spec_format().valid(a as nat),
        ensures
            f.spec_repr() == a,
    ;

    fn zero() -> (f: Self)
        ensures
            f.spec_repr() == 0,
    {
        proof {
            lemma_pow2_le(0, Self::spec_format().bits);
        }
        Self::from_repr(0)
    }

    fn one() -> (f: Self)
        ensures
            f.spec_repr() == Self::spec_format().one(),
    {
        proof {
            Self::lemma_format();
            lemma_format_basics(Self::spec_format());
        }
        Self::from_repr(Self::one_int())
    }

    fn zero_int() -> (r: u128)
        ensures
            r == 0,
    {
        0
    }

    fn one_int() -> (r: u128)
        ensures
            r == Self::spec_format().one(),
    {
        proof {
            Self::lemma_format();
            lemma_format_basics(Self::spec_format());
            lemma_pow2_values();
        }
        shl_u128(Self::exponent_bias() as u128, Self::significand_bits())
    }

    /// Returns the bitwidth of the exponent
    fn exponent_bits() -> (r: u32)
        ensures
            r == Self::spec_format().exp_bits(),
    {
        proof {
            Self::lemma_format();
        }
        Self::bits() - Self::significand_bits() - 1
    }

    /// Returns the maximum value of the exponent
    fn exponent_max() -> (r: u32)
        ensures
            r == Self::spec_format().exp_max(),
    {
        proof {
            Self::lemma_format();
            lemma_format_basics(Self::spec_format());
        }
        (pow2_u128(Self::exponent_bits()) - 1) as u32
    }

    /// Returns the exponent bias value
    fn exponent_bias() -> (r: u32)
        ensures
            r == Self::spec_format().bias(),
    {
        proof {
            Self::lemma_format();
            lemma_format_basics(Self::spec_format());
        }
        (pow2_u128(Self::exponent_bits() - 1) - 1) as u32
    }

    /// Returns a mask for the sign bit
    fn sign_mask() -> (r: u128)
        ensures
            r == Self::spec_format().sign_mask(),
    {
        proof {
            Self::lemma_format();
        }
        pow2_u128(Self::bits() - 1)
    }

    /// Returns a mask for the significand
    fn significand_mask() -> (r: u128)
        ensures
            r == Self::spec_format().sig_mask(),
    {
        proof {
            Self::lemma_format();
        }
        pow2_u128(Self::significand_bits()) - 1
    }

    /// Returns the implicit bit of the float format
    fn implicit_bit() -> (r: u128)
        ensures
            r == Self::spec_format().implicit_bit(),
    {
        proof {
            Self::lemma_format();
        }
        pow2_u128(Self::significand_bits())
    }

    /// Returns a mask for the exponent
    fn exponent_mask() -> (r: u128)
        ensures
            r == Self::spec_format().exp_mask(),
    {
        proof {
            Self::lemma_format();
            lemma_format_basics(Self::spec_format());
        }
        Self::sign_mask() - Self::implicit_bit()
    }

    /// Returns the biased exponent field
    fn ex(self) -> (r: u32)
        ensures
            r == Self::spec_format().exp_field(self.spec_repr()),
            r <= Self::spec_format().exp_max(),
    {
        let ghost fmt = Self::spec_format();
        proof {
            Self::lemma_format();
            self.lemma_repr();
            lemma_format_basics(fmt);
            lemma_field_bits(fmt, self.spec_repr());
            lemma_fields(fmt, self.spec_repr());
        }
        let hi = shr_u128(self.repr(), Self::significand_bits());
        low_bits_u128(hi, Self::exponent_bits()) as u32
    }

    /// Returns the exponent with the bias taken off
    fn exp_unbiased(self) -> (r: i32)
        ensures
            r == Self::spec_format().exp_field(self.spec_repr()) - Self::spec_format().bias(),
    {
        proof {
            Self::lemma_format();
            lemma_format_basics(Self::spec_format());
        }
        self.ex() as i32 - Self::exponent_bias() as i32
    }

    /// Returns whether the sign bit is set
    fn is_sign_negative(self) -> (r: bool)
        ensures
            r == Self::spec_format().sign(self.spec_repr()),
    {
        self.repr() >= Self::sign_mask()
    }

    /// Returns whether the sign bit is clear
    fn is_sign_positive(self) -> (r: bool)
        ensures
            r == !Self::spec_format().sign(self.spec_repr()),
    {
        self.repr() < Self::sign_mask()
    }

    /// Returns the pattern `rep` with the quiet bit set
    fn quieted(rep: u128) -> (r: u128)
        requires
            Self::spec_format().valid(rep as nat),
        ensures
            r == Self::spec_format().quiet(rep as nat),
            Self::spec_format().valid(r as nat),
    {
        proof {
            Self::lemma_format();
            lemma_format_basics(Self::spec_format());
            crate::float::model::lemma_quiet_valid(Self::spec_format(), rep as nat);
            lemma_pow2_values();
        }
        let k = Self::significand_bits() - 1;
        if shr_u128(rep, k) % 2 == 1 {
            rep
        } else {
            rep + pow2_u128(k)
        }
    }

    /// Constructs a `Self` from its parts. Inputs are treated as bits and
    /// shifted into position: of `exponent` and `significand` the bits that
    /// fit their fields are kept.
    fn from_parts(sign: bool, exponent: u128, significand: u128) -> (f: Self)
        ensures
            f.spec_repr() == Self::spec_format().with_sign(
                sign,
                (exponent as nat % pow2(Self::spec_format().exp_bits())) * pow2(
                    Self::spec_format().sig_bits,
                ) + significand as nat % pow2(Self::spec_format().sig_bits),
            ),
    {
        let ghost fmt = Self::spec_format();
        proof {
            Self::lemma_format();
            lemma_format_basics(fmt);
            lemma_pow2_values();
        }
        let s = Self::significand_bits();
        let e = low_bits_u128(exponent, Self::exponent_bits());
        let f = low_bits_u128(significand, s);
        proof {
            lemma_pow2_adds(fmt.exp_bits(), fmt.sig_bits);
            lemma_pow2_unfold(fmt.bits);
            lemma_div_mod(exponent as int, pow2(fmt.exp_bits()) as int);
            lemma_div_mod(significand as int, pow2(fmt.sig_bits) as int);
            assert(e * pow2(s as nat) + f < fmt.sign_mask()) by (nonlinear_arith)
                requires
                    e + 1 <= pow2(fmt.exp_bits()),
                    f < pow2(s as nat),
                    pow2(fmt.exp_bits()) * pow2(s as nat) == fmt.sign_mask(),
            ;
        }
        let a = shl_u128(e, s) + f;
        if sign {
            Self::from_repr(a + Self::sign_mask())
        } else {
            Self::from_repr(a)
        }
    }

    /// Shifts a nonzero significand up until the implicit bit is set.
    /// Returns the exponent field to use with it, which is one less for
    /// each position shifted, and the shifted significand.
    fn normalize(significand: u128) -> (r: (i32, u128))
        requires
            0 < significand < 2 * pow2(Self::spec_format().sig_bits),
        ensures
            r.0 <= 1,
            r.0 > -128,
            r.1 == significand * pow2((1 - r.0) as nat),
            pow2(Self::spec_format().sig_bits) <= r.1 < 2 * pow2(Self::spec_format().sig_bits),
    {
        let ghost fmt = Self::spec_format();
        let s = Self::significand_bits();
        let n = bit_length_u128(significand);
        proof {
            Self::lemma_format();
            lemma_format_basics(fmt);
            lemma_pow2_values();
            lemma_bit_length(significand as nat);
            lemma_pow2_unfold((s + 1) as nat);
            if n > s + 1 {
                lemma_pow2_le((s + 1) as nat, (n - 1) as nat);
            }
            lemma_pow2_adds((n - 1) as nat, (s + 1 - n) as nat);
            lemma_pow2_adds(n as nat, (s + 1 - n) as nat);
            let p = pow2((s + 1 - n) as nat) as int;
            lemma_pow2_le(0, (s + 1 - n) as nat);
            lemma_pow2_le((s + 1) as nat, 128);
            assert(pow2((n - 1) as nat) * p <= significand * p < pow2(n as nat) * p)
                by (nonlinear_arith)
                requires
                    pow2((n - 1) as nat) <= significand < pow2(n as nat),
                    p > 0,
            ;
        }
        let shift = s + 1 - n;
        (1 - shift as i32, shl_u128(significand, shift))
    }
}

/// The format of the float type `F`.
pub open spec fn format_of<F: Float>() -> Format {
    F::spec_format()
}

} // verus!
