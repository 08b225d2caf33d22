//! The four IEEE 754 binary interchange formats, as bit patterns.

use vstd::prelude::*;
use crate::arith::lemma_pow2_values;
use crate::float::Float;
use crate::float::model::Format;

verus! {

/// A binary16 value, held as its bit pattern.
#[derive(Clone, Copy, PartialEq, Eq, Structural, Debug)]
pub struct F16 {
    pub raw: u16,
}

/// A binary32 value, held as its bit pattern.
#[derive(Clone, Copy, PartialEq, Eq, Structural, Debug)]
pub struct F32 {
    pub raw: u32,
}

/// A binary64 value, held as its bit pattern.
#[derive(Clone, Copy, PartialEq, Eq, Structural, Debug)]
pub struct F64 {
    pub raw: u64,
}

/// A binary128 value, held as its bit pattern.
#[derive(Clone, Copy, PartialEq, Eq, Structural, Debug)]
pub struct F128 {
    pub raw: u128,
}

impl F16 {
    pub fn from_bits(raw: u16) -> (f: Self)
        ensures
            f.raw == raw,
    {
        F16 { raw }
    }

    pub fn to_bits(self) -> (r: u16)
        ensures
            r == self.raw,
    {
        self.raw
    }
}

impl F32 {
    pub fn from_bits(raw: u32) -> (f: Self)
        ensures
            f.raw == raw,
    {
        F32 { raw }
    }

    pub fn to_bits(self) -> (r: u32)
        ensures
            r == self.raw,
    {
        self.raw
    }
}

impl F64 {
    pub fn from_bits(raw: u64) -> (f: Self)
        ensures
            f.raw == raw,
    {
        F64 { raw }
    }

    pub fn to_bits(self) -> (r: u64)
        ensures
            r == self.raw,
    {
        self.raw
    }
}

impl F128 {
    pub fn from_bits(raw: u128) -> (f: Self)
        ensures
            f.raw == raw,
    {
        F128 { raw }
    }

    pub fn to_bits(self) -> (r: u128)
        ensures
            r == self.raw,
    {
        self.raw
    }
}

impl Float for F16 {
    open spec fn spec_format() -> Format {
        Format { bits: 16, sig_bits: 10 }
    }

    open spec fn spec_repr(self) -> nat {
        self.raw as nat
    }

    proof fn lemma_format() {
        lemma_pow2_values();
    }

    proof fn lemma_repr(self) {
        lemma_pow2_values();
    }

    fn bits() -> (r: u32) {
        16
    }

    fn significand_bits() -> (r: u32) {
        10
    }

    fn repr(self) -> (r: u128) {
        proof {
            lemma_pow2_values();
        }
        self.raw as u128
    }

    fn from_repr(a: u128) -> (f: Self) {
        proof {
            lemma_pow2_values();
        }
        F16 { raw: a as u16 }
    }
}

impl Float for F32 {
    open spec fn spec_format() -> Format {
        Format { bits: 32, sig_bits: 23 }
    }

    open spec fn spec_repr(self) -> nat {
        self.raw as nat
    }

    proof fn lemma_format() {
        lemma_pow2_values();
    }

    proof fn lemma_repr(self) {
        lemma_pow2_values();
    }

    fn bits() -> (r: u32) {
        32
    }

    fn significand_bits() -> (r: u32) {
        23
    }

    fn repr(self) -> (r: u128) {
        proof {
            lemma_pow2_values();
        }
        self.raw as u128
    }

    fn from_repr(a: u128) -> (f: Self) {
        proof {
            lemma_pow2_values();
        }
        F32 { raw: a as u32 }
    }
}

impl Float for F64 {
    open spec fn spec_format() -> Format {
        Format { bits: 64, sig_bits: 52 }
    }

    open spec fn spec_repr(self) -> nat {
        self.raw as nat
    }

    proof fn lemma_format() {
        lemma_pow2_values();
    }

    proof fn lemma_repr(self) {
        lemma_pow2_values();
    }

    fn bits() -> (r: u32) {
        64
    }

    fn significand_bits() -> (r: u32) {
        52
    }

    fn repr(self) -> (r: u128) {
        proof {
            lemma_pow2_values();
        }
        self.raw as u128
    }

    fn from_repr(a: u128) -> (f: Self) {
        proof {
            lemma_pow2_values();
        }
        F64 { raw: a as u64 }
    }
}

impl Float for F128 {
    open spec fn spec_format() -> Format {
        Format { bits: 128, sig_bits: 112 }
    }

    open spec fn spec_repr(self) -> nat {
        self.raw as nat
    }

    proof fn lemma_format() {
        lemma_pow2_values();
    }

    proof fn lemma_repr(self) {
        lemma_pow2_values();
    }

    fn bits() -> (r: u32) {
        128
    }

    fn significand_bits() -> (r: u32) {
        112
    }

    fn repr(self) -> (r: u128) {
        proof {
            lemma_pow2_values();
        }
        self.raw
    }

    fn from_repr(a: u128) -> (f: Self) {
        F128 { raw: a }
    }
}

} // verus!
