//! The floating-point environment: status flags and results that carry one.

use vstd::prelude::*;

verus! {

/// IEEE 754 status of an operation. Purely informational.
#[allow(non_camel_case_types)]
#[derive(Clone, Copy, PartialEq, Eq, Structural, Debug)]
pub enum Status {
    /// The result is exact.
    OK,
    /// The result was rounded.
    INEXACT,
}

/// Rounding directions.
#[derive(Clone, Copy, PartialEq, Eq, Structural, Debug)]
pub enum Round {
    /// To the nearest value, ties to the even one.
    Nearest,
    /// Toward negative infinity.
    Negative,
    /// Toward positive infinity.
    Positive,
    /// Toward zero.
    Zero,
}

/// The result of an operation together with its status.
#[derive(Debug)]
pub struct FpResult<T> {
    pub val: T,
    pub status: Status,
}

impl<T> FpResult<T> {
    pub fn new(val: T, status: Status) -> (r: Self)
        ensures
            r.val == val,
            r.status == status,
    {
        Self { val, status }
    }

    /// An exact result.
    pub fn ok(val: T) -> (r: Self)
        ensures
            r.val == val,
            r.status == Status::OK,
    {
        Self { val, status: Status::OK }
    }
}

} // verus!
