//! Software floating-point arithmetic on bit patterns, without a hardware
//! float unit.
//!
//! - [`float`]: the formats and their model, multiplication, division by a
//!   Newton-Raphson reciprocal, and conversions to and from integers.
//! - [`math`]: rounding to whole numbers, the exact remainder, and the
//!   decisions of the reduction modulo pi/2.
//! - [`support`]: status flags and the Barrett reducers that the remainder
//!   rests on.
//! - [`integer`]: the integer abstraction, 256-bit integers, and counting
//!   leading zeros.
//! - [`os_version_check`]: packed operating system versions.
//! - [`arith`]: the arithmetic facts that the proofs share.

pub mod arith;
pub mod float;
pub mod integer;
pub mod math;
pub mod os_version_check;
pub mod support;
