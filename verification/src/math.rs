//! Math routines on bit patterns.

pub mod generic;
pub mod round;
pub mod roundeven;
pub mod frexp;
pub mod ilogb;
