//! Types and integer machinery that the math routines share.

pub mod env;
pub mod int_traits;
pub mod modular;

use vstd::prelude::*;

verus! {

/// Hint to the compiler that the current path is cold.
pub fn cold_path() {
}

} // verus!
