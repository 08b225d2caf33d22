//! The routines themselves, generic over the float format.

pub mod rounding;
pub mod ceil;
pub mod floor;
pub mod fmod;
pub mod frexp;
pub mod rem_pio2;
pub mod trunc;
pub mod round;
pub mod rint;

pub use ceil::ceil;
pub use floor::floor;
pub use fmod::fmod;
pub use frexp::{frexp, ilogb};
pub use rint::rint_round;
pub use round::round;
pub use trunc::trunc;
