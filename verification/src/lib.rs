//! IEEE-754 binary64 arithmetic built from integer operations on bit patterns.
use vstd::prelude::*;

pub mod accuracy;
pub mod bits;
pub mod gpu;
pub mod header;
pub mod ieee;
pub mod laws;
pub mod model;
pub mod patterns;
pub mod rounding;
pub mod softfloat_ftz;
pub mod softfloat_ref;
pub mod special;
pub mod staging;

verus! {

/// IEEE-754 rounding direction.
#[derive(Debug, Clone, Copy, PartialEq, Eq, Structural)]
pub enum RoundingMode {
    /// To nearest, ties to even.
    Nearest,
    /// Toward negative infinity.
    Down,
    /// Toward positive infinity.
    Up,
    /// Toward zero.
    Zero,
}

impl RoundingMode {
    /// The number of the mode, as kernels take it.
    pub open spec fn number(self) -> u32 {
        match self {
            RoundingMode::Nearest => 0,
            RoundingMode::Down => 1,
            RoundingMode::Up => 2,
            RoundingMode::Zero => 3,
        }
    }

    /// The number of the mode, as kernels take it.
    #[must_use]
    pub fn code(self) -> (n: u32)
        ensures
            n == self.number(),
    {
        match self {
            RoundingMode::Nearest => 0,
            RoundingMode::Down => 1,
            RoundingMode::Up => 2,
            RoundingMode::Zero => 3,
        }
    }
}

} // verus!
