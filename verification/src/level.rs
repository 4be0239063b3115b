//! The logic level of a line.

use vstd::prelude::*;

verus! {

/// The logic level of a line.
#[derive(Clone, Copy, Debug, PartialEq, Eq, Structural)]
pub enum Level {
    Low,
    High,
}

impl Level {
    /// Whether the level is high.
    #[verifier::allow_in_spec]
    pub fn is_high(self) -> bool
        returns
            self == Level::High,
    {
        match self {
            Level::High => true,
            Level::Low => false,
        }
    }

    /// The level that stands for a bit: high for a one.
    #[verifier::allow_in_spec]
    pub fn from_bit(bit: bool) -> Level
        returns
            (if bit {
                Level::High
            } else {
                Level::Low
            }),
    {
        if bit {
            Level::High
        } else {
            Level::Low
        }
    }

    /// The bit that the level stands for: one for high.
    pub open spec fn bit(self) -> nat {
        if self == Level::High {
            1
        } else {
            0
        }
    }
}

} // verus!
