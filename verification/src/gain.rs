//! The amplifier gain, which the converter is told by the number of clock
//! pulses that follow the 24 data bits.

use vstd::prelude::*;

verus! {

/// The amplification that the next conversion will use.
#[derive(Clone, Copy, Debug, PartialEq, Eq, Structural)]
pub enum Gain {
    /// Channel A with a gain of 128: one pulse after the data bits.
    X128,
    /// Channel A with a gain of 64: two pulses after the data bits.
    X64,
    /// Channel B with a gain of 32: three pulses after the data bits.
    X32,
}

/// A gain factor that the converter does not offer.
#[derive(Clone, Copy, Debug, PartialEq, Eq, Structural)]
pub struct InvalidGain {
    /// The factor that was asked for.
    pub factor: u32,
}

/// Whether the converter offers `factor` as a gain.
pub open spec fn is_gain_factor(factor: u32) -> bool {
    factor == 128 || factor == 64 || factor == 32
}

impl Gain {
    /// The amplification factor: 128, 64 or 32.
    #[verifier::allow_in_spec]
    pub fn factor(self) -> u32
        returns
            (match self {
                Gain::X128 => 128u32,
                Gain::X64 => 64u32,
                Gain::X32 => 32u32,
            }),
    {
        match self {
            Gain::X128 => 128,
            Gain::X64 => 64,
            Gain::X32 => 32,
        }
    }

    /// The number of clock pulses sent after the data bits to select this
    /// gain: one for 128, two for 64, three for 32.
    #[verifier::allow_in_spec]
    pub fn pulses(self) -> u8
        returns
            (match self {
                Gain::X128 => 1u8,
                Gain::X64 => 2u8,
                Gain::X32 => 3u8,
            }),
    {
        match self {
            Gain::X128 => 1,
            Gain::X64 => 2,
            Gain::X32 => 3,
        }
    }

    /// The gain with the given factor. Any factor but 128, 64 and 32 is
    /// refused, and the error carries it.
    pub fn from_factor(factor: u32) -> (gain: Result<Gain, InvalidGain>)
        ensures
            gain is Ok <==> is_gain_factor(factor),
            gain matches Ok(g) ==> g.factor() == factor,
            gain matches Err(e) ==> e.factor == factor,
    {
        if factor == 128 {
            Ok(Gain::X128)
        } else if factor == 64 {
            Ok(Gain::X64)
        } else if factor == 32 {
            Ok(Gain::X32)
        } else {
            Err(InvalidGain { factor })
        }
    }
}

/// The factor names the gain: two gains with one factor are the same gain,
/// and so are two gains with one pulse count.
pub proof fn lemma_gain_is_named_by_factor_and_by_pulses(a: Gain, b: Gain)
    ensures
        a.factor() == b.factor() <==> a == b,
        a.pulses() == b.pulses() <==> a == b,
        is_gain_factor(a.factor()),
        1 <= a.pulses() <= 3,
{
}

} // verus!
