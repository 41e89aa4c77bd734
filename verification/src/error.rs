//! The failures that the table builder and the coder report.

use vstd::prelude::*;

verus! {

/// Why no coding tables can be built.
#[derive(Clone, Copy, Debug, PartialEq, Eq, Structural)]
pub enum BuildError {
    /// The precision is not a positive power of two.
    PrecisionNotPowerOfTwo,
    /// The precision is smaller than the alphabet.
    PrecisionBelowAlphabet,
    /// The tables for this precision and alphabet would have more entries
    /// than a `u32` can index.
    TablesTooLarge,
    /// The frequencies sum to zero.
    ZeroTotal,
    /// The probabilities still sum to more than the precision.
    ExcessProbability,
    /// The first slot of the spread lies beyond the last slot.
    StartOutOfRange,
}

/// Why a symbol could not be decoded.
#[derive(Clone, Copy, Debug, PartialEq, Eq, Structural)]
pub enum DecodeError {
    /// The bit sequence ran out while the state was being refilled.
    OutOfBits,
}

} // verus!
