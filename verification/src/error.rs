//! The ways in which the codec can fail.

use vstd::prelude::*;

verus! {

/// Why an operation of the codec was abandoned. No partial output is given.
#[derive(Clone, Copy, Debug, PartialEq, Eq, Structural)]
pub enum CodecError {
    /// A quantized value does not fit the bit field it is packed into.
    RangeViolation,
    /// The dimensions are odd where blocks need them even, or the number of
    /// elements disagrees with the dimensions.
    MalformedInput,
}

} // verus!
