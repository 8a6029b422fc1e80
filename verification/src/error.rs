//! The ways a block can fail to encode or decode.
use vstd::prelude::*;

verus! {

#[derive(Debug, Clone, PartialEq, Eq, Structural)]
pub enum Error {
    /// The bit stream ended in the middle of a value.
    UnexpectedEnd,
    /// The block's tag byte names no known codec.
    UnknownEncoding(u8),
    /// The bit stream describes an impossible value window.
    MalformedBlock,
    /// A block holds more points than its 32-bit count field can say.
    TooManyPoints(usize),
}

} // verus!
