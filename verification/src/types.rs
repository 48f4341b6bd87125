//! Identifiers and the error reported at the library's boundary.
use vstd::prelude::*;

verus! {

/// Seed shared by the sender and the receiver of one stream.
pub type StreamId = u64;

/// Position of a check block in the sender's output, counted from zero.
pub type CheckBlockId = u64;

/// Position of a block in the augmented message: source blocks first,
/// auxiliary blocks after them.
pub type BlockIndex = usize;

/// Why a call was rejected.
#[derive(Clone, Copy, Debug, PartialEq, Eq, Structural)]
pub enum CodeError {
    /// The parameters do not describe a usable code.
    ConfigError,
    /// The message is empty, or the padding exceeds the message.
    LengthError,
    /// A check block does not have the stream's block size.
    UsageError,
}

} // verus!
