//! The ways a frame or a call can fail.

use vstd::prelude::*;

verus! {

/// Why a byte stream could not be read as a frame. Each of these is fatal
/// to the connection.
#[derive(Debug, Clone, Copy, PartialEq, Eq, Structural)]
pub enum FramingError {
    /// The bytes end before the terminator of a line that the frame needs.
    Truncated,
    /// A line is not UTF-8 text.
    InvalidText,
    /// The sequence line is not a 64-bit decimal integer.
    InvalidSequence,
    /// The value-count line is not a 64-bit decimal integer.
    InvalidCount,
}

/// Why a call did not produce its result.
#[derive(Debug, Clone, Copy, PartialEq, Eq, Structural)]
pub enum CallError {
    /// The session is not open, or ended while the call was waiting.
    ConnectionClosed,
    /// The reply carried no value where the operation needs one.
    EmptyResult,
    /// A returned value is not of the expected type.
    ParseError,
    /// No reply came within the caller's deadline.
    Timeout,
}

} // verus!
