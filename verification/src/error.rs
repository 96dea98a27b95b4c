use vstd::prelude::*;

verus! {

/// A hard protocol error: a frame (or frame fragment) that can never become
/// valid, or a transport fault.
#[derive(Clone, Copy, Debug, PartialEq, Eq, Structural)]
pub enum Error {
    /// A marker byte of the 6-byte header is wrong.
    InvalidHeader,
    /// The packet ID field is out of its representable range.
    InvalidID,
    /// The length field is out of range, or the length arithmetic would
    /// overflow.
    InvalidLength,
    /// The checksum recomputed over the decoded payload does not match the
    /// transmitted one.
    InvalidCRC,
    /// The encoded section holds a byte outside the base64 alphabet, or has a
    /// malformed shape.
    InvalidBase64,
    /// A read past the bytes that the receive queue advertised.
    QueueUnderflow,
    /// A write into the transmit queue failed.
    QueueOverflow,
    /// More bytes than the declared or available size admits.
    TooManyBytes,
    /// Fewer bytes than the declared or available size requires.
    TooFewBytes,
}

/// The outcome of a poll-based operation that could not complete: either the
/// transport does not hold enough bytes or space yet (retry later), or a hard
/// error occurred.
#[derive(Clone, Copy, Debug, PartialEq, Eq, Structural)]
pub enum PollError {
    /// Not enough data or space is available yet; call again later. This is a
    /// normal, expected outcome of polling, not a fault.
    WouldBlock,
    /// A hard error.
    Other(Error),
}

} // verus!
