use vstd::prelude::*;

verus! {

/// The ways a decode operation can fail. Every failure is reported as a
/// value; no operation of this crate panics on inputs its contract admits.
#[derive(Clone, Copy, Debug, PartialEq, Eq, Structural)]
pub enum CodingError {
    /// The received stream does not have the shape of one coded unit
    /// (for 2D parity: a whole number of rows, at least one; for CRC:
    /// at least the checksum itself).
    MalformedInput,
    /// Exactly one parity axis disagrees, or the single located error lies
    /// in the trailing parity row: a control (parity) bit itself was
    /// corrupted; the data bits cannot be blamed.
    ControlBitError,
    /// Both axes disagree in more than one place: at least two bits were
    /// flipped, and no unique correction exists.
    UncorrectableError,
    /// The CRC remainder of the received stream is nonzero.
    ChecksumMismatch,
}

} // verus!
