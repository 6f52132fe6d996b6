//! Error kinds reported by the codec.

use vstd::prelude::*;

verus! {

/// Every way an encode or decode call can fail.
///
/// Decoding rejects malformed or adversarial input with a precise kind;
/// encoding can only fail on inputs that exceed the per-window address space.
#[derive(Clone, Copy, Debug, PartialEq, Eq, Structural)]
pub enum Error {
    /// A variable-length integer ran past the end of its section or would
    /// overflow 64 bits.
    MalformedVarInt,
    /// A declared section length or window structure is inconsistent with the
    /// remaining stream.
    MalformedWindow,
    /// An instruction opcode or window flag is not part of the format.
    InvalidInstruction,
    /// A COPY resolved outside the combined source-and-target buffer, or a
    /// source segment does not fit in the source window.
    AddressOutOfBounds,
    /// A window declared a checksum that does not match the reconstruction.
    ChecksumMismatch,
    /// A caller-provided output capacity is too small for the result.
    InsufficientOutputCapacity,
    /// The source exceeds the addressable window size.
    SourceTooLarge,
    /// The target exceeds the addressable window size.
    TargetTooLarge,
}

} // verus!
