//! The errors the codec layer reports.

use vstd::prelude::*;

verus! {

/// Every failure that the codec layer reports to its caller.
#[derive(Debug, Clone, Copy, PartialEq, Eq, Structural)]
pub enum ProtocolError {
    /// A variable-length integer ran past its maximum byte count or was cut short.
    MalformedVarInt,
    /// The length prefix of a frame is longer than the framer accepts.
    FrameTooLarge,
    /// The stream ended before a whole frame arrived.
    ConnectionClosed,
    /// A sequence or fixed-width value is shorter than declared.
    LengthMismatch,
    /// An enumeration discriminant that names no variant.
    UnknownVariant,
    /// A field value outside its domain.
    InvalidFieldValue,
    /// A state id (or block id) outside the registry's range.
    StateIdOutOfRange,
    /// A value that does not fit the bit width of its packed field.
    OutOfRange,
}

} // verus!
