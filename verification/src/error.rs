use vstd::prelude::*;

verus! {

/// Why a byte buffer could not be decoded.
#[derive(Debug, Clone, Copy, PartialEq, Eq, Structural)]
pub enum DecodeError {
    /// The discriminant byte of a node is none of the assigned values.
    UnknownTag,
    /// The primitive alphabet does not accept the bytes it was handed.
    InvalidPrimitive,
    /// The payload of a string or of an annotation field is not UTF-8.
    InvalidUtf8,
    /// A length prefix, or a field that has to follow, reaches past the
    /// end of the buffer.
    TruncatedInput,
    /// The magnitude of an integer does not fit the integer type.
    IntegerOutOfRange,
}

} // verus!
