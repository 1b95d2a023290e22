//! Error type for decoding and encoding.

use vstd::prelude::*;

verus! {

/// Everything that can go wrong while reading or writing the wire format.
///
/// No recovery is attempted anywhere: every error aborts the whole decode or
/// encode call. The `ReadSerialized` and `WriteSerialized` variants stand for
/// failures of an underlying byte source or sink; the verified core works on
/// in-memory buffers and never produces them itself, they are constructed by
/// adapters that do real input and output.
#[derive(Debug, Clone, PartialEq, Eq)]
pub enum Error {
    /// Error writing a serialized value to a sink.
    WriteSerialized,
    /// Error reading a serialized value from a source.
    ReadSerialized,
    /// Unexpected end of input while reading.
    UnexpectedEof,
    /// A specific byte was required and a different one was found.
    Unexpected {
        /// Byte expected.
        expected: u8,
        /// Actual byte found.
        actual: u8,
    },
    /// Expected an ASCII digit, but found something else.
    ExpectedDigit {
        /// Non-digit found.
        actual: u8,
    },
    /// A byte string is not valid UTF-8 where text was required.
    Utf8Error,
    /// A decimal value could not be converted into a `char`.
    CharConversionFailed,
    /// Not a valid number, or not representable in the requested numeric type.
    NotAValidNumber,
    /// Not a valid value for a boolean.
    InvalidBooleanValue(u8),
    /// Unsupported array key type: keys must be all strings or all numeric.
    UnsupportedArrayKeyType(u8),
    /// Invalid type indicator on a value.
    InvalidTypeIndicator(u8),
    /// Feature that this codec does not implement.
    MissingFeature(&'static str),
    /// Array-index mismatch: sequence keys must be in-order and numeric.
    IndexMismatch {
        /// Expected index.
        expected: usize,
        /// Actual index found.
        actual: usize,
    },
    /// Attempted to serialize an aggregate of unknown length.
    ///
    /// The format length-prefixes every aggregate, so a length must be known
    /// before any element is written.
    LengthRequired,
    /// Serialization failed for a reason reported by the value protocol.
    SerializationFailed(String),
    /// Deserialization failed for a reason reported by the value protocol.
    DeserializationFailed(String),
}

} // verus!
