//! The errors of encoding and decoding.

use vstd::prelude::*;

verus! {

/// Why a value could not be encoded.
#[derive(Debug, Clone, Copy, PartialEq, Eq, Structural)]
pub enum EncodeError {
    /// An integer outside `-(2^64) ..= 2^64 - 1`.
    OutOfRange,
    /// A float that is NaN or infinite.
    NonFiniteFloat,
    /// A map with two entries under one key.
    DuplicateKey,
}

/// What a decoder expected where it found a byte it could not accept.
#[derive(Debug, Clone, Copy, PartialEq, Eq, Structural)]
pub enum Expected {
    /// A tag other than the link tag 42.
    Tag,
    /// A link: a byte string that starts with the zero prefix.
    Link,
    /// A map key, which must be a text string.
    MapKey,
    /// Map keys in strictly ascending canonical order.
    KeyOrder,
    /// A simple value or float this profile knows: false, true, null, a
    /// single or a double precision float.
    Simple,
    /// An array.
    Array,
    /// A float.
    Float,
}

/// Why some bytes could not be decoded.
#[derive(Debug, Clone, Copy, PartialEq, Eq, Structural)]
pub enum DecodeError {
    /// The input ended in the middle of a value.
    Eof,
    /// A complete value was followed by more bytes.
    TrailingData,
    /// An indefinite-length string, array or map.
    IndefiniteSize,
    /// A byte of the wrong kind for what was expected.
    TypeMismatch { name: Expected, byte: u8 },
    /// An array with more elements than a fixed-arity tuple has fields.
    RequireLength { expect: u64, value: u64 },
    /// A text string that is not valid UTF-8.
    InvalidUtf8,
    /// A well-formed item with no meaning in this profile, such as `undefined`.
    Unsupported { byte: u8 },
    /// Nesting deeper than the decoder's ceiling.
    DepthLimit,
    /// A float that single precision cannot hold exactly.
    PrecisionLoss,
}

impl EncodeError {
    /// A description of the error.
    pub fn message(&self) -> String {
        match self {
            EncodeError::OutOfRange => "The number can't be stored in CBOR".to_string(),
            EncodeError::NonFiniteFloat => "Float must be a finite number, not Infinity or NaN".to_string(),
            EncodeError::DuplicateKey => "A map key occurs twice".to_string(),
        }
    }
}

impl DecodeError {
    /// A description of the error.
    pub fn message(&self) -> String {
        match self {
            DecodeError::Eof => "Unexpected end of input".to_string(),
            DecodeError::TrailingData => "Trailing data after the value".to_string(),
            DecodeError::IndefiniteSize => "Indefinite lengths are not supported".to_string(),
            DecodeError::TypeMismatch { .. } => "Unexpected type".to_string(),
            DecodeError::RequireLength { .. } => "Too many elements for the tuple".to_string(),
            DecodeError::InvalidUtf8 => "Text is not valid UTF-8".to_string(),
            DecodeError::Unsupported { .. } => "Unsupported item".to_string(),
            DecodeError::DepthLimit => "Nesting exceeds the depth limit".to_string(),
            DecodeError::PrecisionLoss => "Float does not fit single precision without loss of precision".to_string(),
        }
    }
}

} // verus!
