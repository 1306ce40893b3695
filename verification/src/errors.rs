//! Error taxonomy for the encode and decode boundaries.
//!
//! Every failure is reported to the immediate caller as a typed result;
//! nothing is retried or logged here.  A verification workflow must treat any
//! decode failure as "reject this attestation".
use vstd::prelude::*;

verus! {

/// Why a byte string was rejected by a decoder.
#[derive(Debug, Clone, Copy, PartialEq, Eq)]
pub enum DecodeError {
    /// The bytes are not well-formed structured text at all: not valid
    /// UTF-8, or text that is not one well-formed value (truncated or
    /// corrupt).
    Malformed,
    /// The text is a well-formed value but is not the canonical encoding of
    /// the target schema: an unknown or missing field, a value of the wrong
    /// type, or any non-canonical spelling.
    SchemaMismatch,
    /// Automatic version detection exhausted every supported version
    /// without a match.
    NoMatchingVersion,
}

/// Why a record could not be encoded.
#[derive(Debug, Clone, Copy, PartialEq, Eq)]
pub enum EncodeError {
    /// The record holds a value the canonical codec cannot express.  This is
    /// an internal invariant violation: records built through this crate's
    /// constructors always encode.
    Unrepresentable,
}

impl DecodeError {
    /// A short human-readable description of the error.
    pub fn describe(&self) -> (r: &'static str)
        ensures
            r@ == match *self {
                DecodeError::Malformed => "malformed input"@,
                DecodeError::SchemaMismatch => "input does not match the schema"@,
                DecodeError::NoMatchingVersion => "no supported version matches"@,
            },
    {
        match self {
            DecodeError::Malformed => "malformed input",
            DecodeError::SchemaMismatch => "input does not match the schema",
            DecodeError::NoMatchingVersion => "no supported version matches",
        }
    }
}

impl EncodeError {
    /// A short human-readable description of the error.
    pub fn describe(&self) -> (r: &'static str)
        ensures
            r@ == "value not representable in canonical form"@,
    {
        match self {
            EncodeError::Unrepresentable => "value not representable in canonical form",
        }
    }
}

} // verus!
