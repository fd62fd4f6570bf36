//! The ways in which decoding can fail.

use vstd::prelude::*;

verus! {

/// Why a decode step did not produce a value.
///
/// Only [`DecodeError::NeedMoreBytes`] is worth retrying, and only with a
/// longer slice that starts at the same position. Every other variant says
/// that the bytes at this position are not what the decoder was asked to read.
#[derive(Debug, Clone, Copy, PartialEq, Eq, Structural)]
pub enum DecodeError {
    /// The slice ends before the item does. The input is not malformed; the
    /// caller has to supply more of it.
    NeedMoreBytes,
    /// The first byte of a variable-length integer is zero, so no marker bit
    /// announces its width.
    InvalidPrefix,
    /// An unsigned integer payload is declared longer than eight bytes.
    SizeTooLarge,
    /// A text payload is not valid UTF-8.
    InvalidText,
    /// A composite holds two children for the same field.
    DuplicateField,
    /// A composite holds a child whose identifier names none of its fields,
    /// or the input starts with another element than the one asked for.
    UnexpectedField,
    /// A composite ended before every field had been seen.
    MissingField,
}

} // verus!
