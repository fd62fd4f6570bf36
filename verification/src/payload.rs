//! Decoders for the payload of a single element.
//!
//! Each decoder is handed the bytes that follow an element's size together
//! with that size. It reads exactly `size` bytes and hands back what comes
//! after them. A slice shorter than `size` needs more bytes.

use vstd::prelude::*;
use vstd::slice::{slice_subrange, slice_to_vec};
use vstd::utf8::{decode_utf8, encode_utf8, encode_utf8_decode_utf8, encode_utf8_valid_utf8, valid_utf8};
use crate::error::DecodeError;
use crate::varint::{
    accumulate, be_value, lemma_be_value_bound, lemma_pow256_eight, lemma_pow256_monotonic, pow256,
};

verus! {

/// The unsigned integer held by the first `size` bytes of `s`.
///
/// More than eight bytes cannot be held in 64 bits and are rejected before
/// the length of `s` is looked at.
pub open spec fn spec_parse_uint_data(s: Seq<u8>, size: u64) -> Result<u64, DecodeError> {
    if size > 8 {
        Err(DecodeError::SizeTooLarge)
    } else if s.len() < size {
        Err(DecodeError::NeedMoreBytes)
    } else {
        Ok(be_value(s.take(size as int)) as u64)
    }
}

/// The text held by the first `size` bytes of `s`, which must be UTF-8.
pub open spec fn spec_parse_str_data(s: Seq<u8>, size: u64) -> Result<Seq<char>, DecodeError> {
    if s.len() < size {
        Err(DecodeError::NeedMoreBytes)
    } else if !valid_utf8(s.take(size as int)) {
        Err(DecodeError::InvalidText)
    } else {
        Ok(decode_utf8(s.take(size as int)))
    }
}

/// The first `size` bytes of `s`, as they stand.
pub open spec fn spec_parse_binary_data(s: Seq<u8>, size: u64) -> Result<Seq<u8>, DecodeError> {
    if s.len() < size {
        Err(DecodeError::NeedMoreBytes)
    } else {
        Ok(s.take(size as int))
    }
}

/// Calls `String::from_utf8`.
///
/// The standard library documents that the call succeeds exactly when the
/// bytes are valid UTF-8 and that the string it then returns owns those very
/// bytes. The contract says the same: on success the UTF-8 encoding of the
/// text is `bytes`; on failure `bytes` is not valid UTF-8.
#[verifier::external_body]
fn string_from_utf8(bytes: Vec<u8>) -> (r: Option<String>)
    ensures
        match r {
            Some(text) => encode_utf8(text@) == bytes@,
            None => !valid_utf8(bytes@),
        },
{
    match String::from_utf8(bytes) {
        Ok(text) => Some(text),
        Err(_) => None,
    }
}

/// An unsigned integer declared longer than eight bytes is too large,
/// whatever the bytes are and however many there are.
pub proof fn lemma_unsigned_too_large(s: Seq<u8>, size: u64)
    requires
        size > 8,
    ensures
        spec_parse_uint_data(s, size) == Err::<u64, DecodeError>(DecodeError::SizeTooLarge),
{
}

/// Decodes an unsigned integer of `size` bytes, most significant byte first.
pub fn parse_uint_data<'a>(input: &'a [u8], size: u64) -> (r: Result<(&'a [u8], u64), DecodeError>)
    ensures
        match spec_parse_uint_data(input@, size) {
            Ok(value) => r matches Ok((rest, v)) && rest@ == input@.skip(size as int) && v
                == value,
            Err(e) => r matches Err(x) && x == e,
        },
{
    if size > 8 {
        return Err(DecodeError::SizeTooLarge);
    }
    let n = size as usize;
    if input.len() < n {
        return Err(DecodeError::NeedMoreBytes);
    }
    proof {
        lemma_pow256_monotonic(n as nat, 8);
        lemma_pow256_eight();
        lemma_be_value_bound(input@.take(n as int));
        assert((0 + 1) * pow256(n as nat) == pow256(n as nat)) by (nonlinear_arith);
        assert(0 * pow256(n as nat) == 0) by (nonlinear_arith);
    }
    let val = accumulate(0, input, 0, n);
    Ok((slice_subrange(input, n, input.len()), val))
}

/// Decodes a text of `size` bytes.
///
/// Bytes that are not UTF-8 are reported as [`DecodeError::InvalidText`].
pub fn parse_str_data<'a>(input: &'a [u8], size: u64) -> (r: Result<
    (&'a [u8], String),
    DecodeError,
>)
    ensures
        match spec_parse_str_data(input@, size) {
            Ok(value) => r matches Ok((rest, text)) && rest@ == input@.skip(size as int)
                && text@ == value,
            Err(e) => r matches Err(x) && x == e,
        },
{
    if (input.len() as u64) < size {
        return Err(DecodeError::NeedMoreBytes);
    }
    let n = size as usize;
    let bytes = slice_to_vec(slice_subrange(input, 0, n));
    match string_from_utf8(bytes) {
        Some(text) => {
            proof {
                encode_utf8_valid_utf8(text@);
                encode_utf8_decode_utf8(text@);
            }
            Ok((slice_subrange(input, n, input.len()), text))
        },
        None => Err(DecodeError::InvalidText),
    }
}

/// Takes `size` bytes as they are.
pub fn parse_binary_data<'a>(input: &'a [u8], size: u64) -> (r: Result<
    (&'a [u8], Vec<u8>),
    DecodeError,
>)
    ensures
        match spec_parse_binary_data(input@, size) {
            Ok(value) => r matches Ok((rest, bytes)) && rest@ == input@.skip(size as int)
                && bytes@ == value,
            Err(e) => r matches Err(x) && x == e,
        },
{
    if (input.len() as u64) < size {
        return Err(DecodeError::NeedMoreBytes);
    }
    let n = size as usize;
    let bytes = slice_to_vec(slice_subrange(input, 0, n));
    Ok((slice_subrange(input, n, input.len()), bytes))
}

} // verus!
