//! Block padding strategies and their shared error type.

use vstd::prelude::*;

pub mod pkcs7;

verus! {

/// Why padding could not be applied or removed.
#[derive(Debug, PartialEq, Eq)]
pub enum PaddingValidationError {
    InvalidBlockLength,
    PaddingError(String),
    InvalidMessageLength,
    ParameterError(&'static str),
}

/// A block padding scheme: pads data up to a multiple of a block length and
/// removes that padding again.
pub trait PaddingStrategy {
    /// Pads `data` up to a multiple of `block_length`.
    fn apply_padding(&self, data: &[u8], block_length: u32) -> Result<Vec<u8>, PaddingValidationError>;

    /// Removes the padding that `apply_padding` added.
    fn strip_padding(&self, data: &[u8], block_length: u32) -> Result<Vec<u8>, PaddingValidationError>;

    /// Checks the padding at the end of non-empty `data`.
    fn validate_padding(&self, data: &[u8], block_size: u8) -> Result<(), PaddingValidationError>
        requires
            data@.len() > 0,
    ;
}

} // verus!
