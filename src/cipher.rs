//! Cipher interface and its error type.

use base64::Engine;
use vstd::prelude::*;

use crate::padding::PaddingValidationError;

pub mod substitution_cipher;
pub mod transposition_cipher;

verus! {

/// Why a cipher operation failed.
#[derive(Debug, PartialEq, Eq)]
pub enum CipherOperationError {
    InvalidKeySize(usize),
    PaddingValidationError(PaddingValidationError),
    InvalidEncryptedMessageLength,
}

/// A cipher with a byte-string key.
pub trait EncryptionAlgorithm {
    /// Encrypts `plain` with `key`.
    fn encrypt(&self, plain: &[u8], key: &[u8]) -> Result<Vec<u8>, CipherOperationError>;

    /// Decrypts `encrypted` with `key`.
    fn decrypt(&self, encrypted: &[u8], key: &[u8]) -> Result<Vec<u8>, CipherOperationError>;

    /// Rejects an empty key.
    fn ensure_valid_key(&self, key: &[u8]) -> (r: Result<(), CipherOperationError>)
        ensures
            key@.len() == 0 ==> r == Err::<(), CipherOperationError>(CipherOperationError::InvalidKeySize(0)),
            key@.len() > 0 ==> r is Ok,
    {
        if key.len() == 0 {
            return Err(CipherOperationError::InvalidKeySize(0));
        }
        Ok(())
    }
}

/// The padded standard base64 text of `bytes`.
pub uninterp spec fn base64_standard(bytes: Seq<u8>) -> Seq<char>;

/// Relies on base64's `STANDARD.encode` (`Engine::encode` with the standard
/// alphabet and padding): the text is `base64_standard(bytes)`, four
/// characters for each started group of three bytes. It panics only where
/// that length overflows `usize`.
#[verifier::external_body]
pub(crate) fn encode_base64(bytes: &[u8]) -> (r: String)
    requires
        bytes@.len() / 3 * 4 + 4 <= usize::MAX,
    ensures
        r@ == base64_standard(bytes@),
        r@.len() == 4 * ((bytes@.len() + 2) / 3),
{
    base64::engine::general_purpose::STANDARD.encode(bytes)
}

} // verus!
