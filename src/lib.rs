//! Classical ciphers: a keyed columnar transposition cipher with block
//! padding, and a keyed monoalphabetic substitution cipher.

pub mod cipher;
pub mod padding;
