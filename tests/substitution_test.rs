use ciper_tools::cipher::substitution_cipher::SubstitutionCipher;
use ciper_tools::cipher::{CipherOperationError, EncryptionAlgorithm};

const REVERSED: &[u8] = b"9876543210zyxwvutsrqponmlkjihgfedcbaZYXWVUTSRQPONMLKJIHGFEDCBA";

#[test]
fn alphabet_has_sixty_two_symbols() {
    assert_eq!(SubstitutionCipher::new().alphabet_len(), 62);
}

#[test]
fn substitutes_alphabet_bytes_only() {
    let c = SubstitutionCipher::new();
    assert_eq!(c.substitute(b"Hello, World 42!", REVERSED), b"2fYYV, nVSYg FH!".to_vec());
    assert_eq!(c.encrypt(b"Hello, World 42!", REVERSED).unwrap(), b"2fYYV, nVSYg FH!".to_vec());
    assert_eq!(c.encrypt(b" .,;-", REVERSED).unwrap(), b" .,;-".to_vec());
}

#[test]
fn substitution_round_trip() {
    let c = SubstitutionCipher::new();
    let keys: [&[u8]; 2] = [
        REVERSED,
        b"qazxswedcvfrtgbnhyujmkiolpQAZXSWEDCVFRTGBNHYUJMKIOLP0918273645",
    ];
    for key in keys {
        for plain in [&b"Hello, World 42!"[..], b"", b"AZaz09", &[0, 200, 65, 10]] {
            let e = c.encrypt(plain, key).unwrap();
            assert_eq!(c.decrypt(&e, key).unwrap(), plain.to_vec());
        }
    }
}

#[test]
fn decrypts_known_text() {
    let c = SubstitutionCipher::new();
    assert_eq!(c.decrypt(b"2fYYV, nVSYg FH!", REVERSED).unwrap(), b"Hello, World 42!".to_vec());
}

#[test]
fn key_must_match_alphabet_length() {
    let c = SubstitutionCipher::new();
    assert!(matches!(c.encrypt(b"abc", b"xyz"), Err(CipherOperationError::InvalidKeySize(3))));
    assert!(matches!(c.decrypt(b"abc", b""), Err(CipherOperationError::InvalidKeySize(0))));
    assert!(matches!(
        c.encrypt_and_base64(b"abc", &REVERSED[1..]),
        Err(CipherOperationError::InvalidKeySize(61))
    ));
}

#[test]
fn substitution_base64_output() {
    let c = SubstitutionCipher::new();
    assert_eq!(c.encrypt_and_base64(b"Hello, World 42!", REVERSED).unwrap(), "MmZZWVYsIG5WU1lnIEZIIQ==");
}

#[test]
fn substitute_accepts_longer_keys() {
    let c = SubstitutionCipher::new();
    let mut key = REVERSED.to_vec();
    key.extend_from_slice(b"extra bytes");
    assert_eq!(c.substitute(b"Hello, World 42!", &key), b"2fYYV, nVSYg FH!".to_vec());
}

#[test]
fn substitute_without_alphabet_bytes_needs_no_key() {
    let c = SubstitutionCipher::new();
    assert_eq!(c.substitute(b" .,;-!", b""), b" .,;-!".to_vec());
}
