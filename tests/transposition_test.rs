use ciper_tools::cipher::transposition_cipher::{
    create_transposition_matrix, get_sorted_key_indices, TranspositionCipher,
};
use ciper_tools::cipher::{CipherOperationError, EncryptionAlgorithm};
use ciper_tools::padding::pkcs7::Pkcs7Padding;
use ciper_tools::padding::PaddingValidationError;

fn cipher() -> TranspositionCipher {
    TranspositionCipher::new(Pkcs7Padding)
}

#[test]
fn key_indices_sort_stably_by_byte() {
    assert_eq!(get_sorted_key_indices(b"hello"), vec![1, 0, 2, 3, 4]);
    assert_eq!(get_sorted_key_indices(b"cab"), vec![1, 2, 0]);
    assert_eq!(get_sorted_key_indices(&[5, 5, 5]), vec![0, 1, 2]);
    assert_eq!(get_sorted_key_indices(&[]), Vec::<usize>::new());
}

#[test]
fn matrix_rows_are_zero_filled() {
    let m = create_transposition_matrix(&[1, 2, 3, 4, 5], 2);
    assert_eq!(m, vec![vec![1, 2], vec![3, 4], vec![5, 0]]);
    let m = create_transposition_matrix(&[1, 2, 3, 4], 4);
    assert_eq!(m, vec![vec![1, 2, 3, 4]]);
    assert!(create_transposition_matrix(&[], 3).is_empty());
}

#[test]
fn encrypts_known_message() {
    let c = cipher().encrypt(b"Happy new year!x", b"hello").unwrap();
    assert_eq!(
        c,
        vec![97, 110, 101, 4, 72, 32, 121, 120, 112, 101, 97, 4, 112, 119, 114, 4, 121, 32, 33, 4]
    );
    assert_eq!(cipher().encrypt(b"abc", b"ba").unwrap(), vec![98, 1, 97, 99]);
    assert_eq!(cipher().encrypt(b"abcd", b"cab").unwrap(), vec![98, 2, 99, 2, 97, 100]);
}

#[test]
fn decrypts_known_message() {
    let c = vec![97, 110, 101, 4, 72, 32, 121, 120, 112, 101, 97, 4, 112, 119, 114, 4, 121, 32, 33, 4];
    assert_eq!(cipher().decrypt(&c, b"hello").unwrap(), b"Happy new year!x".to_vec());
}

#[test]
fn round_trip_over_several_keys() {
    let plains: [&[u8]; 4] = [b"x", b"attack at dawn", b"0123456789abcdef", &[0, 255, 7, 7, 7]];
    let keys: [&[u8]; 5] = [b"k", b"zebra", b"aaaa", &[3, 1, 2, 1, 3, 0, 9], &[200; 255]];
    for p in plains {
        for k in keys {
            let c = cipher().encrypt(p, k).unwrap();
            assert_eq!(c.len() % k.len(), 0);
            assert_eq!(cipher().decrypt(&c, k).unwrap(), p.to_vec());
        }
    }
}

#[test]
fn encryption_is_deterministic() {
    let a = cipher().encrypt(b"same input", b"key").unwrap();
    let b = cipher().encrypt(b"same input", b"key").unwrap();
    assert_eq!(a, b);
}

#[test]
fn empty_key_is_rejected() {
    assert!(matches!(cipher().encrypt(b"x", b""), Err(CipherOperationError::InvalidKeySize(0))));
    assert!(matches!(cipher().decrypt(b"x", b""), Err(CipherOperationError::InvalidKeySize(0))));
    assert!(matches!(cipher().ensure_valid_key(b""), Err(CipherOperationError::InvalidKeySize(0))));
    assert!(cipher().ensure_valid_key(b"k").is_ok());
}

#[test]
fn ciphertext_length_must_match_key() {
    assert!(matches!(
        cipher().decrypt(&[1, 2, 3], b"ab"),
        Err(CipherOperationError::InvalidEncryptedMessageLength)
    ));
    assert!(matches!(
        cipher().decrypt(&[1, 2, 3, 4, 5], b"abc"),
        Err(CipherOperationError::InvalidEncryptedMessageLength)
    ));
}

#[test]
fn padding_errors_are_wrapped() {
    assert!(matches!(
        cipher().encrypt(b"", b"ab"),
        Err(CipherOperationError::PaddingValidationError(PaddingValidationError::ParameterError(_)))
    ));
    assert!(matches!(
        cipher().encrypt(b"x", &[1; 256]),
        Err(CipherOperationError::PaddingValidationError(PaddingValidationError::ParameterError(_)))
    ));
    assert!(matches!(
        cipher().decrypt(&[], b"ab"),
        Err(CipherOperationError::PaddingValidationError(PaddingValidationError::ParameterError(_)))
    ));
    assert!(matches!(
        cipher().decrypt(&[1, 2, 3, 0], b"ab"),
        Err(CipherOperationError::PaddingValidationError(PaddingValidationError::PaddingError(_)))
    ));
}

#[test]
fn transposition_base64_output() {
    let s = cipher().encrypt_and_base64(b"Happy new year!x", b"hello").unwrap();
    assert_eq!(s, "YW5lBEggeXhwZWEEcHdyBHkgIQQ=");
    assert!(matches!(
        cipher().encrypt_and_base64(b"x", b""),
        Err(CipherOperationError::InvalidKeySize(0))
    ));
}
