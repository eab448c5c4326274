use ciper_tools::padding::pkcs7::Pkcs7Padding;
use ciper_tools::padding::{PaddingStrategy, PaddingValidationError};

#[test]
fn test_append_padding_valid() {
    let data = vec![1, 2, 3];
    let block_size = 4;

    let pkcs7 = Pkcs7Padding;
    let padded_data = pkcs7.apply_padding(&data, block_size).unwrap();
    assert_eq!(padded_data, vec![1, 2, 3, 1]); // 1-byte padding
}

#[test]
fn test_remove_padding_valid() {
    let data = vec![1, 2, 3, 1];
    let block_size = 4;
    let pkcs7 = Pkcs7Padding;
    let unpadded_data = pkcs7.strip_padding(&data, block_size).unwrap();
    assert_eq!(unpadded_data, vec![1, 2, 3]);
}

#[test]
fn aligned_data_gets_a_full_block() {
    let padded = Pkcs7Padding.apply_padding(&[1, 2, 3, 4], 4).unwrap();
    assert_eq!(padded, vec![1, 2, 3, 4, 4, 4, 4, 4]);
}

#[test]
fn padding_then_stripping_gives_data_back() {
    let data: Vec<u8> = (0u8..37).collect();
    for block_size in [1u32, 2, 7, 16, 255] {
        let padded = Pkcs7Padding.apply_padding(&data, block_size).unwrap();
        assert_eq!(padded.len() % block_size as usize, 0);
        assert!(padded.len() > data.len());
        assert_eq!(Pkcs7Padding.strip_padding(&padded, block_size).unwrap(), data);
    }
}

#[test]
fn apply_padding_rejects_bad_parameters() {
    assert!(matches!(
        Pkcs7Padding.apply_padding(&[], 4),
        Err(PaddingValidationError::ParameterError(_))
    ));
    assert!(matches!(
        Pkcs7Padding.apply_padding(&[1], 0),
        Err(PaddingValidationError::ParameterError(_))
    ));
    assert!(matches!(
        Pkcs7Padding.apply_padding(&[1], 256),
        Err(PaddingValidationError::ParameterError(_))
    ));
    assert_eq!(Pkcs7Padding.apply_padding(&[1], 255).unwrap().len(), 255);
}

#[test]
fn strip_padding_rejects_bad_parameters() {
    assert!(matches!(
        Pkcs7Padding.strip_padding(&[], 4),
        Err(PaddingValidationError::ParameterError(_))
    ));
    assert!(matches!(
        Pkcs7Padding.strip_padding(&[1, 2, 3, 1], 0),
        Err(PaddingValidationError::ParameterError(_))
    ));
    assert!(matches!(
        Pkcs7Padding.strip_padding(&[1, 2, 3, 1], 300),
        Err(PaddingValidationError::ParameterError(_))
    ));
    assert!(matches!(
        Pkcs7Padding.strip_padding(&[1, 2, 1], 4),
        Err(PaddingValidationError::ParameterError(_))
    ));
}

#[test]
fn strip_padding_rejects_malformed_padding() {
    assert!(matches!(
        Pkcs7Padding.strip_padding(&[1, 2, 3, 0], 4),
        Err(PaddingValidationError::PaddingError(_))
    ));
    assert!(matches!(
        Pkcs7Padding.strip_padding(&[1, 2, 3, 5], 4),
        Err(PaddingValidationError::PaddingError(_))
    ));
    assert!(matches!(
        Pkcs7Padding.strip_padding(&[1, 2, 3, 3], 4),
        Err(PaddingValidationError::PaddingError(_))
    ));
    assert_eq!(Pkcs7Padding.strip_padding(&[1, 3, 3, 3], 4).unwrap(), vec![1]);
    assert_eq!(Pkcs7Padding.strip_padding(&[4, 4, 4, 4], 4).unwrap(), Vec::<u8>::new());
}

#[test]
fn validate_padding_checks_value_and_content() {
    assert!(Pkcs7Padding.validate_padding(&[9, 2, 2], 4).is_ok());
    assert!(matches!(
        Pkcs7Padding.validate_padding(&[9, 1, 2], 4),
        Err(PaddingValidationError::PaddingError(_))
    ));
    assert!(matches!(
        Pkcs7Padding.validate_padding(&[3], 4),
        Err(PaddingValidationError::PaddingError(_))
    ));
    assert!(matches!(
        Pkcs7Padding.validate_padding(&[1, 2], 1),
        Err(PaddingValidationError::PaddingError(_))
    ));
}
