use radix64::{Config, DecodeError, STD};

#[test]
fn detect_trailing_bits() {
    assert!(STD.decode("iYU=".as_bytes()).is_ok());
    assert_eq!(Err(DecodeError::InvalidTrailingBits), STD.decode("iYV=".as_bytes()));
    assert_eq!(Err(DecodeError::InvalidTrailingBits), STD.decode("iYW=".as_bytes()));
    assert_eq!(Err(DecodeError::InvalidTrailingBits), STD.decode("iYX=".as_bytes()));
    assert_eq!(
        Err(DecodeError::InvalidTrailingBits),
        STD.decode("AAAAiYX=".as_bytes())
    );
}
