use tuidict::codec::{decode_number, NumberError};

#[test]
fn test_decode_single_digits() {
    assert_eq!(decode_number("A"), Ok(0));
    assert_eq!(decode_number("B"), Ok(1));
    assert_eq!(decode_number("Z"), Ok(25));
    assert_eq!(decode_number("a"), Ok(26));
    assert_eq!(decode_number("z"), Ok(51));
    assert_eq!(decode_number("0"), Ok(52));
    assert_eq!(decode_number("9"), Ok(61));
    assert_eq!(decode_number("+"), Ok(62));
    assert_eq!(decode_number("/"), Ok(63));
}

#[test]
fn test_decode_positional() {
    // Big-endian base 64: "BC" is 1 * 64 + 2.
    assert_eq!(decode_number("BC"), Ok(66));
    assert_eq!(decode_number("BA"), Ok(64));
    assert_eq!(decode_number("BAA"), Ok(4096));
    assert_eq!(decode_number("//"), Ok(64 * 64 - 1));
}

#[test]
fn test_decode_empty_is_zero() {
    assert_eq!(decode_number(""), Ok(0));
}

#[test]
fn test_decode_invalid_digit() {
    assert_eq!(decode_number("!"), Err(NumberError::InvalidDigit));
    assert_eq!(decode_number("AB-"), Err(NumberError::InvalidDigit));
    assert_eq!(decode_number(" "), Err(NumberError::InvalidDigit));
}

#[test]
fn test_decode_overflow() {
    // Eleven digits reach 64^11 - 1, past the 64-bit range.
    assert_eq!(decode_number("///////////"), Err(NumberError::Overflow));
    // Ten digits of the largest symbol still fit.
    assert_eq!(decode_number("//////////"), Ok(64u64.pow(10) - 1));
}

#[test]
fn test_decode_overflow_before_invalid_digit() {
    // The scan hits the overflow before it reaches the bad character.
    assert_eq!(decode_number("////////////!"), Err(NumberError::Overflow));
    // The bad character comes first here.
    assert_eq!(decode_number("!////////////"), Err(NumberError::InvalidDigit));
}
