use fuid::base62::{decode, encode, DecodeError};

#[test]
fn test_encode() {
    assert_eq!(encode(852751187393), "F0ob4rZ");
}

#[test]
fn test_decode() {
    assert_eq!(decode("F0ob4rZ").unwrap(), 852751187393);
}

#[test]
fn test_decode_invalid_char() {
    assert!(decode("ds{Z455f").is_err());
    assert_eq!(decode("ds{Z455f").unwrap_err().to_string(), "InvalidBase62Byte('{', 3)");
}

#[test]
fn test_decode_long_string() {
    assert!(decode(
        "dsZ455fzzzzzzzzzzzzzzzzzzzzzzzzzzzzzzzzzzzzzzzzzzzzzzzzzzzzzzzzz\
                                zzzzzzzzzzzzzzzzzzzzzzzzzzzzzzzzzzzzzzzzzzz"
    )
    .is_err());
}

#[test]
fn test_zero_forms() {
    assert_eq!(encode(0), "0");
    assert_eq!(decode("0").unwrap(), 0);
    assert_eq!(decode("").unwrap(), 0);
}

#[test]
fn test_round_trip_samples() {
    let samples: Vec<u128> = vec![1, 9, 10, 35, 36, 61, 62, 3843, 3844, 852751187393, u128::MAX];
    for n in samples {
        let s = encode(n);
        assert!(!s.starts_with('0'));
        assert_eq!(decode(&s).unwrap(), n);
    }
}

#[test]
fn test_known_symbols() {
    assert_eq!(encode(9), "9");
    assert_eq!(encode(10), "A");
    assert_eq!(encode(35), "Z");
    assert_eq!(encode(36), "a");
    assert_eq!(encode(61), "z");
    assert_eq!(encode(62), "10");
}

#[test]
fn test_max_length() {
    assert_eq!(encode(u128::MAX).len(), 22);
}

#[test]
fn test_alphabet_closure() {
    assert!(decode("ab!").is_err());
    assert!(decode("Hello World").is_err());
    assert!(decode("Base62").is_ok());
    assert!(decode("00000000000000000000000000000000").is_ok());
    assert_eq!(decode("00000000000000000000000000000000").unwrap(), 0);
}

#[test]
fn test_invalid_symbol_position() {
    assert_eq!(
        decode("ds{Z455f").unwrap_err(),
        DecodeError::InvalidBase62Byte('{', 3)
    );
    // The scan runs right to left, so the rightmost bad character is the one
    // reported, at its 1-based position from the start.
    assert_eq!(
        decode("a!b!c").unwrap_err(),
        DecodeError::InvalidBase62Byte('!', 4)
    );
    assert_eq!(
        decode("é").unwrap_err(),
        DecodeError::InvalidBase62Byte('é', 1)
    );
}

#[test]
fn test_overflow() {
    let long = "z".repeat(65);
    assert_eq!(decode(&long).unwrap_err(), DecodeError::ArithmeticOverflow);
    let shortest = "z".repeat(22);
    assert_eq!(decode(&shortest).unwrap_err(), DecodeError::ArithmeticOverflow);
    // One past the largest value: a one followed by 22 zero symbols.
    let mut just_over = String::from("1");
    just_over.push_str(&"0".repeat(22));
    assert_eq!(decode(&just_over).unwrap_err(), DecodeError::ArithmeticOverflow);
    // An invalid symbol left of an overflowing tail: the overflow is seen first.
    let mut mixed = String::from("{");
    mixed.push_str(&"z".repeat(30));
    assert_eq!(decode(&mixed).unwrap_err(), DecodeError::ArithmeticOverflow);
}

#[test]
fn test_error_text() {
    assert_eq!(DecodeError::ArithmeticOverflow.to_string(), "ArithmeticOverflow");
    assert_eq!(
        DecodeError::InvalidBase62Byte(' ', 120).to_string(),
        "InvalidBase62Byte(' ', 120)"
    );
}
