use rtf_tokenizer::raw::IntError;
use rtf_tokenizer::raw::hex_str_to_int;
use rtf_tokenizer::raw::str_to_int;

#[test]
fn test_str_to_int() {
    let test_data: [(&str, Option<&str>, i32); 3] = [
        ("1234", Some("+"), 1234),  // Positive
        ("1234", Some("-"), -1234), // Negative
        ("1234", None, 1234),       // No sign
    ];
    for (input_str, input_sign, parsed_output) in test_data {
        assert_eq!(Ok(parsed_output), str_to_int(input_str, input_sign));
    }
}

#[test]
fn test_str_to_int_invalid_str() {
    let input_str = "BF";
    let input_sign = Some("+");
    assert_eq!(Err(IntError::InvalidDigit), str_to_int(input_str, input_sign));
}

#[test]
// We dont really need to test the conversion from hex to int, but let check the results /
// errors returned.
fn test_hex_str_to_int() {
    let input = "0F";
    let parsed_output: u8 = 15;
    assert_eq!(Ok(parsed_output), hex_str_to_int(input));
}

#[test]
fn test_hex_str_to_int_invalid() {
    let test_data = [
        ("uj", IntError::InvalidDigit),  // Invalid input
        ("9D4B", IntError::PosOverflow), // Overflow
        ("", IntError::Empty),           // Empty input
    ];
    for (input, err) in test_data {
        assert_eq!(Err(err), hex_str_to_int(input));
    }
}

#[test]
fn test_str_to_int_overflow() {
    assert_eq!(Err(IntError::PosOverflow), str_to_int("2147483648", None));
    assert_eq!(Err(IntError::PosOverflow), str_to_int("2147483648", Some("-")));
    assert_eq!(Ok(2147483647), str_to_int("2147483647", None));
    assert_eq!(Ok(-2147483647), str_to_int("2147483647", Some("-")));
}

#[test]
fn test_str_to_int_empty() {
    assert_eq!(Err(IntError::Empty), str_to_int("", None));
    assert_eq!(Err(IntError::Empty), str_to_int("", Some("-")));
}

#[test]
fn test_hex_str_to_int_bounds() {
    assert_eq!(Ok(255), hex_str_to_int("FF"));
    assert_eq!(Ok(255), hex_str_to_int("ff"));
    assert_eq!(Ok(0), hex_str_to_int("00"));
    assert_eq!(Err(IntError::PosOverflow), hex_str_to_int("100"));
}
