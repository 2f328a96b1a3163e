use rtf_tokenizer::grammar::ScanError;
use rtf_tokenizer::raw::Scan;
use rtf_tokenizer::raw::control_bin_raw;
use rtf_tokenizer::raw::control_symbol_raw;
use rtf_tokenizer::raw::control_word_hexbyte_raw;
use rtf_tokenizer::raw::control_word_raw;
use rtf_tokenizer::raw::end_group_raw;
use rtf_tokenizer::raw::hexbyte;
use rtf_tokenizer::raw::hexbyte_raw;
use rtf_tokenizer::raw::newline_raw;
use rtf_tokenizer::raw::rtf_text_raw;
use rtf_tokenizer::raw::signed_int;
use rtf_tokenizer::raw::signed_int_raw;
use rtf_tokenizer::raw::start_group_raw;

#[test]
fn test_signed_int_raw() {
    // (input, sign present, end of the digit run)
    let test_data: [(&[u8], bool, usize); 2] = [
        (b"123ab", false, 3),  // Positive; "ab" remains
        (b"-123ab", true, 4),  // Negative; "ab" remains
    ];
    for (input, negative, end) in test_data {
        assert_eq!(Scan::Match(negative, end), signed_int_raw(input, 0));
    }
}

#[test]
fn test_signed_int_raw_invalid() {
    let test_data: [&[u8]; 2] = [
        b"ab123",  // Positive
        b"ab-123", // Negative
    ];
    for input in test_data {
        assert_eq!(Scan::NoMatch, signed_int_raw(input, 0));
    }
}

#[test]
fn test_hexbyte_raw() {
    let test_data: [(&[u8], (u8, u8)); 2] = [
        (b"0F4E", (b'0', b'F')), // Uppercase; "4E" remains
        (b"4e0f", (b'4', b'e')), // Lowercase; "0f" remains
    ];
    for (input, digits) in test_data {
        assert_eq!(Scan::Match(digits, 2), hexbyte_raw(input, 0));
    }
}

#[test]
fn test_hexbyte_raw_invalid() {
    let test_data: [&[u8]; 2] = [
        b"ge0f", // First byte invalid
        b"eg0f", // Second byte invalid
    ];
    for input in test_data {
        assert_eq!(Scan::NoMatch, hexbyte_raw(input, 0));
    }
}

#[test]
fn test_hexbyte() {
    let input: &[u8] = b"4E2B";
    let parsed_output: u8 = 78;
    assert_eq!(Scan::Match(parsed_output, 2), hexbyte(input, 0));
}

#[test]
fn test_hexbyte_invalid() {
    let input: &[u8] = b"4G2B";
    assert_eq!(Scan::NoMatch, hexbyte(input, 0));
}

#[test]
fn test_signed_int_positive() {
    let test_data: [(&[u8], i32, usize); 2] = [
        (b"456a", 456, 3),   // Positive; "a" remains
        (b"-920b", -920, 4), // Negative; "b" remains
    ];
    for (input, value, end) in test_data {
        assert_eq!(Scan::Match(value, end), signed_int(input, 0));
    }
}

#[test]
fn test_signed_int_invalid() {
    // Overflow is a hard failure; a non-digit start is no match at all.
    assert_eq!(
        Scan::Fail(ScanError::MalformedInteger),
        signed_int(b"2147483648b", 0)
    );
    assert_eq!(Scan::NoMatch, signed_int(b"a456", 0));
}

#[test]
fn test_control_symbol_raw_valid() {
    let input: &[u8] = br#"\^t"#;
    assert_eq!(Scan::Match('^', 2), control_symbol_raw(input, 0));
}

#[test]
fn test_control_symbol_raw_invalid() {
    let test_data: [&[u8]; 2] = [
        b"hx",        // No starting slash
        br#"\hx"#,    // Excluded char
    ];
    for input in test_data {
        assert_eq!(Scan::NoMatch, control_symbol_raw(input, 0));
    }
}

#[test]
fn test_control_word_raw_valid() {
    let test_data: [(&[u8], (&str, Option<i32>), usize); 6] = [
        (br#"\tag\tag67"#, ("tag", None), 4),       // No int, no space
        (br#"\tag \tag67"#, ("tag", None), 5),      // No int, optional space
        (br#"\tag45\tag67"#, ("tag", Some(45)), 6), // Positive int, no space
        (br#"\tag45 \tag67"#, ("tag", Some(45)), 7), // Positive int, optional space
        (br#"\tag-45\tag67"#, ("tag", Some(-45)), 7), // Negative int, no space
        (br#"\tag-45 \tag67"#, ("tag", Some(-45)), 8), // Negative int, optional space
    ];
    for (input, (name, arg), end) in test_data {
        assert_eq!(
            Scan::Match((String::from(name), arg), end),
            control_word_raw(input, 0)
        );
    }
}

#[test]
fn test_control_word_raw_invalid() {
    let test_data: [&[u8]; 2] = [
        br#"dfg-45 \tag67"#, // No slash
        br#"\*#~-45 \tag67"#, // Invalid chars in control word
    ];
    for input in test_data {
        assert_eq!(Scan::NoMatch, control_word_raw(input, 0));
    }
}

#[test]
fn test_control_word_hexbyte_raw() {
    let input: &[u8] = br#"\'9F4E"#;
    assert_eq!(
        Scan::Match((String::from("'"), Some(159i32)), 4),
        control_word_hexbyte_raw(input, 0)
    );
}

#[test]
fn test_control_word_hexbyte_raw_invalid() {
    // No slash, and no apostrophe: no match at all.
    assert_eq!(Scan::NoMatch, control_word_hexbyte_raw(b"'9F4E", 0));
    assert_eq!(Scan::NoMatch, control_word_hexbyte_raw(br#"\9F4E"#, 0));
    // The prefix is present but the hex digits are not: a hard failure.
    assert_eq!(
        Scan::Fail(ScanError::InvalidHexDigit),
        control_word_hexbyte_raw(br#"\'R9F4E"#, 0)
    );
}

#[test]
fn test_control_bin_raw() {
    let test_data: [(&[u8], &[u8], usize); 3] = [
        (br#"\bin2 ABCD"#, b"AB", 8), // Optional length & space; "CD" remains
        (br#"\bin2ABCD"#, b"AB", 7),  // Optional length, no space; "CD" remains
        (br#"\binABCD"#, b"", 4),     // No length, no space; "ABCD" remains
    ];
    for (input, payload, end) in test_data {
        assert_eq!(Scan::Match(payload.to_vec(), end), control_bin_raw(input, 0));
    }
}

#[test]
fn test_control_bin_raw_invalid_tag() {
    let input: &[u8] = br#"\abcABCD"#;
    assert_eq!(Scan::NoMatch, control_bin_raw(input, 0));
}

#[test]
fn test_rtf_text_raw() {
    let test_data: [(&[u8], &[u8]); 5] = [
        (br#"123\abc"#, b"123"), // Parse upto slash
        (b"123}abc", b"123"),    // Parse upto closing curly brace
        (b"123{abc", b"123"),    // Parse upto opening curly brace
        (b"123\rabc", b"123"),   // CR
        (b"123\nabc", b"123"),   // LF
    ];
    for (input, payload) in test_data {
        assert_eq!(Scan::Match(payload.to_vec(), 3), rtf_text_raw(input, 0));
    }
}

#[test]
fn test_start_group_raw() {
    let input: &[u8] = b"{abc";
    assert_eq!(Scan::Match('{', 1), start_group_raw(input, 0));
}

#[test]
fn test_start_group_raw_invalid() {
    let input: &[u8] = b"a{bc";
    assert_eq!(Scan::NoMatch, start_group_raw(input, 0));
}

#[test]
fn test_end_group_raw() {
    let input: &[u8] = b"}abc";
    assert_eq!(Scan::Match('}', 1), end_group_raw(input, 0));
}

#[test]
fn test_end_group_raw_invalid() {
    let input: &[u8] = b"a}bc";
    assert_eq!(Scan::NoMatch, end_group_raw(input, 0));
}

#[test]
fn test_newline_raw() {
    let test_data: [(&[u8], &[u8], usize); 3] = [
        (b"\r\nabc", b"\r\n", 2), // CRLF
        (b"\nabc", b"\n", 1),     // \n
        (b"\rabc", b"\r", 1),     // \r
    ];
    for (input, consumed, end) in test_data {
        assert_eq!(Scan::Match(consumed.to_vec(), end), newline_raw(input, 0));
    }
}

#[test]
fn test_newline_raw_invalid() {
    let test_data: [&[u8]; 3] = [
        b"a\r\nbc", // CRLF
        b"a\nbc",   // \n
        b"a\rbc",   // \r
    ];
    for input in test_data {
        assert_eq!(Scan::NoMatch, newline_raw(input, 0));
    }
}
