use rtf_tokenizer::grammar::ScanError;
use rtf_tokenizer::raw::Scan;
use rtf_tokenizer::raw::signed_int;
use rtf_tokenizer::tokenizer::Token;
use rtf_tokenizer::tokenizer::parse;
use rtf_tokenizer::tokenizer::read_token;
use rtf_tokenizer::tokenizer::read_token_stream;

#[test]
fn test_control_symbol() {
    let syms_str: &[u8] = br#"\*\.\+\~"#;
    let valid_syms = vec![
        Token::ControlSymbol('*'),
        Token::ControlSymbol('.'),
        Token::ControlSymbol('+'),
        Token::ControlSymbol('~'),
    ];
    let syms = read_token_stream(syms_str);
    assert_eq!(syms.unwrap(), valid_syms);
}

#[test]
fn test_signed_int() {
    let ints_str: &[u8] = br#"1,0,10,-15,-32765,16328,-73,-0"#;
    let valid_ints = vec![1, 0, 10, -15, -32765, 16328, -73, 0];
    let mut ints: Vec<i32> = Vec::new();
    let mut pos: usize = 0;
    loop {
        match signed_int(ints_str, pos) {
            Scan::Match(v, e) => {
                ints.push(v);
                pos = e;
            }
            other => panic!("expected an integer at {}: {:?}", pos, other),
        }
        if pos == ints_str.len() {
            break;
        }
        assert_eq!(ints_str[pos], b',');
        pos += 1;
    }
    assert_eq!(ints, valid_ints);
}

#[test]
fn test_control_word() {
    let words_str: &[u8] = br#"\par\b0\b\uncle\foo-5\applepi314159"#;
    let valid_words = vec![
        Token::ControlWord { name: "par".to_string(), arg: None },
        Token::ControlWord { name: "b".to_string(), arg: Some(0) },
        Token::ControlWord { name: "b".to_string(), arg: None },
        Token::ControlWord { name: "uncle".to_string(), arg: None },
        Token::ControlWord { name: "foo".to_string(), arg: Some(-5) },
        Token::ControlWord { name: "applepi".to_string(), arg: Some(314159) },
    ];
    let words = read_token_stream(words_str);
    assert_eq!(words.unwrap(), valid_words);
}

#[test]
fn test_control_symbol_tokens() {
    let syms_str: &[u8] = br#"\*\.\+\~"#;
    let valid_syms = vec![
        Token::ControlSymbol('*'),
        Token::ControlSymbol('.'),
        Token::ControlSymbol('+'),
        Token::ControlSymbol('~'),
    ];
    let syms = read_token_stream(syms_str);
    assert_eq!(syms.unwrap(), valid_syms);
}

#[test]
fn test_control_word_tokens() {
    let words_str: &[u8] = br#"\par\b0\b\uncle\foo-5\applepi314159"#;
    let valid_words = vec![
        Token::ControlWord { name: "par".to_string(), arg: None },
        Token::ControlWord { name: "b".to_string(), arg: Some(0) },
        Token::ControlWord { name: "b".to_string(), arg: None },
        Token::ControlWord { name: "uncle".to_string(), arg: None },
        Token::ControlWord { name: "foo".to_string(), arg: Some(-5) },
        Token::ControlWord { name: "applepi".to_string(), arg: Some(314159) },
    ];
    let words = read_token_stream(words_str);
    assert_eq!(words.unwrap(), valid_words);
}

#[test]
fn test_control_bin_tokens() {
    let bins_str: &[u8] = b"\\bin5 ABC{}\\bin1 {\\bin0 \\bin0\\bin1  \\bin1\x01\\bin1 \x02";
    let valid_bins = vec![
        Token::ControlBin(b"ABC{}".to_vec()),
        Token::ControlBin(b"{".to_vec()),
        Token::ControlBin(b"".to_vec()),
        Token::ControlBin(b"".to_vec()),
        Token::ControlBin(b" ".to_vec()),
        Token::ControlBin(b"\x01".to_vec()),
        Token::ControlBin(b"\x02".to_vec()),
    ];
    let bins = read_token_stream(bins_str);
    assert_eq!(bins.unwrap(), valid_bins);
}

#[test]
fn test_control() {
    let controls_str: &[u8] =
        b"\\*\\bin5 ABC{}\\b\\bin1 {\\bin0 \\b0\\bin0\\bin1  \\supercalifragilistic31415\\bin1\x01\\bin1 \x02";
    let valid_controls = vec![
        Token::ControlSymbol('*'),
        Token::ControlBin(b"ABC{}".to_vec()),
        Token::ControlWord { name: "b".to_string(), arg: None },
        Token::ControlBin(b"{".to_vec()),
        Token::ControlBin(b"".to_vec()),
        Token::ControlWord { name: "b".to_string(), arg: Some(0) },
        Token::ControlBin(b"".to_vec()),
        Token::ControlBin(b" ".to_vec()),
        Token::ControlWord { name: "supercalifragilistic".to_string(), arg: Some(31415) },
        Token::ControlBin(b"\x01".to_vec()),
        Token::ControlBin(b"\x02".to_vec()),
    ];
    let controls = read_token_stream(controls_str);
    assert_eq!(controls.unwrap(), valid_controls);
}

#[test]
fn test_group_tokens() {
    // Have to be very careful here to insert crlf, regardless of host platform
    let group_content_str: &[u8] = b"\\b Hello World \\b0 \\par\r\nThis is a test {\\*\\nothing}";
    let valid_group_content = vec![
        Token::ControlWord { name: "b".to_string(), arg: None },
        Token::Text(b"Hello World ".to_vec()),
        Token::ControlWord { name: "b".to_string(), arg: Some(0) },
        Token::ControlWord { name: "par".to_string(), arg: None },
        Token::Newline,
        Token::Text(b"This is a test ".to_vec()),
        Token::StartGroup,
        Token::ControlSymbol('*'),
        Token::ControlWord { name: "nothing".to_string(), arg: None },
        Token::EndGroup,
    ];
    let group_content = read_token_stream(group_content_str);
    assert_eq!(group_content.unwrap(), valid_group_content);
}

#[test]
fn test_parse_matches_read_token_stream() {
    let input: &[u8] = b"{\\b bold}\r\n";
    assert_eq!(parse(input).unwrap(), read_token_stream(input).unwrap());
}

#[test]
fn test_read_token_single() {
    let input: &[u8] = b"{rest";
    match read_token(input, 0) {
        Scan::Match(t, e) => {
            assert_eq!(t, Token::StartGroup);
            assert_eq!(e, 1);
        }
        other => panic!("expected a token: {:?}", other),
    }
}

#[test]
fn test_empty_input() {
    let tokens = read_token_stream(b"").unwrap();
    assert_eq!(tokens, Vec::<Token>::new());
}

#[test]
fn test_integer_overflow_rejected() {
    // An argument beyond the 32-bit signed range is a hard failure, not
    // a wrapped or truncated value.
    let failure = read_token_stream(br#"\foo99999999999"#).unwrap_err();
    assert_eq!(failure.error, ScanError::MalformedInteger);
    assert_eq!(failure.offset, 0);
    assert_eq!(failure.tokens, Vec::<Token>::new());
}

#[test]
fn test_truncated_bin_rejected() {
    // The declared length exceeds the remaining input: no truncated
    // binary token is produced.
    let failure = read_token_stream(b"x\\bin5 ABC").unwrap_err();
    assert_eq!(failure.error, ScanError::TruncatedBinaryPayload);
    assert_eq!(failure.offset, 1);
    assert_eq!(failure.tokens, vec![Token::Text(b"x".to_vec())]);
}

#[test]
fn test_invalid_hex_rejected() {
    let failure = read_token_stream(br#"\'4G"#).unwrap_err();
    assert_eq!(failure.error, ScanError::InvalidHexDigit);
    assert_eq!(failure.offset, 0);
}

#[test]
fn test_trailing_backslash_unrecognized() {
    // A lone backslash at the end of input is the one byte no
    // recognizer can consume.
    let failure = read_token_stream(b"abc\\").unwrap_err();
    assert_eq!(failure.error, ScanError::UnrecognizedInput);
    assert_eq!(failure.offset, 3);
    assert_eq!(failure.tokens, vec![Token::Text(b"abc".to_vec())]);
}

#[test]
fn test_bin_negative_length_is_word() {
    // A negative length is no binary run: `bin` scans as an ordinary
    // control word with a negative argument.
    let tokens = read_token_stream(b"\\bin-5 X").unwrap();
    assert_eq!(
        tokens,
        vec![
            Token::ControlWord { name: "bin".to_string(), arg: Some(-5) },
            Token::Text(b"X".to_vec()),
        ]
    );
}

#[test]
fn test_bin_longer_word_not_swallowed() {
    // `\binary` is `\bin` with no length: an empty binary run, then text.
    let tokens = read_token_stream(b"\\binary").unwrap();
    assert_eq!(
        tokens,
        vec![Token::ControlBin(Vec::new()), Token::Text(b"ary".to_vec())]
    );
}
