use rtf_tokenizer::tokenizer::Token;
use rtf_tokenizer::tokenizer::read_token_stream;
use rtf_tokenizer::tokenizer::serialize_tokens;

#[test]
fn test_hexescape_precedence() {
    // The hex escape wins over the symbol recognizer: one control word
    // named `'` with the decoded byte, never a symbol plus digit text.
    let tokens = read_token_stream(br#"\'4E"#).unwrap();
    assert_eq!(
        tokens,
        vec![Token::ControlWord { name: "'".to_string(), arg: Some(78) }]
    );
}

#[test]
fn test_binary_opacity() {
    // Length-prefixed consumption overrides delimiter recognition: the
    // payload's brace and backslash bytes stay inside one token.
    let tokens = read_token_stream(b"\\bin3{}\\").unwrap();
    assert_eq!(tokens, vec![Token::ControlBin(vec![0x7B, 0x7D, 0x5C])]);
}

#[test]
fn test_space_absorption_asymmetry() {
    // A control word absorbs one trailing space as a delimiter...
    let tokens = read_token_stream(b"\\foo5 bar").unwrap();
    assert_eq!(
        tokens,
        vec![
            Token::ControlWord { name: "foo".to_string(), arg: Some(5) },
            Token::Text(b"bar".to_vec()),
        ]
    );
    // ...but a hex escape never does: the digits after it are text,
    let tokens = read_token_stream(b"\\'354E").unwrap();
    assert_eq!(
        tokens,
        vec![
            Token::ControlWord { name: "'".to_string(), arg: Some(0x35) },
            Token::Text(b"4E".to_vec()),
        ]
    );
    // ...and a space after it stays in the following text run.
    let tokens = read_token_stream(b"\\'35 4E").unwrap();
    assert_eq!(
        tokens,
        vec![
            Token::ControlWord { name: "'".to_string(), arg: Some(0x35) },
            Token::Text(b" 4E".to_vec()),
        ]
    );
}

#[test]
fn test_unbalanced_groups_tolerated() {
    // More opens than closes, and the reverse: both tokenize completely.
    let tokens = read_token_stream(b"{{{}").unwrap();
    assert_eq!(
        tokens,
        vec![Token::StartGroup, Token::StartGroup, Token::StartGroup, Token::EndGroup]
    );
    let tokens = read_token_stream(b"}}{").unwrap();
    assert_eq!(
        tokens,
        vec![Token::EndGroup, Token::EndGroup, Token::StartGroup]
    );
    let tokens = read_token_stream(b"{\\b x").unwrap();
    assert_eq!(
        tokens,
        vec![
            Token::StartGroup,
            Token::ControlWord { name: "b".to_string(), arg: None },
            Token::Text(b"x".to_vec()),
        ]
    );
}

#[test]
fn test_newline_canonicalization() {
    // Each line-terminator variant is one Newline token...
    for input in [b"\r\n" as &[u8], b"\n", b"\r"] {
        let tokens = read_token_stream(input).unwrap();
        assert_eq!(tokens, vec![Token::Newline]);
    }
    // ...and a Newline always serializes as CRLF.
    assert_eq!(Token::Newline.to_rtf(), b"\r\n".to_vec());
    assert_eq!(serialize_tokens(&vec![Token::Newline]), b"\r\n".to_vec());
}

#[test]
fn test_to_rtf_control_symbol() {
    assert_eq!(Token::ControlSymbol('*').to_rtf(), b"\\*".to_vec());
}

#[test]
fn test_to_rtf_control_word() {
    assert_eq!(
        Token::ControlWord { name: "par".to_string(), arg: None }.to_rtf(),
        b"\\par".to_vec()
    );
    assert_eq!(
        Token::ControlWord { name: "foo".to_string(), arg: Some(-5) }.to_rtf(),
        b"\\foo-5".to_vec()
    );
    assert_eq!(
        Token::ControlWord { name: "b".to_string(), arg: Some(0) }.to_rtf(),
        b"\\b0".to_vec()
    );
}

#[test]
fn test_to_rtf_control_bin() {
    assert_eq!(
        Token::ControlBin(b"AB".to_vec()).to_rtf(),
        b"\\bin2 AB".to_vec()
    );
    assert_eq!(Token::ControlBin(Vec::new()).to_rtf(), b"\\bin0 ".to_vec());
}

#[test]
fn test_to_rtf_text_and_groups() {
    assert_eq!(Token::Text(b"hello".to_vec()).to_rtf(), b"hello".to_vec());
    assert_eq!(Token::StartGroup.to_rtf(), b"{".to_vec());
    assert_eq!(Token::EndGroup.to_rtf(), b"}".to_vec());
}

#[test]
fn test_token_delimiters() {
    let word = Token::ControlWord { name: "b".to_string(), arg: None };
    let text = Token::Text(b"x".to_vec());
    let group = Token::StartGroup;
    assert_eq!(word.token_delimiter_after(&text), " ");
    assert_eq!(word.token_delimiter_after(&group), "");
    assert_eq!(text.token_delimiter_after(&word), "");
    assert_eq!(text.token_delimiter_before(&word), " ");
    assert_eq!(word.token_delimiter_before(&text), "");
}

#[test]
fn test_getters() {
    let word = Token::ControlWord { name: "par".to_string(), arg: Some(3) };
    assert_eq!(word.get_name(), Some("par".to_string()));
    assert_eq!(word.get_arg(), Some(3));
    assert_eq!(word.get_symbol(), None);
    assert_eq!(word.get_bin(), None);
    assert_eq!(word.get_text(), None);

    let sym = Token::ControlSymbol('~');
    assert_eq!(sym.get_symbol(), Some('~'));
    assert_eq!(sym.get_name(), None);
    assert_eq!(sym.get_arg(), None);

    let bin = Token::ControlBin(vec![1, 2, 3]);
    assert_eq!(bin.get_bin(), Some(&[1u8, 2, 3] as &[u8]));
    assert_eq!(bin.get_text(), None);

    let text = Token::Text(b"abc".to_vec());
    assert_eq!(text.get_text(), Some(b"abc" as &[u8]));
    assert_eq!(text.get_bin(), None);
}

#[test]
fn test_round_trip_mixed_stream() {
    // Tokenize, serialize, re-tokenize: equal token values come back.
    let input: &[u8] = b"{\\b Hello World \\b0 \\par\r\nA test \\bin3 \x01{\\ {\\*\\nothing}}";
    let tokens = read_token_stream(input).unwrap();
    let bytes = serialize_tokens(&tokens);
    let again = read_token_stream(&bytes).unwrap();
    assert_eq!(tokens, again);
}

#[test]
fn test_round_trip_words_and_args() {
    let input: &[u8] = b"\\par\\b0\\b\\uncle\\foo-5\\applepi314159 tail\\bin-7 x";
    let tokens = read_token_stream(input).unwrap();
    let bytes = serialize_tokens(&tokens);
    let again = read_token_stream(&bytes).unwrap();
    assert_eq!(tokens, again);
}

#[test]
fn test_serialize_inserts_word_text_delimiter() {
    // Without the delimiter the text's letters would extend the word's
    // name on re-scanning; the serializer owes exactly one space there.
    let tokens = vec![
        Token::ControlWord { name: "b".to_string(), arg: None },
        Token::Text(b"x".to_vec()),
    ];
    assert_eq!(serialize_tokens(&tokens), b"\\b x".to_vec());
    let again = read_token_stream(b"\\b x").unwrap();
    assert_eq!(again, tokens);
}
