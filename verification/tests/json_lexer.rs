use haversine_distance::json_lexer::{JsonLexer, Token};

/// Feeds `chunks` to a new lexer, then the end of the input, collecting the
/// tokens of every batch until the lexer finishes.
fn lex_chunks(chunks: &[&[u8]]) -> Vec<Token> {
    let mut lexer = JsonLexer::new();
    let mut received_token: Vec<Token> = Vec::new();
    let empty: &[u8] = &[];
    for chunk in chunks.iter().copied().chain(std::iter::once(empty)) {
        assert!(lexer.chunk_is_lexable(chunk));
        match lexer.next_batch(chunk) {
            Some(tokens_batch) => {
                for token in tokens_batch {
                    received_token.push(token);
                }
            }
            None => break,
        }
    }
    assert!(lexer.is_finished());
    assert_eq!(lexer.next_batch(b"[]"), None);
    received_token
}

fn lex(content: &str) -> Vec<Token> {
    lex_chunks(&[content.as_bytes()])
}

fn check_tokens(received_token: &[Token], expected_tokens: &[Token]) {
    for (i, token) in received_token.iter().enumerate() {
        if *token != expected_tokens[i] {
            panic!(
                "token ({:?}) do not match expected token ({:?})",
                *token, expected_tokens[i]
            );
        }
    }
}

fn text(s: &str) -> Token {
    Token::Text(String::from(s))
}

fn error(s: &str) -> Token {
    Token::Error(String::from(s))
}

#[test]
fn should_get_expected_tokens_for_obj() {
    let content = r#"{}"#;
    let received_token = lex(content);

    if received_token.len() != 3 {
        panic!("should find 3 tokens but got {}", received_token.len());
    }

    let expected_tokens = [Token::ObjectStart, Token::ObjectEnd, Token::EndOfFile];
    check_tokens(&received_token, &expected_tokens);
}

#[test]
fn should_get_expected_tokens_for_arr_inside_object() {
    let content = r#"{"x1": [1, 2.0, "-4"]}"#;
    let received_token = lex(content);

    if received_token.len() != 12 {
        panic!("should find 12 tokens but got {}", received_token.len());
    }

    let expected_tokens = [
        Token::ObjectStart,
        Token::Text(String::from("x1")),
        Token::Colon,
        Token::ArrayStart,
        Token::Integer(String::from("1")),
        Token::Comma,
        Token::Float(String::from("2.0")),
        Token::Comma,
        Token::Text(String::from("-4")),
        Token::ArrayEnd,
        Token::ObjectEnd,
        Token::EndOfFile,
    ];
    check_tokens(&received_token, &expected_tokens);
}

#[test]
fn should_err_if_number_begins_with_zero() {
    let content = r#"0123.123"#;
    let received_token = lex(content);

    if received_token.len() != 1 {
        panic!("should find 1 tokens but got {}", received_token.len());
    }

    let expected_tokens = [Token::Error(String::from(
        "a number cannot have a leading 0",
    ))];
    check_tokens(&received_token, &expected_tokens);
}

#[test]
fn should_err_if_number_has_double_minus() {
    let content = r#"--123"#;
    let received_token = lex(content);

    if received_token.len() != 1 {
        panic!("should find 1 tokens but got {}", received_token.len());
    }

    let expected_tokens = [Token::Error(String::from(
        "a number cannot have multiple minus symbols",
    ))];
    check_tokens(&received_token, &expected_tokens);
}

#[test]
fn should_err_if_float_number_has_double_dot() {
    let content = r#"0..23"#;
    let received_token = lex(content);

    if received_token.len() != 1 {
        panic!("should find 1 tokens but got {}", received_token.len());
    }

    let expected_tokens = [Token::Error(String::from(
        "a float number can only have a single decimal separator",
    ))];
    check_tokens(&received_token, &expected_tokens);
}

#[test]
fn should_tokenize_numbers_correctly() {
    let content = r#"0.22343, 123.123, -42.34, 12, -20"#;
    let received_token = lex(content);

    println!("{:?}", received_token);
    if received_token.len() != 10 {
        panic!("should find 10 tokens but got {}", received_token.len());
    }

    let expected_tokens = [
        Token::Float(String::from("0.22343")),
        Token::Comma,
        Token::Float(String::from("123.123")),
        Token::Comma,
        Token::Float(String::from("-42.34")),
        Token::Comma,
        Token::Integer(String::from("12")),
        Token::Comma,
        Token::Integer(String::from("-20")),
        Token::EndOfFile,
    ];
    check_tokens(&received_token, &expected_tokens);
}

#[test]
fn should_tokenize_text_and_numbers_correctly() {
    let content = r#"0.22343, 123.123, "hola,", -42.34, 12, -20, " mundo""#;
    let received_token = lex(content);

    println!("{:?}", received_token);

    if received_token.len() != 14 {
        panic!("should find 14 tokens");
    }

    let expected_tokens = [
        Token::Float(String::from("0.22343")),
        Token::Comma,
        Token::Float(String::from("123.123")),
        Token::Comma,
        Token::Text(String::from("hola,")),
        Token::Comma,
        Token::Float(String::from("-42.34")),
        Token::Comma,
        Token::Integer(String::from("12")),
        Token::Comma,
        Token::Integer(String::from("-20")),
        Token::Comma,
        Token::Text(String::from(" mundo")),
        Token::EndOfFile,
    ];
    check_tokens(&received_token, &expected_tokens);
}

#[test]
fn booleans_and_whitespace() {
    assert_eq!(
        lex("[true,\r\n\tfalse ]"),
        vec![
            Token::ArrayStart,
            Token::Boolean(true),
            Token::Comma,
            Token::Boolean(false),
            Token::ArrayEnd,
            Token::EndOfFile
        ]
    );
}

#[test]
fn misspelled_boolean_is_an_error() {
    assert_eq!(lex("[trux]"), vec![Token::ArrayStart, error("found unexpected sequence")]);
    assert_eq!(lex("fals3"), vec![error("found unexpected sequence")]);
}

#[test]
fn boolean_cut_by_the_chunk_end_is_not_lexable() {
    let lexer = JsonLexer::new();
    assert!(!lexer.chunk_is_lexable(b"[tru"));
    assert!(!lexer.chunk_is_lexable(b"fals"));
    assert!(lexer.chunk_is_lexable(b"[true"));
    assert!(lexer.chunk_is_lexable(b""));
    // An error before the boolean stops the lexer first.
    assert!(lexer.chunk_is_lexable(b"x tru"));
}

#[test]
fn unexpected_characters_are_errors() {
    assert_eq!(lex("[x]"), vec![Token::ArrayStart, error("unexpected character in JSON (x)")]);
    assert_eq!(
        lex_chunks(&[&[b'[', 0xff, b']']]),
        vec![
            Token::ArrayStart,
            error("unexpected character in JSON not a valid utf-8 encoded string")
        ]
    );
    assert_eq!(lex("+1"), vec![error("unexpected character in JSON (+)")]);
}

#[test]
fn escaped_quote_does_not_end_text() {
    assert_eq!(lex(r#""a\"b""#), vec![text(r#"a\"b"#), Token::EndOfFile]);
    assert_eq!(lex(r#""""#), vec![text(""), Token::EndOfFile]);
}

#[test]
fn text_and_numbers_may_span_chunks() {
    assert_eq!(
        lex_chunks(&[b"[\"ho", b"la\", 12", b"3.4", b"5]"]),
        vec![
            Token::ArrayStart,
            text("hola"),
            Token::Comma,
            Token::Float(String::from("123.45")),
            Token::ArrayEnd,
            Token::EndOfFile
        ]
    );
}

#[test]
fn text_longer_than_one_kib_is_an_error() {
    let long = "a".repeat(1023);
    assert_eq!(lex(&format!("\"{long}\"")), vec![text(&long), Token::EndOfFile]);
    let too_long = "a".repeat(1024);
    assert_eq!(
        lex(&format!("\"{too_long}\"")),
        vec![error("a text cannot be larger than 1KiB")]
    );
}

#[test]
fn text_with_invalid_utf8_is_an_error() {
    assert_eq!(
        lex_chunks(&[&[b'"', 0xc3, b'"']]),
        vec![error("the text is invalid utf8")]
    );
    assert_eq!(lex("\"mañana\""), vec![text("mañana"), Token::EndOfFile]);
}

#[test]
fn unterminated_text_emits_nothing_at_the_end() {
    assert_eq!(lex("\"abc"), vec![Token::EndOfFile]);
}

#[test]
fn number_pending_at_the_end_is_emitted() {
    assert_eq!(lex("-7"), vec![Token::Integer(String::from("-7")), Token::EndOfFile]);
    assert_eq!(lex("0.5"), vec![Token::Float(String::from("0.5")), Token::EndOfFile]);
    assert_eq!(lex("0"), vec![Token::Integer(String::from("0")), Token::EndOfFile]);
}

#[test]
fn decimal_separator_must_be_followed_by_a_digit() {
    let message = "a float number must have a digit after the decimal separator";
    assert_eq!(lex("1.,2"), vec![error(message)]);
    assert_eq!(lex("[1.]"), vec![Token::ArrayStart, error(message)]);
    assert_eq!(lex("1."), vec![error(message)]);
    assert_eq!(lex("1.-2"), vec![error(message)]);
}

#[test]
fn zero_may_only_lead_a_fraction() {
    assert_eq!(lex("0.01"), vec![Token::Float(String::from("0.01")), Token::EndOfFile]);
    assert_eq!(lex("00"), vec![error("a number cannot have a leading 0")]);
}

#[test]
fn error_finishes_the_lexer() {
    let mut lexer = JsonLexer::new();
    let batch = lexer.next_batch(b"[1, ?, 2]").unwrap();
    assert_eq!(
        batch,
        vec![
            Token::ArrayStart,
            Token::Integer(String::from("1")),
            Token::Comma,
            error("unexpected character in JSON (?)")
        ]
    );
    assert!(lexer.is_finished());
    assert_eq!(lexer.next_batch(b""), None);
}

#[test]
fn end_of_input_finishes_the_lexer() {
    let mut lexer = JsonLexer::new();
    assert_eq!(lexer.next_batch(b"{"), Some(vec![Token::ObjectStart]));
    assert!(!lexer.is_finished());
    assert_eq!(lexer.next_batch(b""), Some(vec![Token::EndOfFile]));
    assert!(lexer.is_finished());
    assert_eq!(lexer.next_batch(b"}"), None);
}

#[test]
fn chunking_does_not_change_tokens() {
    let content = br#"{"x1": [1, -2.50, "a\"b"], "ok": true, "no": false}"#;
    let whole = lex_chunks(&[content]);
    assert_eq!(whole.last(), Some(&Token::EndOfFile));
    for k in 1..content.len() {
        let (a, b) = content.split_at(k);
        if !JsonLexer::new().chunk_is_lexable(a) {
            // The cut falls inside `true` or `false`.
            continue;
        }
        assert_eq!(lex_chunks(&[a, b]), whole, "split at {k}");
    }
}
