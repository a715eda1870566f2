use minitools::tokenizer::{tokenize, Token, TokenizeError};

fn s(x: &str) -> Token {
    Token::StringToken(x.into())
}

fn n(x: &str) -> Token {
    Token::NumberToken(x.into())
}

fn value(t: &Token) -> f64 {
    match t {
        Token::NumberToken(text) => text.parse::<f64>().unwrap(),
        _ => panic!("not a number token: {:?}", t),
    }
}

#[test]
fn test_object() {
    let tokens = tokenize(r#"{"name": "alice", "age": 30, "active": true}"#).unwrap();
    assert_eq!(
        tokens,
        vec![
            Token::LeftBrace,
            s("name"),
            Token::Colon,
            s("alice"),
            Token::Comma,
            s("age"),
            Token::Colon,
            n("30"),
            Token::Comma,
            s("active"),
            Token::Colon,
            Token::True,
            Token::RightBrace,
        ]
    );
    assert_eq!(value(&tokens[7]), 30.0);
}

#[test]
fn test_emoji() {
    let tokens = tokenize(r#"{"emoji": "hello 🌍"}"#).unwrap();
    assert_eq!(
        tokens,
        vec![
            Token::LeftBrace,
            s("emoji"),
            Token::Colon,
            s("hello 🌍"),
            Token::RightBrace,
        ]
    );
}

#[test]
fn test_escaped_quotes() {
    let tokens = tokenize(r#"{"key": "say \"hi\""}"#).unwrap();
    assert_eq!(
        tokens,
        vec![
            Token::LeftBrace,
            s("key"),
            Token::Colon,
            s("say \\\"hi\\\""),
            Token::RightBrace,
        ]
    );
}

#[test]
fn test_array_and_keywords() {
    let tokens = tokenize(r#"[true, false, null]"#).unwrap();
    assert_eq!(
        tokens,
        vec![
            Token::LeftBracket,
            Token::True,
            Token::Comma,
            Token::False,
            Token::Comma,
            Token::Null,
            Token::RightBracket,
        ]
    );
}

#[test]
fn test_numbers() {
    let tokens = tokenize(r#"[42, -3.14, 0]"#).unwrap();
    assert_eq!(
        tokens,
        vec![
            Token::LeftBracket,
            n("42"),
            Token::Comma,
            n("-3.14"),
            Token::Comma,
            n("0"),
            Token::RightBracket,
        ]
    );
    assert_eq!(value(&tokens[1]), 42.0);
    assert_eq!(value(&tokens[3]), -3.14);
    assert_eq!(value(&tokens[5]), 0.0);
}

#[test]
fn test_unterminated_string() {
    let result = tokenize(r#""hello"#);
    assert!(result.is_err());
    assert!(result.unwrap_err().message().contains("unterminated string"));
}

#[test]
fn test_multiple_dots() {
    let result = tokenize(r#"[1.2.3]"#);
    assert!(result.is_err());
    assert!(result.unwrap_err().message().contains("multiple dots"));
}

#[test]
fn test_unexpected_char() {
    let result = tokenize(r#"{@}"#);
    assert!(result.is_err());
    assert!(result.unwrap_err().message().contains("unexpected character"));
}

#[test]
fn empty_and_blank_inputs_give_no_tokens() {
    assert_eq!(tokenize("").unwrap(), vec![]);
    assert_eq!(tokenize(" \t\r\n ").unwrap(), vec![]);
}

#[test]
fn keywords_need_their_whole_word() {
    assert_eq!(tokenize("tru"), Err(TokenizeError::UnexpectedCharacter(b't')));
    assert_eq!(tokenize("fals"), Err(TokenizeError::UnexpectedCharacter(b'f')));
    assert_eq!(tokenize("nul"), Err(TokenizeError::UnexpectedCharacter(b'n')));
    assert_eq!(tokenize("truefalse").unwrap(), vec![Token::True, Token::False]);
    assert_eq!(tokenize("nullx"), Err(TokenizeError::UnexpectedCharacter(b'x')));
}

#[test]
fn number_forms() {
    assert_eq!(tokenize("-5.5").unwrap(), vec![n("-5.5")]);
    assert_eq!(tokenize("1.").unwrap(), vec![n("1.")]);
    assert_eq!(tokenize("-.5").unwrap(), vec![n("-.5")]);
    assert_eq!(tokenize("007").unwrap(), vec![n("007")]);
    assert_eq!(tokenize("12abc"), Err(TokenizeError::UnexpectedCharacter(b'a')));
    assert_eq!(tokenize("1-2").unwrap(), vec![n("1"), n("-2")]);
    for t in tokenize("[1., -.5, 007, 3.25]").unwrap() {
        if let Token::NumberToken(text) = t {
            assert!(text.parse::<f64>().is_ok());
        }
    }
}

#[test]
fn numbers_without_digits_are_refused() {
    assert_eq!(tokenize("-"), Err(TokenizeError::InvalidNumber));
    assert_eq!(tokenize("[-.]"), Err(TokenizeError::InvalidNumber));
    assert_eq!(tokenize("- 1"), Err(TokenizeError::InvalidNumber));
    assert_eq!(TokenizeError::InvalidNumber.message(), "invalid float literal");
    assert!("-".parse::<f64>().is_err());
    assert!("-.".parse::<f64>().is_err());
}

#[test]
fn backslash_takes_the_next_byte() {
    assert_eq!(tokenize(r#""a\\""#).unwrap(), vec![s("a\\\\")]);
    assert_eq!(tokenize(r#""a\""#), Err(TokenizeError::UnterminatedString));
    assert_eq!(tokenize("\"a\\"), Err(TokenizeError::UnterminatedString));
    assert_eq!(tokenize("\"\\é\"").unwrap(), vec![s("\\é")]);
    assert_eq!(tokenize("\"\"").unwrap(), vec![s("")]);
}

#[test]
fn first_error_wins() {
    assert_eq!(tokenize("@ 1.2.3"), Err(TokenizeError::UnexpectedCharacter(b'@')));
    assert_eq!(tokenize("1.2.3 @"), Err(TokenizeError::MultipleDots));
    assert_eq!(tokenize("[\"ok\", 'x']"), Err(TokenizeError::UnexpectedCharacter(b'\'')));
}

#[test]
fn unexpected_non_ascii_shows_its_first_byte() {
    let e = tokenize("é").unwrap_err();
    assert_eq!(e, TokenizeError::UnexpectedCharacter(0xC3));
    assert_eq!(e.message(), "unexpected character: 'Ã'");
}

#[test]
fn tokenize_error_messages() {
    assert_eq!(TokenizeError::UnterminatedString.message(), "unterminated string");
    assert_eq!(TokenizeError::MultipleDots.message(), "invalid number: multiple dots");
    assert_eq!(TokenizeError::UnexpectedCharacter(b'@').message(), "unexpected character: '@'");
}

#[test]
fn blanks_between_texts_join_their_tokens() {
    let pieces = ["{\"a\": 1}", "[true, -2.5]", "\"x y\"", "null", ""];
    for a in pieces {
        for b in pieces {
            for ws in [" ", "\t", "\n\r", " \n \t"] {
                let joined = format!("{}{}{}", a, ws, b);
                let mut expected = tokenize(a).unwrap();
                expected.extend(tokenize(b).unwrap());
                assert_eq!(tokenize(&joined).unwrap(), expected, "{:?}", joined);
            }
        }
    }
    assert_eq!(tokenize("1").unwrap().len() + tokenize("2").unwrap().len(), 2);
    assert_eq!(tokenize("12").unwrap(), vec![n("12")]);
}
