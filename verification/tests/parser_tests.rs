use minitools::parser::{parse, Json, ParseError};
use minitools::tokenizer::{tokenize, Token};

fn s(x: &str) -> Token {
    Token::StringToken(x.into())
}

fn n(x: &str) -> Token {
    Token::NumberToken(x.into())
}

fn get<'a>(entries: &'a [(String, Json)], key: &str) -> Option<&'a Json> {
    entries.iter().find(|(k, _)| k == key).map(|(_, v)| v)
}

fn number(j: &Json) -> f64 {
    match j {
        Json::Number(text) => text.parse::<f64>().unwrap(),
        _ => panic!("not a number: {:?}", j),
    }
}

fn parse_text(text: &str) -> Result<Json, ParseError> {
    parse(&tokenize(text).unwrap())
}

#[test]
fn test_parse_valid_object() {
    let tokens = vec![
        Token::LeftBrace,
        s("name"),
        Token::Colon,
        s("alice"),
        Token::Comma,
        s("age"),
        Token::Colon,
        n("30"),
        Token::Comma,
        s("active"),
        Token::Colon,
        Token::True,
        Token::RightBrace,
    ];

    let result = parse(&tokens);
    assert!(result.is_ok(), "Expected valid object to parse successfully");

    let json = result.unwrap();
    match json {
        Json::Object(map) => {
            assert_eq!(map.len(), 3);
            assert!(get(&map, "name").is_some());
            assert!(get(&map, "age").is_some());
            assert!(get(&map, "active").is_some());

            if let Some(Json::String(s)) = get(&map, "name") {
                assert_eq!(s, "alice");
            } else {
                panic!("Expected 'name' to be String(\"alice\")");
            }

            if let Some(j @ Json::Number(_)) = get(&map, "age") {
                assert_eq!(number(j), 30.0);
            } else {
                panic!("Expected 'age' to be Number(30.0)");
            }

            if let Some(Json::Bool(b)) = get(&map, "active") {
                assert_eq!(*b, true);
            } else {
                panic!("Expected 'active' to be Bool(true)");
            }
        }
        _ => panic!("Expected Json::Object"),
    }
}

#[test]
fn test_parse_object_missing_right_brace() {
    let tokens = vec![
        Token::LeftBrace,
        s("name"),
        Token::Colon,
        s("alice"),
        Token::Comma,
        s("age"),
        Token::Colon,
        n("30"),
        Token::Comma,
        s("active"),
        Token::Colon,
        Token::True,
    ];

    let result = parse(&tokens);
    assert!(result.is_err(), "Expected error for missing closing brace");
}

#[test]
fn test_parse_array() {
    let tokens = vec![
        Token::LeftBracket,
        n("42"),
        Token::Comma,
        n("-3.14"),
        Token::Comma,
        n("0"),
        Token::RightBracket,
    ];

    let result = parse(&tokens);
    assert!(result.is_ok(), "Expected valid array to parse successfully");

    if let Json::Array(arr) = result.unwrap() {
        assert_eq!(arr.len(), 3);
        assert_eq!(number(&arr[0]), 42.0);
        assert_eq!(number(&arr[1]), -3.14);
        assert_eq!(number(&arr[2]), 0.0);
    } else {
        panic!("Expected Json::Array");
    }
}

#[test]
fn scalars() {
    assert!(matches!(parse_text("null"), Ok(Json::Null)));
    assert!(matches!(parse_text("true"), Ok(Json::Bool(true))));
    assert!(matches!(parse_text("false"), Ok(Json::Bool(false))));
    match parse_text("\"hi\"") {
        Ok(Json::String(x)) => assert_eq!(x, "hi"),
        other => panic!("{:?}", other),
    }
    assert_eq!(number(&parse_text("-2.5").unwrap()), -2.5);
}

#[test]
fn nested_values() {
    let j = parse_text(r#"{"name": "alice", "age": 30, "active": true, "x": [1, 2, 3], "y": {"a": "b"}}"#).unwrap();
    let Json::Object(m) = j else { panic!() };
    assert_eq!(m.len(), 5);
    let keys: Vec<&str> = m.iter().map(|(k, _)| k.as_str()).collect();
    assert_eq!(keys, vec!["name", "age", "active", "x", "y"]);
    match get(&m, "x") {
        Some(Json::Array(a)) => assert_eq!(a.iter().map(number).collect::<Vec<_>>(), vec![1.0, 2.0, 3.0]),
        other => panic!("{:?}", other),
    }
    match get(&m, "y") {
        Some(Json::Object(inner)) => match get(inner, "a") {
            Some(Json::String(b)) => assert_eq!(b, "b"),
            other => panic!("{:?}", other),
        },
        other => panic!("{:?}", other),
    }
}

#[test]
fn empty_containers() {
    assert!(matches!(parse_text("{}"), Ok(Json::Object(m)) if m.is_empty()));
    assert!(matches!(parse_text("[]"), Ok(Json::Array(a)) if a.is_empty()));
    assert!(matches!(parse_text("[[], {}]"), Ok(Json::Array(a)) if a.len() == 2));
}

#[test]
fn repeated_key_keeps_first_place_and_last_value() {
    let Json::Object(m) = parse_text(r#"{"a": 1, "b": 2, "a": 3}"#).unwrap() else { panic!() };
    assert_eq!(m.len(), 2);
    assert_eq!(m[0].0, "a");
    assert_eq!(number(&m[0].1), 3.0);
    assert_eq!(m[1].0, "b");
    assert_eq!(number(&m[1].1), 2.0);
}

#[test]
fn comma_rules() {
    assert_eq!(parse_text("[1, 2,]").unwrap_err(), ParseError::TrailingComma);
    assert_eq!(parse_text(r#"{"a": 1,}"#).unwrap_err(), ParseError::TrailingComma);
    assert_eq!(parse_text("[1 2]").unwrap_err(), ParseError::MissingComma);
    assert_eq!(parse_text(r#"{"a": 1 "b": 2}"#).unwrap_err(), ParseError::MissingComma);
    assert_eq!(parse_text("[1,").unwrap_err(), ParseError::UnclosedArray);
    assert_eq!(parse_text(r#"{"a": 1,"#).unwrap_err(), ParseError::EndAfterComma);
    assert_eq!(parse_text("[[1,],]").unwrap_err(), ParseError::TrailingComma);
    assert_eq!(parse_text("[1 [2,]]").unwrap_err(), ParseError::MissingComma);
    assert!(matches!(parse_text("[,1]"), Ok(Json::Array(a)) if a.len() == 1));
    assert!(matches!(parse_text("[1,,2]"), Ok(Json::Array(a)) if a.len() == 2));
}

#[test]
fn structural_errors() {
    assert_eq!(parse(&[]).unwrap_err(), ParseError::UnexpectedEnd);
    assert_eq!(parse_text("1 2").unwrap_err(), ParseError::TrailingContent);
    assert_eq!(parse_text("[1, 2").unwrap_err(), ParseError::UnclosedArray);
    assert_eq!(parse_text(r#"{"a": 1"#).unwrap_err(), ParseError::UnclosedObject);
    assert_eq!(parse_text(r#"{"a""#).unwrap_err(), ParseError::EndBeforeColon);
    assert_eq!(parse_text(r#"{"a" 1}"#).unwrap_err(), ParseError::ExpectedColon);
    assert_eq!(parse_text("{1: 2}").unwrap_err(), ParseError::NonStringKey);
    assert_eq!(parse_text(r#"{"a": }"#).unwrap_err(), ParseError::UnexpectedToken);
    assert_eq!(parse_text(":").unwrap_err(), ParseError::UnexpectedToken);
    assert_eq!(parse_text(r#"{"a": 1}}"#).unwrap_err(), ParseError::TrailingContent);
}

#[test]
fn parse_error_messages() {
    assert_eq!(ParseError::UnexpectedEnd.message(), "unexpected end of input");
    assert_eq!(ParseError::TrailingContent.message(), "unexpected content after valid JSON value");
    assert_eq!(ParseError::TrailingComma.message(), "trailing commas are not allowed");
    assert_eq!(ParseError::ExpectedColon.message(), "expected a `:`");
    assert_eq!(ParseError::NonStringKey.message(), "only strings can be object keys");
    assert_eq!(ParseError::UnclosedObject.message(), "unexpected end of input, expected `}`");
    assert_eq!(ParseError::UnclosedArray.message(), "unexpected end of input, expected `]`");
    assert_eq!(ParseError::EndAfterComma.message(), "unexpected end of input after `,`");
    assert_eq!(ParseError::EndBeforeColon.message(), "unexpected end of input, expected `:`");
    assert_eq!(ParseError::UnexpectedToken.message(), "error");
    assert_eq!(ParseError::MissingComma.message(), "expected `,` between members");
}

#[test]
fn tokens_after_a_value_are_trailing_content() {
    assert_eq!(parse(&[Token::Null, Token::Null]).unwrap_err(), ParseError::TrailingContent);
    let mut t = tokenize(r#"{"a": [1, 2]}"#).unwrap();
    assert!(parse(&t).is_ok());
    t.push(Token::Comma);
    assert_eq!(parse(&t).unwrap_err(), ParseError::TrailingContent);
    let mut t = tokenize("[1, [2]]").unwrap();
    t.extend(tokenize("]").unwrap());
    assert_eq!(parse(&t).unwrap_err(), ParseError::TrailingContent);
}

#[test]
fn comma_faults_yield_to_other_errors() {
    assert_eq!(parse_text("[1,}").unwrap_err(), ParseError::UnexpectedToken);
    assert_eq!(parse_text("[1 :").unwrap_err(), ParseError::UnexpectedToken);
    assert_eq!(parse_text("[1 2").unwrap_err(), ParseError::UnclosedArray);
    assert_eq!(parse_text(r#"{"a": 1 "b""#).unwrap_err(), ParseError::EndBeforeColon);
    assert_eq!(parse_text(r#"{"a": 1 "b" 2}"#).unwrap_err(), ParseError::ExpectedColon);
    assert_eq!(parse_text(r#"{"a": 1 "b": }"#).unwrap_err(), ParseError::UnexpectedToken);
    assert_eq!(parse_text("[1 2] 3").unwrap_err(), ParseError::TrailingContent);
    assert_eq!(parse_text("[1,] 3").unwrap_err(), ParseError::TrailingContent);
}
