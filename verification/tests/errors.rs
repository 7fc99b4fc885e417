use json_parser::{parse_json, parse_value, Cursor, Json, ParseError, MAX_DEPTH};

fn parse(text: &str) -> Result<Json, ParseError> {
    parse_json(&mut Cursor::from_str(text))
}

fn rest_after(text: &str) -> String {
    let mut chars = Cursor::from_str(text);
    let _ = parse_json(&mut chars);
    let mut rest = String::new();
    while let Some(c) = chars.next() {
        rest.push(c);
    }
    rest
}

#[test]
fn missing_colon_is_an_unexpected_character() {
    assert_eq!(parse(r#"{"key1" false}"#), Err(ParseError::UnexpectedCharacter));
}

#[test]
fn unterminated_string_is_an_unexpected_end() {
    assert_eq!(parse(r#""never closed"#), Err(ParseError::UnexpectedEndOfInput));
}

#[test]
fn key_that_is_no_string_is_an_invalid_key() {
    assert_eq!(parse(r#"{1: true}"#), Err(ParseError::InvalidObjectKey));
    assert_eq!(parse(r#"{null: true}"#), Err(ParseError::InvalidObjectKey));
    assert_eq!(parse(r#"{[]: true}"#), Err(ParseError::InvalidObjectKey));
}

#[test]
fn unknown_escape_is_an_invalid_escape() {
    assert_eq!(parse("\"a@x\"".replace('@', "\\").as_str()), Err(ParseError::InvalidEscapeSequence));
    assert_eq!(parse("\"@U0041\"".replace('@', "\\").as_str()), Err(ParseError::InvalidEscapeSequence));
}

#[test]
fn backslash_at_the_end_is_an_unexpected_end() {
    assert_eq!(parse("\"abc@".replace('@', "\\").as_str()), Err(ParseError::UnexpectedEndOfInput));
}

#[test]
fn malformed_numbers_are_errors() {
    for text in ["--1", "-", "1-2", "1e", "1e+", "1.2.3", "1ee5", "-e5", "1+1", "-.", "2.e"] {
        assert_eq!(parse(text), Err(ParseError::MalformedNumber), "{}", text);
    }
}

#[test]
fn empty_input_is_an_unexpected_end() {
    assert_eq!(parse(""), Err(ParseError::UnexpectedEndOfInput));
    assert_eq!(parse(" \t\r\n"), Err(ParseError::UnexpectedEndOfInput));
}

#[test]
fn broken_literals_are_errors() {
    assert_eq!(parse("nul"), Err(ParseError::UnexpectedEndOfInput));
    assert_eq!(parse("nulx"), Err(ParseError::UnexpectedCharacter));
    assert_eq!(parse("tru e"), Err(ParseError::UnexpectedCharacter));
    assert_eq!(parse("fals"), Err(ParseError::UnexpectedEndOfInput));
    assert_eq!(parse("True"), Err(ParseError::UnexpectedCharacter));
}

#[test]
fn stray_characters_are_errors() {
    for text in ["}", "]", ":", ",", "x", "+1", ".5", "'a'"] {
        assert_eq!(parse(text), Err(ParseError::UnexpectedCharacter), "{}", text);
    }
}

#[test]
fn form_feed_is_no_whitespace() {
    assert_eq!(parse("\x0Cnull"), Err(ParseError::UnexpectedCharacter));
}

#[test]
fn unfinished_containers_are_errors() {
    assert_eq!(parse("["), Err(ParseError::UnexpectedEndOfInput));
    assert_eq!(parse("[1"), Err(ParseError::UnexpectedEndOfInput));
    assert_eq!(parse("[1,"), Err(ParseError::UnexpectedEndOfInput));
    assert_eq!(parse("[1 2]"), Err(ParseError::UnexpectedCharacter));
    assert_eq!(parse("{"), Err(ParseError::UnexpectedEndOfInput));
    assert_eq!(parse(r#"{"a""#), Err(ParseError::UnexpectedEndOfInput));
    assert_eq!(parse(r#"{"a":"#), Err(ParseError::UnexpectedEndOfInput));
    assert_eq!(parse(r#"{"a":1"#), Err(ParseError::UnexpectedEndOfInput));
    assert_eq!(parse(r#"{"a":1 "b":2}"#), Err(ParseError::UnexpectedCharacter));
    assert_eq!(parse(r#"{"a":1]"#), Err(ParseError::UnexpectedCharacter));
    assert_eq!(parse("[1}"), Err(ParseError::UnexpectedCharacter));
}

#[test]
fn trailing_commas_are_rejected() {
    assert_eq!(parse("[1,]"), Err(ParseError::UnexpectedCharacter));
    assert_eq!(parse(r#"{"a":1,}"#), Err(ParseError::UnexpectedCharacter));
    assert_eq!(parse("[,]"), Err(ParseError::UnexpectedCharacter));
}

#[test]
fn the_first_error_is_reported() {
    assert_eq!(parse(r#"[1, --2, "open"#), Err(ParseError::MalformedNumber));
    assert_eq!(parse(r#"{"a": [1 2], 3: 4}"#), Err(ParseError::UnexpectedCharacter));
}

#[test]
fn nesting_is_bounded() {
    assert_eq!(MAX_DEPTH, 128);
    let fits = "[".repeat(MAX_DEPTH) + &"]".repeat(MAX_DEPTH);
    assert!(parse(&fits).is_ok());
    let too_deep = "[".repeat(MAX_DEPTH + 1) + &"]".repeat(MAX_DEPTH + 1);
    assert_eq!(parse(&too_deep), Err(ParseError::NestingTooDeep));
    let objects = r#"{"a":"#.repeat(MAX_DEPTH + 1) + "1" + &"}".repeat(MAX_DEPTH + 1);
    assert_eq!(parse(&objects), Err(ParseError::NestingTooDeep));
    let endless = "[".repeat(100_000);
    assert_eq!(parse(&endless), Err(ParseError::NestingTooDeep));
}

#[test]
fn depth_counts_containers_only() {
    let mut chars = Cursor::from_str("17");
    assert!(parse_value(&mut chars, 0).is_ok());
    let mut chars = Cursor::from_str("[]");
    assert_eq!(parse_value(&mut chars, 0), Err(ParseError::NestingTooDeep));
    let mut chars = Cursor::from_str("[[]]");
    assert_eq!(parse_value(&mut chars, 1), Err(ParseError::NestingTooDeep));
    let mut chars = Cursor::from_str("[[], {}]");
    assert!(parse_value(&mut chars, 2).is_ok());
}

#[test]
fn what_follows_the_value_stays() {
    assert_eq!(rest_after("1 2"), " 2");
    assert_eq!(rest_after("  null, true"), ", true");
    assert_eq!(rest_after(r#""a""b""#), r#""b""#);
    assert_eq!(rest_after("[1] x"), " x");
    assert_eq!(rest_after(r#"{"a":1}}"#), "}");
    assert_eq!(rest_after("truefalse"), "false");
}

#[test]
fn the_character_that_fails_is_consumed() {
    assert_eq!(rest_after("nuxl"), "l");
    assert_eq!(rest_after("[1 2]"), "]");
    assert_eq!(rest_after("?abc"), "abc");
    assert_eq!(rest_after("--1 x"), " x");
}
