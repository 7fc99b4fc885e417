use json_parser::{parse_json, Cursor, Json, ParseError};

fn parse(text: &str) -> Result<Json, ParseError> {
    parse_json(&mut Cursor::from_str(text))
}

fn number(json: &Json) -> f64 {
    match json {
        Json::Number(n) => n.as_str().parse().unwrap(),
        other => panic!("not a number: {:?}", other),
    }
}

#[test]
fn test_null() {
    let json = r#"null"#;
    let parsed = parse(json).unwrap();
    assert_eq!(parsed, Json::Null);
}

#[test]
fn test_true() {
    let json = r#"true"#;
    let parsed = parse(json).unwrap();
    assert_eq!(parsed, Json::Bool(true));
}

#[test]
fn test_false() {
    let json = r#"false"#;
    let parsed = parse(json).unwrap();
    assert_eq!(parsed, Json::Bool(false));
}

#[test]
fn test_number() {
    let json = r#"-3.14"#;
    let parsed = parse(json).unwrap();
    assert_eq!(number(&parsed), -3.14);
}

#[test]
fn test_exponent() {
    let json = r#"3e8"#;
    let parsed = parse(json).unwrap();
    assert_eq!(number(&parsed), 3e8);
}

#[test]
fn test_string() {
    let json = r#" "hello world" "#;
    let parsed = parse(json).unwrap();
    assert_eq!(parsed, Json::String(String::from("hello world")));
}

#[test]
fn test_escaped_string() {
    let json = r#""quotation mark: \", reverse solidus: \\, solidus: \/, backspace: \b, formfeed: \f, linefeed: \n, carriage return: \r, horizontal tab: \t""#;
    let parsed = parse(json).unwrap();
    let expected = "quotation mark: \", reverse solidus: \\, solidus: /, backspace: \x08, formfeed: \x0C, linefeed: \n, carriage return: \r, horizontal tab: \t";
    assert_eq!(parsed, Json::String(String::from(expected)));
}

#[test]
fn test_utf8() {
    let json = r#""ラメン""#;
    let parsed = parse(json).unwrap();
    let expected = "ラメン";
    assert_eq!(parsed, Json::String(String::from(expected)));
}

#[test]
fn test_unicode() {
    let json = r#""\u0064\u0065\u0063o\u0064\u0065 m\u0065: \ud83d\udca9""#;
    let parsed = parse(json).unwrap();
    let expected = "\u{0064}\u{0065}\u{0063}o\u{0064}\u{0065} m\u{0065}: \u{fffd}\u{fffd}";
    assert_eq!(parsed, Json::String(String::from(expected)));
}

#[test]
fn test_object() {
    let json = r#"{"key1": false, "key2": 13}"#;
    let parsed = parse(json).unwrap();
    match parsed {
        Json::Object(members) => {
            assert_eq!(members.len(), 2);
            assert_eq!(members.get(&String::from("key1")), Some(&Json::Bool(false)));
            assert_eq!(number(members.get(&String::from("key2")).unwrap()), 13.0);
        }
        other => panic!("not an object: {:?}", other),
    }
}

#[test]
fn test_array() {
    let json = r#"[1, "string", true]"#;
    let parsed = parse(json).unwrap();
    match parsed {
        Json::Array(items) => {
            assert_eq!(items.len(), 3);
            assert_eq!(number(&items[0]), 1.0);
            assert_eq!(items[1], Json::String(String::from("string")));
            assert_eq!(items[2], Json::Bool(true));
        }
        other => panic!("not an array: {:?}", other),
    }
}
