use json_parser::{
    parse_expected, parse_json, parse_number, parse_string, parse_unicode, parse_whitespace,
    Cursor, Json, Number, Object, ParseError,
};

fn parse(text: &str) -> Result<Json, ParseError> {
    parse_json(&mut Cursor::from_str(text))
}

fn rest(chars: &mut Cursor) -> String {
    let mut rest = String::new();
    while let Some(c) = chars.next() {
        rest.push(c);
    }
    rest
}

fn number(json: &Json) -> f64 {
    match json {
        Json::Number(n) => n.as_str().parse().unwrap(),
        other => panic!("not a number: {:?}", other),
    }
}

fn text_of(json: Json) -> String {
    json.destructure().unwrap()
}

fn decimal(text: &str) -> Option<Number> {
    let chars: Vec<char> = text.chars().collect();
    Number::new(&chars)
}

#[test]
fn cursor_peeks_without_consuming() {
    let mut chars = Cursor::new(vec!['a', 'b']);
    assert_eq!(chars.peek(), Some('a'));
    assert_eq!(chars.peek(), Some('a'));
    assert_eq!(chars.next(), Some('a'));
    assert_eq!(chars.peek(), Some('b'));
    assert_eq!(chars.next(), Some('b'));
    assert_eq!(chars.peek(), None);
    assert_eq!(chars.next(), None);
    assert_eq!(chars.next(), None);
}

#[test]
fn cursor_reads_scalar_values_not_bytes() {
    let mut chars = Cursor::from_str("aß語😀");
    assert_eq!(chars.next(), Some('a'));
    assert_eq!(chars.next(), Some('ß'));
    assert_eq!(chars.next(), Some('語'));
    assert_eq!(chars.next(), Some('😀'));
    assert_eq!(chars.next(), None);
}

#[test]
fn whitespace_is_space_tab_newline_and_return() {
    let mut chars = Cursor::from_str(" \t\n\r x ");
    parse_whitespace(&mut chars);
    assert_eq!(rest(&mut chars), "x ");
    let mut chars = Cursor::from_str("x ");
    parse_whitespace(&mut chars);
    assert_eq!(rest(&mut chars), "x ");
    let mut chars = Cursor::from_str("   ");
    parse_whitespace(&mut chars);
    assert_eq!(chars.peek(), None);
    let mut chars = Cursor::from_str("\u{a0}x");
    parse_whitespace(&mut chars);
    assert_eq!(rest(&mut chars), "\u{a0}x");
}

#[test]
fn expected_characters_are_consumed() {
    let mut chars = Cursor::from_str("ull,");
    assert_eq!(parse_expected(&mut chars, vec!['u', 'l', 'l']), Ok(()));
    assert_eq!(rest(&mut chars), ",");
    let mut chars = Cursor::from_str("abc");
    assert_eq!(parse_expected(&mut chars, vec![]), Ok(()));
    assert_eq!(rest(&mut chars), "abc");
}

#[test]
fn expected_characters_fail_at_the_first_difference() {
    let mut chars = Cursor::from_str("uxl,");
    assert_eq!(
        parse_expected(&mut chars, vec!['u', 'l', 'l']),
        Err(ParseError::UnexpectedCharacter)
    );
    assert_eq!(rest(&mut chars), "l,");
    let mut chars = Cursor::from_str("ul");
    assert_eq!(
        parse_expected(&mut chars, vec!['u', 'l', 'l']),
        Err(ParseError::UnexpectedEndOfInput)
    );
    let mut chars = Cursor::from_str(" :");
    assert_eq!(parse_expected(&mut chars, vec![':']), Err(ParseError::UnexpectedCharacter));
}

#[test]
fn unicode_escape_names_a_scalar_value() {
    for (digits, named) in [
        ("0041", 'A'),
        ("00e9", 'é'),
        ("00E9", 'é'),
        ("30e9", 'ラ'),
        ("0000", '\0'),
        ("d7ff", '\u{d7ff}'),
        ("e000", '\u{e000}'),
        ("ffff", '\u{ffff}'),
        ("FfFf", '\u{ffff}'),
        ("abcd", '\u{abcd}'),
        ("1234", '\u{1234}'),
    ] {
        let mut chars = Cursor::from_str(digits);
        assert_eq!(parse_unicode(&mut chars), named, "{}", digits);
        assert_eq!(chars.peek(), None);
    }
}

#[test]
fn unicode_escape_of_a_surrogate_is_replaced() {
    for digits in ["d800", "dbff", "dc00", "dfff", "D83D", "DCA9"] {
        let mut chars = Cursor::from_str(digits);
        assert_eq!(parse_unicode(&mut chars), '\u{fffd}', "{}", digits);
    }
}

#[test]
fn unicode_escape_without_four_digits_is_replaced() {
    for (text, left) in [
        ("12g4x", "x"),
        ("+123x", "x"),
        ("-123", ""),
        (" 123", ""),
        ("12\"x", ""),
        ("١٢٣٤", ""),
        ("12", ""),
        ("", ""),
        ("0x41", ""),
    ] {
        let mut chars = Cursor::from_str(text);
        assert_eq!(parse_unicode(&mut chars), '\u{fffd}', "{:?}", text);
        assert_eq!(rest(&mut chars), left, "{:?}", text);
    }
}

#[test]
fn unicode_escape_consumes_four_characters() {
    let mut chars = Cursor::from_str("00410042");
    assert_eq!(parse_unicode(&mut chars), 'A');
    assert_eq!(rest(&mut chars), "0042");
}

#[test]
fn string_body_ends_at_the_quote() {
    let mut chars = Cursor::from_str("abc\" tail");
    assert_eq!(parse_string(&mut chars), Ok(String::from("abc")));
    assert_eq!(rest(&mut chars), " tail");
    let mut chars = Cursor::from_str("\"");
    assert_eq!(parse_string(&mut chars), Ok(String::new()));
}

#[test]
fn string_keeps_whitespace_and_control_characters() {
    assert_eq!(text_of(parse("\" a\tb\nc \"").unwrap()), " a\tb\nc ");
}

#[test]
fn string_escapes_in_a_row() {
    let text = "\"@@@\"@/@b@f@n@r@t@u0041@u00e9\"".replace('@', "\\");
    assert_eq!(text_of(parse(&text).unwrap()), "\\\"/\x08\x0C\n\r\tAé");
}

#[test]
fn escaped_quote_does_not_end_the_string() {
    let text = "\"a@\"b\"c".replace('@', "\\");
    let mut chars = Cursor::from_str(&text);
    assert_eq!(text_of(parse_json(&mut chars).unwrap()), "a\"b");
    assert_eq!(rest(&mut chars), "c");
}

#[test]
fn number_takes_all_number_characters() {
    let mut chars = Cursor::from_str(".5e+3,7");
    let parsed = parse_number(&mut chars, '2').unwrap();
    assert_eq!(number(&parsed), 2500.0);
    assert_eq!(rest(&mut chars), ",7");
    let mut chars = Cursor::from_str("");
    let parsed = parse_number(&mut chars, '7').unwrap();
    assert_eq!(number(&parsed), 7.0);
}

#[test]
fn number_keeps_its_spelling() {
    match parse("1.0").unwrap() {
        Json::Number(n) => assert_eq!(n.as_str(), "1.0"),
        other => panic!("not a number: {:?}", other),
    }
    match parse("-0").unwrap() {
        Json::Number(n) => assert_eq!(n.as_str(), "-0"),
        other => panic!("not a number: {:?}", other),
    }
}

#[test]
fn integers_and_decimals_denote_the_same_numbers() {
    assert_eq!(number(&parse("1").unwrap()), 1.0);
    assert_eq!(number(&parse("1.0").unwrap()), 1.0);
    assert_eq!(number(&parse("1.").unwrap()), 1.0);
    assert_eq!(number(&parse("10e-1").unwrap()), 1.0);
    assert_eq!(number(&parse("-0").unwrap()), 0.0);
    assert_eq!(number(&parse("007").unwrap()), 7.0);
    assert_eq!(number(&parse("-.5").unwrap()), -0.5);
    assert_eq!(number(&parse("1E+2").unwrap()), 100.0);
    assert_eq!(number(&parse("2.44").unwrap()), 2.44);
}

#[test]
fn decimals_are_what_the_standard_library_converts() {
    let spellings = [
        "0", "-0", "+0", "1", "-1", "12", "1.", "1.5", ".5", "-.5", "+.5", "1e5", "1E5", "1e+5",
        "1e-5", "1.e5", ".5e5", "1.5e05", "00", "-007", "123456789012345678901234567890",
        "1e400", "1e-400", "", "-", "+", ".", "-.", "e", "e5", "1e", "1e+", "1e-", "1e5.", "1e5e5",
        "1.2.3", "1..2", "--1", "+-1", "1-", "1+", "1e++5", ".e5", "-e5", "1 ", " 1", "1_0",
        "0x10", "inf", "nan", "1f", "..",
    ];
    for text in spellings {
        let by_std = text.parse::<f64>().is_ok()
            && text.chars().all(|c| c.is_ascii_digit() || ".eE+-".contains(c));
        assert_eq!(decimal(text).is_some(), by_std, "{:?}", text);
    }
}

#[test]
fn a_number_holds_the_text_it_was_made_of() {
    assert_eq!(decimal("-3.14").unwrap().as_str(), "-3.14");
    assert_eq!(decimal("3e8").unwrap().as_str(), "3e8");
    assert!(decimal("three").is_none());
}

#[test]
fn empty_containers() {
    assert_eq!(parse("[]").unwrap(), Json::Array(vec![]));
    assert_eq!(parse("[ \n ]").unwrap(), Json::Array(vec![]));
    assert_eq!(parse("{}").unwrap(), Json::Object(Object::new()));
    assert_eq!(parse("{ \t }").unwrap(), Json::Object(Object::new()));
    assert_eq!(
        parse("[[], {}]").unwrap(),
        Json::Array(vec![Json::Array(vec![]), Json::Object(Object::new())])
    );
}

#[test]
fn a_later_member_replaces_an_earlier_one() {
    match parse(r#"{"a": 1, "b": 2, "a": 3}"#).unwrap() {
        Json::Object(members) => {
            assert_eq!(members.len(), 2);
            assert_eq!(number(members.get(&String::from("a")).unwrap()), 3.0);
            assert_eq!(number(members.get(&String::from("b")).unwrap()), 2.0);
        }
        other => panic!("not an object: {:?}", other),
    }
}

#[test]
fn keys_are_compared_after_decoding() {
    let text = r#"{"A": 1, "@u0041": 2}"#.replace('@', "\\");
    match parse(&text).unwrap() {
        Json::Object(members) => {
            assert_eq!(members.len(), 1);
            assert_eq!(number(members.get(&String::from("A")).unwrap()), 2.0);
        }
        other => panic!("not an object: {:?}", other),
    }
}

#[test]
fn object_insert_get_and_len() {
    let mut members = Object::new();
    assert_eq!(members.len(), 0);
    assert_eq!(members.get(&String::from("a")), None);
    members.insert(String::from("a"), Json::Null);
    members.insert(String::from("b"), Json::Bool(true));
    assert_eq!(members.len(), 2);
    assert_eq!(members.get(&String::from("a")), Some(&Json::Null));
    members.insert(String::from("a"), Json::Bool(false));
    assert_eq!(members.len(), 2);
    assert_eq!(members.get(&String::from("a")), Some(&Json::Bool(false)));
    assert_eq!(members.get(&String::from("b")), Some(&Json::Bool(true)));
    assert_eq!(members.get(&String::from("")), None);
    members.insert(String::new(), Json::Null);
    assert_eq!(members.len(), 3);
    assert_eq!(members.get(&String::new()), Some(&Json::Null));
}

#[test]
fn destructure_gives_the_text_of_a_string_only() {
    assert_eq!(Json::String(String::from("key")).destructure(), Ok(String::from("key")));
    assert_eq!(Json::Null.destructure(), Err(ParseError::InvalidObjectKey));
    assert_eq!(Json::Bool(true).destructure(), Err(ParseError::InvalidObjectKey));
    assert_eq!(Json::Array(vec![]).destructure(), Err(ParseError::InvalidObjectKey));
    assert_eq!(parse("12").unwrap().destructure(), Err(ParseError::InvalidObjectKey));
}

#[test]
fn whitespace_between_tokens_changes_nothing() {
    let dense = r#"{"a":[1,2,{"b":null}],"c":"x y","d":true}"#;
    let loose = "\n{ \"a\" :\t[ 1 ,\r\n 2 , { \"b\" : null } ] ,\n\"c\" : \"x y\" , \"d\" : true }  ";
    assert_eq!(parse(dense).unwrap(), parse(loose).unwrap());
    assert_eq!(parse("[1,2]"), parse(" [\t1\n,\r2 ] "));
    assert_eq!(parse("[1 2]"), parse("[1\n\n2]"));
    assert_eq!(parse("{\"a\"1}"), parse("{ \"a\"\t1 }"));
}

#[test]
fn whitespace_inside_tokens_matters() {
    assert_ne!(parse("12"), parse("1 2"));
    assert_ne!(parse("\"ab\""), parse("\"a b\""));
    assert_ne!(parse("null"), parse("nu ll"));
}

#[test]
fn nested_document() {
    let example = r#"
        {
            "number_int": 1,
            "number_float": 2.44,
            "null_value": null,
            "bool_true": true,
            "bool_false": false,
            "string_easy": "string_value",
            "object" : {
                "key1" : 1
            },
            "array_mixed": [
                1,
                2,
                "string in array",
                {
                    "key": "value"
                }
            ]
        }"#;
    let members = match parse(example).unwrap() {
        Json::Object(members) => members,
        other => panic!("not an object: {:?}", other),
    };
    assert_eq!(members.len(), 8);
    assert_eq!(number(members.get(&String::from("number_int")).unwrap()), 1.0);
    assert_eq!(number(members.get(&String::from("number_float")).unwrap()), 2.44);
    assert_eq!(members.get(&String::from("null_value")), Some(&Json::Null));
    assert_eq!(members.get(&String::from("bool_true")), Some(&Json::Bool(true)));
    assert_eq!(members.get(&String::from("bool_false")), Some(&Json::Bool(false)));
    assert_eq!(
        members.get(&String::from("string_easy")),
        Some(&Json::String(String::from("string_value")))
    );
    match members.get(&String::from("object")).unwrap() {
        Json::Object(inner) => {
            assert_eq!(inner.len(), 1);
            assert_eq!(number(inner.get(&String::from("key1")).unwrap()), 1.0);
        }
        other => panic!("not an object: {:?}", other),
    }
    match members.get(&String::from("array_mixed")).unwrap() {
        Json::Array(items) => {
            assert_eq!(items.len(), 4);
            assert_eq!(number(&items[0]), 1.0);
            assert_eq!(number(&items[1]), 2.0);
            assert_eq!(items[2], Json::String(String::from("string in array")));
            match &items[3] {
                Json::Object(inner) => assert_eq!(
                    inner.get(&String::from("key")),
                    Some(&Json::String(String::from("value")))
                ),
                other => panic!("not an object: {:?}", other),
            }
        }
        other => panic!("not an array: {:?}", other),
    }
}

#[test]
fn objects_are_equal_whatever_the_order_of_members() {
    let one = parse(r#"{"key1": false, "key2": [1, {"a": null, "b": "x"}]}"#).unwrap();
    let other = parse(r#"{"key2": [1, {"b": "x", "a": null}], "key1": false}"#).unwrap();
    assert_eq!(one, other);
    let mut members = Object::new();
    members.insert(String::from("key2"), parse(r#"[1, {"a": null, "b": "x"}]"#).unwrap());
    members.insert(String::from("key1"), Json::Bool(false));
    assert_eq!(one, Json::Object(members));
}

#[test]
fn different_values_are_not_equal() {
    assert_ne!(parse(r#"{"a": 1}"#), parse(r#"{"a": 2}"#));
    assert_ne!(parse(r#"{"a": 1}"#), parse(r#"{"b": 1}"#));
    assert_ne!(parse(r#"{"a": 1}"#), parse(r#"{"a": 1, "b": 1}"#));
    assert_ne!(parse(r#"{"a": 1, "b": 2}"#), parse(r#"{"a": 2, "b": 1}"#));
    assert_ne!(parse("[1, 2]"), parse("[2, 1]"));
    assert_ne!(parse("[1]"), parse("[1, 1]"));
    assert_ne!(parse("[]"), parse("{}"));
    assert_ne!(parse("\"1\""), parse("1"));
    assert_ne!(parse("null"), parse("false"));
    assert_ne!(parse("true"), parse("false"));
    assert_ne!(parse("\"a\""), parse("\"b\""));
    assert_ne!(parse("1"), parse("2"));
}

#[test]
fn a_replaced_member_keeps_objects_equal() {
    assert_eq!(parse(r#"{"a": 1, "a": 2}"#), parse(r#"{"a": 2}"#));
}

#[test]
fn members_come_out_once_each() {
    let mut members = match parse(r#"{"b": 1, "a": 2, "b": 3}"#).unwrap() {
        Json::Object(members) => members.into_members(),
        other => panic!("not an object: {:?}", other),
    };
    members.sort_by(|x, y| x.0.cmp(&y.0));
    assert_eq!(members.len(), 2);
    assert_eq!(members[0].0, "a");
    assert_eq!(number(&members[0].1), 2.0);
    assert_eq!(members[1].0, "b");
    assert_eq!(number(&members[1].1), 3.0);
}
