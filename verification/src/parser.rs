//! The parser: one pass over the characters, one value out.

use crate::consumption::{is_rest_of, lemma_expect, lemma_skip_whitespace, lemma_value};
use crate::cursor::Cursor;
use crate::error::ParseError;
use crate::grammar::{
    array, elements, escape_len, escaped_char, expect, hex_value, is_number_char, is_whitespace,
    members, number, number_run, object, skip_whitespace, string_body, value,
};
use crate::number::{is_digit, Number};
use crate::value::{values_of, Json, Object, Value};
use vstd::prelude::*;

verus! {

/// How deep arrays and objects may be nested in a document that
/// [`parse_json`] accepts.
pub const MAX_DEPTH: usize = 128;

/// What a parser's result stands for: the value of the tree, or the error.
pub open spec fn outcome(result: Result<Json, ParseError>) -> Result<Value, ParseError> {
    match result {
        Ok(json) => Ok(json@),
        Err(e) => Err(e),
    }
}

fn is_whitespace_char(c: char) -> (b: bool)
    ensures
        b == is_whitespace(c),
{
    c == ' ' || c == '\t' || c == '\n' || c == '\r'
}

fn is_number_start(c: char) -> (b: bool)
    ensures
        b == (is_digit(c) || c == '-'),
{
    (c >= '0' && c <= '9') || c == '-'
}

fn is_number_part(c: char) -> (b: bool)
    ensures
        b == is_number_char(c),
{
    (c >= '0' && c <= '9') || c == '.' || c == 'e' || c == 'E' || c == '+' || c == '-'
}

/// Consumes the whitespace that the input starts with.
pub fn parse_whitespace(chars: &mut Cursor)
    ensures
        final(chars)@ == skip_whitespace(old(chars)@),
{
    loop
        invariant
            skip_whitespace(chars@) == skip_whitespace(old(chars)@),
        ensures
            chars@ == skip_whitespace(old(chars)@),
        decreases chars@.len(),
    {
        match chars.peek() {
            Some(c) => {
                if is_whitespace_char(c) {
                    chars.next();
                } else {
                    break ;
                }
            },
            None => {
                break ;
            },
        }
    }
}

/// Consumes the characters of `expected` one after the other, and fails at
/// the first that the input does not hold.
pub fn parse_expected(chars: &mut Cursor, expected: Vec<char>) -> (result: Result<(), ParseError>)
    ensures
        result == expect(old(chars)@, expected@).result,
        final(chars)@ == expect(old(chars)@, expected@).rest,
{
    let mut i: usize = 0;
    assert(expected@.skip(0) =~= expected@);
    while i < expected.len()
        invariant
            i <= expected@.len(),
            expect(chars@, expected@.skip(i as int)) == expect(old(chars)@, expected@),
        decreases expected@.len() - i,
    {
        let ghost e = expected@.skip(i as int);
        assert(e.drop_first() =~= expected@.skip(i + 1));
        assert(e[0] == expected@[i as int]);
        match chars.next() {
            None => {
                return Err(ParseError::UnexpectedEndOfInput);
            },
            Some(c) => {
                if c != expected[i] {
                    return Err(ParseError::UnexpectedCharacter);
                }
            },
        }
        i = i + 1;
    }
    Ok(())
}

/// The number that a hexadecimal digit stands for.
fn hex_digit(c: char) -> (digit: Option<u32>)
    ensures
        digit is Some <==> hex_value(c) is Some,
        digit matches Some(d) ==> d == hex_value(c)->0 && d < 16,
{
    if c >= '0' && c <= '9' {
        Some(c as u32 - '0' as u32)
    } else if c >= 'a' && c <= 'f' {
        Some(c as u32 - 'a' as u32 + 10)
    } else if c >= 'A' && c <= 'F' {
        Some(c as u32 - 'A' as u32 + 10)
    } else {
        None
    }
}

/// Consumes the four characters after `\u`, or all that are left, and gives
/// the character that they name: the replacement character unless they are
/// four hexadecimal digits that spell a scalar value.
pub fn parse_unicode(chars: &mut Cursor) -> (c: char)
    ensures
        c == escaped_char(old(chars)@.take(escape_len(old(chars)@))),
        final(chars)@ == old(chars)@.skip(escape_len(old(chars)@)),
{
    let ghost s = chars@;
    let first = chars.next();
    let second = chars.next();
    let third = chars.next();
    let fourth = chars.next();
    proof {
        let n = escape_len(s);
        assert(chars@ =~= s.skip(n));
        assert(forall|i: int| 0 <= i < n ==> s.take(n)[i] == s[i]);
    }
    match (first, second, third, fourth) {
        (Some(a), Some(b), Some(c), Some(d)) => {
            match (hex_digit(a), hex_digit(b), hex_digit(c), hex_digit(d)) {
                (Some(h3), Some(h2), Some(h1), Some(h0)) => {
                    let code: u32 = 4096 * h3 + 256 * h2 + 16 * h1 + h0;
                    match char::from_u32(code) {
                        Some(named) => named,
                        None => '\u{FFFD}',
                    }
                },
                _ => '\u{FFFD}',
            }
        },
        _ => '\u{FFFD}',
    }
}

/// Reads the inside of a string whose opening quote has been consumed, up to
/// and including the closing quote, and decodes the escapes.
pub fn parse_string(chars: &mut Cursor) -> (result: Result<String, ParseError>)
    ensures
        final(chars)@ == string_body(old(chars)@, Seq::empty()).rest,
        match result {
            Ok(text) => string_body(old(chars)@, Seq::empty()).result == Ok::<
                Seq<char>,
                ParseError,
            >(text@),
            Err(e) => string_body(old(chars)@, Seq::empty()).result == Err::<
                Seq<char>,
                ParseError,
            >(e),
        },
{
    let mut text = String::new();
    loop
        invariant
            string_body(chars@, text@) == string_body(old(chars)@, Seq::empty()),
        decreases chars@.len(),
    {
        let ghost s = chars@;
        match chars.next() {
            None => {
                return Err(ParseError::UnexpectedEndOfInput);
            },
            Some(c) => {
                if c == '"' {
                    return Ok(text);
                } else if c != '\\' {
                    text.push(c);
                } else {
                    match chars.next() {
                        None => {
                            return Err(ParseError::UnexpectedEndOfInput);
                        },
                        Some(e) => {
                            assert(e == s[1]);
                            assert(chars@ =~= s.skip(2));
                            if e == 'u' {
                                let named = parse_unicode(chars);
                                text.push(named);
                            } else if e == '"' || e == '\\' || e == '/' {
                                text.push(e);
                            } else if e == 'b' {
                                text.push('\u{8}');
                            } else if e == 'f' {
                                text.push('\u{C}');
                            } else if e == 'n' {
                                text.push('\n');
                            } else if e == 'r' {
                                text.push('\r');
                            } else if e == 't' {
                                text.push('\t');
                            } else {
                                return Err(ParseError::InvalidEscapeSequence);
                            }
                        },
                    }
                }
            },
        }
    }
}

/// Reads a number whose first character `first` has been consumed.
pub fn parse_number(chars: &mut Cursor, first: char) -> (result: Result<Json, ParseError>)
    ensures
        outcome(result) == number(first, old(chars)@).result,
        final(chars)@ == number(first, old(chars)@).rest,
{
    let ghost s = chars@;
    let mut text: Vec<char> = Vec::new();
    text.push(first);
    loop
        invariant
            text@.len() >= 1,
            text@.len() - 1 <= s.len(),
            text@ == seq![first] + s.take(text@.len() - 1),
            chars@ == s.skip(text@.len() - 1),
            text@.len() - 1 + number_run(chars@) == number_run(s),
            s == old(chars)@,
        ensures
            text@ == seq![first] + s.take(number_run(s) as int),
            chars@ == s.skip(number_run(s) as int),
        decreases chars@.len(),
    {
        let ghost n = text@.len() - 1;
        match chars.peek() {
            Some(c) => {
                if is_number_part(c) {
                    chars.next();
                    text.push(c);
                    assert(c == s[n]);
                    assert(chars@ =~= s.skip(n + 1));
                    assert(text@ =~= seq![first] + s.take(n + 1));
                } else {
                    break ;
                }
            },
            None => {
                break ;
            },
        }
    }
    match Number::new(text.as_slice()) {
        Some(number) => Ok(Json::Number(number)),
        None => Err(ParseError::MalformedNumber),
    }
}

/// Reads one value, in which arrays and objects may be nested `depth` deep.
/// Whitespace before the value is skipped; what follows the value stays
/// unconsumed.
pub fn parse_value(chars: &mut Cursor, depth: usize) -> (result: Result<Json, ParseError>)
    ensures
        outcome(result) == value(old(chars)@, depth as nat).result,
        final(chars)@ == value(old(chars)@, depth as nat).rest,
    decreases depth, 0int,
{
    parse_whitespace(chars);
    match chars.next() {
        None => Err(ParseError::UnexpectedEndOfInput),
        Some(c) => {
            if c == '{' {
                if depth == 0 {
                    Err(ParseError::NestingTooDeep)
                } else {
                    parse_object(chars, depth - 1)
                }
            } else if c == '[' {
                if depth == 0 {
                    Err(ParseError::NestingTooDeep)
                } else {
                    parse_array(chars, depth - 1)
                }
            } else if c == '"' {
                match parse_string(chars) {
                    Ok(text) => Ok(Json::String(text)),
                    Err(e) => Err(e),
                }
            } else if c == 'n' {
                match parse_expected(chars, vec!['u', 'l', 'l']) {
                    Ok(_) => Ok(Json::Null),
                    Err(e) => Err(e),
                }
            } else if c == 't' {
                match parse_expected(chars, vec!['r', 'u', 'e']) {
                    Ok(_) => Ok(Json::Bool(true)),
                    Err(e) => Err(e),
                }
            } else if c == 'f' {
                match parse_expected(chars, vec!['a', 'l', 's', 'e']) {
                    Ok(_) => Ok(Json::Bool(false)),
                    Err(e) => Err(e),
                }
            } else if is_number_start(c) {
                parse_number(chars, c)
            } else {
                Err(ParseError::UnexpectedCharacter)
            }
        },
    }
}

/// Reads an array whose opening bracket has been consumed, up to and
/// including the closing bracket. An element may hold arrays and objects
/// nested `depth` deep.
#[verifier::loop_isolation(false)]
pub fn parse_array(chars: &mut Cursor, depth: usize) -> (result: Result<Json, ParseError>)
    ensures
        outcome(result) == array(old(chars)@, depth as nat).result,
        final(chars)@ == array(old(chars)@, depth as nat).rest,
    decreases depth, 1int,
{
    parse_whitespace(chars);
    match chars.peek() {
        Some(c) => {
            if c == ']' {
                chars.next();
                let items: Vec<Json> = Vec::new();
                assert(values_of(items@) =~= Seq::empty());
                return Ok(Json::Array(items));
            }
        },
        None => {},
    }
    let ghost start = chars@;
    let mut items: Vec<Json> = Vec::new();
    loop
        invariant
            elements(chars@, depth as nat, values_of(items@)) == elements(
                start,
                depth as nat,
                Seq::empty(),
            ),
        decreases chars@.len(),
    {
        let ghost s = chars@;
        let ghost before = items@;
        proof {
            lemma_value(s, depth as nat);
        }
        match parse_value(chars, depth) {
            Err(e) => {
                return Err(e);
            },
            Ok(item) => {
                items.push(item);
                assert(items@.drop_last() =~= before);
                proof {
                    lemma_skip_whitespace(chars@);
                }
                parse_whitespace(chars);
                match chars.next() {
                    None => {
                        return Err(ParseError::UnexpectedEndOfInput);
                    },
                    Some(c) => {
                        if c == ']' {
                            return Ok(Json::Array(items));
                        } else if c != ',' {
                            return Err(ParseError::UnexpectedCharacter);
                        }
                    },
                }
            },
        }
    }
}

/// Reads an object whose opening brace has been consumed, up to and
/// including the closing brace. A member read later replaces one with the
/// same key. A member may hold arrays and objects nested `depth` deep.
#[verifier::loop_isolation(false)]
pub fn parse_object(chars: &mut Cursor, depth: usize) -> (result: Result<Json, ParseError>)
    ensures
        outcome(result) == object(old(chars)@, depth as nat).result,
        final(chars)@ == object(old(chars)@, depth as nat).rest,
    decreases depth, 1int,
{
    parse_whitespace(chars);
    match chars.peek() {
        Some(c) => {
            if c == '}' {
                chars.next();
                return Ok(Json::Object(Object::new()));
            }
        },
        None => {},
    }
    let ghost start = chars@;
    let mut map = Object::new();
    loop
        invariant
            members(chars@, depth as nat, map@) == members(start, depth as nat, Map::empty()),
        decreases chars@.len(),
    {
        let ghost s = chars@;
        proof {
            lemma_value(s, depth as nat);
        }
        let key = match parse_value(chars, depth) {
            Err(e) => {
                return Err(e);
            },
            Ok(json) => match json.destructure() {
                Err(e) => {
                    return Err(e);
                },
                Ok(key) => key,
            },
        };
        proof {
            lemma_skip_whitespace(chars@);
        }
        parse_whitespace(chars);
        proof {
            lemma_expect(chars@, seq![':']);
        }
        let colon = vec![':'];
        assert(colon@ =~= seq![':']);
        match parse_expected(chars, colon) {
            Err(e) => {
                return Err(e);
            },
            Ok(_) => {},
        }
        proof {
            lemma_value(chars@, depth as nat);
        }
        match parse_value(chars, depth) {
            Err(e) => {
                return Err(e);
            },
            Ok(member) => {
                map.insert(key, member);
                proof {
                    lemma_skip_whitespace(chars@);
                }
                parse_whitespace(chars);
                match chars.next() {
                    None => {
                        return Err(ParseError::UnexpectedEndOfInput);
                    },
                    Some(c) => {
                        if c == '}' {
                            return Ok(Json::Object(map));
                        } else if c != ',' {
                            return Err(ParseError::UnexpectedCharacter);
                        }
                    },
                }
            },
        }
    }
}

/// Reads one JSON value from the start of the input and leaves the cursor
/// right behind it, or behind the character at which reading failed.
/// Arrays and objects may be nested [`MAX_DEPTH`] deep. What follows the
/// value is not looked at.
pub fn parse_json(chars: &mut Cursor) -> (result: Result<Json, ParseError>)
    ensures
        outcome(result) == value(old(chars)@, MAX_DEPTH as nat).result,
        final(chars)@ == value(old(chars)@, MAX_DEPTH as nat).rest,
        is_rest_of(final(chars)@, old(chars)@),
        result is Ok ==> final(chars)@.len() < old(chars)@.len(),
{
    proof {
        lemma_value(chars@, MAX_DEPTH as nat);
    }
    parse_value(chars, MAX_DEPTH)
}

} // verus!
