//! What parsing means: the grammar as functions on sequences of characters.
//!
//! Each function takes the characters that have not been consumed yet and
//! gives the outcome together with the characters that are left afterwards,
//! on failure as on success.

use crate::error::ParseError;
use crate::number::{is_decimal, is_digit};
use crate::std_contracts::is_scalar_value;
use crate::value::Value;
use vstd::prelude::*;

verus! {

/// The outcome of reading something from a sequence of characters.
pub struct Parsed<T> {
    /// What was read, or why reading failed.
    pub result: Result<T, ParseError>,
    /// The characters that were not consumed.
    pub rest: Seq<char>,
}

/// Success with `item`, leaving `rest`.
pub open spec fn accept<T>(item: T, rest: Seq<char>) -> Parsed<T> {
    Parsed { result: Ok(item), rest }
}

/// Failure with `error`, leaving `rest`.
pub open spec fn reject<T>(error: ParseError, rest: Seq<char>) -> Parsed<T> {
    Parsed { result: Err(error), rest }
}

/// Space, tab, newline or carriage return.
pub open spec fn is_whitespace(c: char) -> bool {
    c == ' ' || c == '\t' || c == '\n' || c == '\r'
}

/// `s` without the whitespace that it starts with.
pub open spec fn skip_whitespace(s: Seq<char>) -> Seq<char>
    decreases s.len(),
{
    if s.len() > 0 && is_whitespace(s[0]) {
        skip_whitespace(s.drop_first())
    } else {
        s
    }
}

/// Reads the characters of `expected` one after the other. The first
/// character that differs is consumed and fails the reading.
pub open spec fn expect(s: Seq<char>, expected: Seq<char>) -> Parsed<()>
    decreases expected.len(),
{
    if expected.len() == 0 {
        accept((), s)
    } else if s.len() == 0 {
        reject(ParseError::UnexpectedEndOfInput, s)
    } else if s[0] != expected[0] {
        reject(ParseError::UnexpectedCharacter, s.drop_first())
    } else {
        expect(s.drop_first(), expected.drop_first())
    }
}

/// The number that a hexadecimal digit stands for.
pub open spec fn hex_value(c: char) -> Option<int> {
    if '0' <= c && c <= '9' {
        Some(c as int - '0' as int)
    } else if 'a' <= c && c <= 'f' {
        Some(c as int - 'a' as int + 10)
    } else if 'A' <= c && c <= 'F' {
        Some(c as int - 'A' as int + 10)
    } else {
        None
    }
}

/// The number that four hexadecimal digits spell; `None` for anything else.
pub open spec fn hex_code(s: Seq<char>) -> Option<int> {
    if s.len() == 4 && hex_value(s[0]) is Some && hex_value(s[1]) is Some && hex_value(s[2]) is Some
        && hex_value(s[3]) is Some {
        Some(
            4096 * hex_value(s[0])->0 + 256 * hex_value(s[1])->0 + 16 * hex_value(s[2])->0
                + hex_value(s[3])->0,
        )
    } else {
        None
    }
}

/// The character that stands in for an escape that names no scalar value.
pub open spec fn replacement() -> char {
    '\u{FFFD}'
}

/// The character that the text after `\u` names: the scalar value that four
/// hexadecimal digits spell, and the replacement character for anything else,
/// half of a surrogate pair included.
pub open spec fn escaped_char(s: Seq<char>) -> char {
    match hex_code(s) {
        Some(code) => if is_scalar_value(code as u32) {
            code as char
        } else {
            replacement()
        },
        None => replacement(),
    }
}

/// How many characters a `\u` escape consumes after the `u`: four, or all
/// that are left.
pub open spec fn escape_len(s: Seq<char>) -> int {
    if s.len() < 4 {
        s.len() as int
    } else {
        4
    }
}

/// The character that a one-letter escape stands for.
pub open spec fn simple_escape(c: char) -> Option<char> {
    if c == '"' || c == '\\' || c == '/' {
        Some(c)
    } else if c == 'b' {
        Some('\u{8}')
    } else if c == 'f' {
        Some('\u{C}')
    } else if c == 'n' {
        Some('\n')
    } else if c == 'r' {
        Some('\r')
    } else if c == 't' {
        Some('\t')
    } else {
        None
    }
}

/// Reads the inside of a string up to and including the closing quote.
/// `text` holds what has been read of the string so far.
pub open spec fn string_body(s: Seq<char>, text: Seq<char>) -> Parsed<Seq<char>>
    decreases s.len(),
{
    if s.len() == 0 {
        reject(ParseError::UnexpectedEndOfInput, s)
    } else if s[0] == '"' {
        accept(text, s.drop_first())
    } else if s[0] != '\\' {
        string_body(s.drop_first(), text.push(s[0]))
    } else if s.len() == 1 {
        reject(ParseError::UnexpectedEndOfInput, s.drop_first())
    } else if s[1] == 'u' {
        let digits = s.skip(2);
        let n = escape_len(digits);
        string_body(digits.skip(n), text.push(escaped_char(digits.take(n))))
    } else {
        match simple_escape(s[1]) {
            Some(c) => string_body(s.skip(2), text.push(c)),
            None => reject(ParseError::InvalidEscapeSequence, s.skip(2)),
        }
    }
}

/// A character that may stand in a number after its first one.
pub open spec fn is_number_char(c: char) -> bool {
    is_digit(c) || c == '.' || c == 'e' || c == 'E' || c == '+' || c == '-'
}

/// The length of the run of number characters at the start of `s`.
pub open spec fn number_run(s: Seq<char>) -> nat
    decreases s.len(),
{
    if s.len() > 0 && is_number_char(s[0]) {
        1 + number_run(s.drop_first())
    } else {
        0
    }
}

/// Reads a number whose first character `first` has been consumed: all
/// number characters that follow belong to it, and together they must spell
/// a decimal.
pub open spec fn number(first: char, s: Seq<char>) -> Parsed<Value> {
    let n = number_run(s) as int;
    let text = seq![first] + s.take(n);
    if is_decimal(text) {
        accept(Value::Number(text), s.skip(n))
    } else {
        reject(ParseError::MalformedNumber, s.skip(n))
    }
}

/// Reads one value: skips whitespace and lets the next character decide
/// what to read. Arrays and objects may be nested `depth` deep.
pub open spec fn value(s: Seq<char>, depth: nat) -> Parsed<Value>
    decreases depth, 0int, s.len(),
{
    let t = skip_whitespace(s);
    if t.len() == 0 {
        reject(ParseError::UnexpectedEndOfInput, t)
    } else {
        let c = t[0];
        let r = t.drop_first();
        if c == '{' {
            if depth == 0 {
                reject(ParseError::NestingTooDeep, r)
            } else {
                object(r, (depth - 1) as nat)
            }
        } else if c == '[' {
            if depth == 0 {
                reject(ParseError::NestingTooDeep, r)
            } else {
                array(r, (depth - 1) as nat)
            }
        } else if c == '"' {
            let p = string_body(r, Seq::empty());
            match p.result {
                Ok(text) => accept(Value::String(text), p.rest),
                Err(e) => reject(e, p.rest),
            }
        } else if c == 'n' {
            let p = expect(r, seq!['u', 'l', 'l']);
            match p.result {
                Ok(_) => accept(Value::Null, p.rest),
                Err(e) => reject(e, p.rest),
            }
        } else if c == 't' {
            let p = expect(r, seq!['r', 'u', 'e']);
            match p.result {
                Ok(_) => accept(Value::Bool(true), p.rest),
                Err(e) => reject(e, p.rest),
            }
        } else if c == 'f' {
            let p = expect(r, seq!['a', 'l', 's', 'e']);
            match p.result {
                Ok(_) => accept(Value::Bool(false), p.rest),
                Err(e) => reject(e, p.rest),
            }
        } else if is_digit(c) || c == '-' {
            number(c, r)
        } else {
            reject(ParseError::UnexpectedCharacter, r)
        }
    }
}

/// Reads an array whose opening bracket has been consumed: nothing but
/// whitespace up to the closing bracket, or elements separated by commas.
pub open spec fn array(s: Seq<char>, depth: nat) -> Parsed<Value>
    decreases depth, 2int, s.len(),
{
    let t = skip_whitespace(s);
    if t.len() > 0 && t[0] == ']' {
        accept(Value::Array(Seq::empty()), t.drop_first())
    } else {
        let p = elements(t, depth, Seq::empty());
        match p.result {
            Ok(items) => accept(Value::Array(items), p.rest),
            Err(e) => reject(e, p.rest),
        }
    }
}

/// Reads the elements of an array from the start of an element up to and
/// including the closing bracket. `items` holds the elements read so far.
///
/// The comparison of lengths makes the definition well founded. It always
/// holds, because reading a value takes at least one character.
pub open spec fn elements(s: Seq<char>, depth: nat, items: Seq<Value>) -> Parsed<Seq<Value>>
    decreases depth, 1int, s.len(),
{
    let element = value(s, depth);
    match element.result {
        Err(e) => reject(e, element.rest),
        Ok(v) => {
            let t = skip_whitespace(element.rest);
            if t.len() == 0 {
                reject(ParseError::UnexpectedEndOfInput, t)
            } else if t[0] == ']' {
                accept(items.push(v), t.drop_first())
            } else if t[0] == ',' && t.len() <= s.len() {
                elements(t.drop_first(), depth, items.push(v))
            } else {
                reject(ParseError::UnexpectedCharacter, t.drop_first())
            }
        },
    }
}

/// Reads an object whose opening brace has been consumed: nothing but
/// whitespace up to the closing brace, or members separated by commas.
pub open spec fn object(s: Seq<char>, depth: nat) -> Parsed<Value>
    decreases depth, 2int, s.len(),
{
    let t = skip_whitespace(s);
    if t.len() > 0 && t[0] == '}' {
        accept(Value::Object(Map::empty()), t.drop_first())
    } else {
        let p = members(t, depth, Map::empty());
        match p.result {
            Ok(map) => accept(Value::Object(map), p.rest),
            Err(e) => reject(e, p.rest),
        }
    }
}

/// Reads the members of an object from the start of a key up to and including
/// the closing brace. `map` holds the members read so far; a member read
/// later replaces one with the same key.
///
/// The comparison of lengths makes the definition well founded. It always
/// holds, because reading a value takes at least one character.
pub open spec fn members(s: Seq<char>, depth: nat, map: Map<Seq<char>, Value>) -> Parsed<
    Map<Seq<char>, Value>,
>
    decreases depth, 1int, s.len(),
{
    let key = value(s, depth);
    match key.result {
        Err(e) => reject(e, key.rest),
        Ok(Value::String(name)) => {
            let colon = expect(skip_whitespace(key.rest), seq![':']);
            match colon.result {
                Err(e) => reject(e, colon.rest),
                Ok(_) => {
                    let member = value(colon.rest, depth);
                    match member.result {
                        Err(e) => reject(e, member.rest),
                        Ok(v) => {
                            let t = skip_whitespace(member.rest);
                            if t.len() == 0 {
                                reject(ParseError::UnexpectedEndOfInput, t)
                            } else if t[0] == '}' {
                                accept(map.insert(name, v), t.drop_first())
                            } else if t[0] == ',' && t.len() <= s.len() {
                                members(t.drop_first(), depth, map.insert(name, v))
                            } else {
                                reject(ParseError::UnexpectedCharacter, t.drop_first())
                            }
                        },
                    }
                },
            }
        },
        Ok(_) => reject(ParseError::InvalidObjectKey, key.rest),
    }
}

} // verus!
