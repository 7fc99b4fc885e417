//! The grammar a second time, in two layers: the characters make tokens, and
//! the tokens make values. Whitespace exists in the first layer only, where
//! it separates tokens and is dropped.

use crate::error::ParseError;
use crate::grammar::{expect, number, skip_whitespace, string_body};
use crate::number::is_digit;
use crate::value::Value;
use vstd::prelude::*;

verus! {

/// The smallest meaningful piece of a document.
pub enum Token {
    /// `{`
    BeginObject,
    /// `}`
    EndObject,
    /// `[`
    BeginArray,
    /// `]`
    EndArray,
    /// `:`
    Colon,
    /// `,`
    Comma,
    /// A string, by the characters it holds after decoding.
    Text(Seq<char>),
    /// A number, by its spelling.
    Number(Seq<char>),
    /// `true` or `false`.
    Bool(bool),
    /// `null`.
    Null,
    /// Characters that make no token. Nothing is read after them.
    Invalid(ParseError),
}

/// The outcome of reading one token.
pub struct Lexed {
    /// The token that was read.
    pub token: Token,
    /// The characters that were not consumed.
    pub rest: Seq<char>,
}

/// Reads the token at the start of `s`, which is not empty and does not
/// start with whitespace.
pub open spec fn next_token(s: Seq<char>) -> Lexed {
    let c = s[0];
    let r = s.drop_first();
    if c == '{' {
        Lexed { token: Token::BeginObject, rest: r }
    } else if c == '}' {
        Lexed { token: Token::EndObject, rest: r }
    } else if c == '[' {
        Lexed { token: Token::BeginArray, rest: r }
    } else if c == ']' {
        Lexed { token: Token::EndArray, rest: r }
    } else if c == ':' {
        Lexed { token: Token::Colon, rest: r }
    } else if c == ',' {
        Lexed { token: Token::Comma, rest: r }
    } else if c == '"' {
        let p = string_body(r, Seq::empty());
        match p.result {
            Ok(text) => Lexed { token: Token::Text(text), rest: p.rest },
            Err(e) => Lexed { token: Token::Invalid(e), rest: p.rest },
        }
    } else if c == 'n' {
        let p = expect(r, seq!['u', 'l', 'l']);
        match p.result {
            Ok(_) => Lexed { token: Token::Null, rest: p.rest },
            Err(e) => Lexed { token: Token::Invalid(e), rest: p.rest },
        }
    } else if c == 't' {
        let p = expect(r, seq!['r', 'u', 'e']);
        match p.result {
            Ok(_) => Lexed { token: Token::Bool(true), rest: p.rest },
            Err(e) => Lexed { token: Token::Invalid(e), rest: p.rest },
        }
    } else if c == 'f' {
        let p = expect(r, seq!['a', 'l', 's', 'e']);
        match p.result {
            Ok(_) => Lexed { token: Token::Bool(false), rest: p.rest },
            Err(e) => Lexed { token: Token::Invalid(e), rest: p.rest },
        }
    } else if is_digit(c) || c == '-' {
        let p = number(c, r);
        match p.result {
            Ok(Value::Number(text)) => Lexed { token: Token::Number(text), rest: p.rest },
            Ok(_) => Lexed { token: Token::Invalid(ParseError::MalformedNumber), rest: p.rest },
            Err(e) => Lexed { token: Token::Invalid(e), rest: p.rest },
        }
    } else {
        Lexed { token: Token::Invalid(ParseError::UnexpectedCharacter), rest: r }
    }
}

/// The tokens of `s`: whitespace before each token is dropped, and the
/// sequence ends with the input or with the first invalid token. (The
/// comparison of lengths makes the definition well founded; a token always
/// takes at least one character.)
pub open spec fn tokens(s: Seq<char>) -> Seq<Token>
    decreases s.len(),
{
    let t = skip_whitespace(s);
    if t.len() == 0 {
        Seq::empty()
    } else {
        let lexed = next_token(t);
        if lexed.token is Invalid || lexed.rest.len() >= s.len() {
            seq![lexed.token]
        } else {
            seq![lexed.token] + tokens(lexed.rest)
        }
    }
}

/// The outcome of reading something from a sequence of tokens.
pub struct Read<T> {
    /// What was read, or why reading failed.
    pub result: Result<T, ParseError>,
    /// The tokens that were not consumed.
    pub rest: Seq<Token>,
}

/// Reads one value from tokens. Arrays and objects may be nested `depth` deep.
pub open spec fn token_value(ts: Seq<Token>, depth: nat) -> Read<Value>
    decreases depth, 0int, ts.len(),
{
    if ts.len() == 0 {
        Read { result: Err(ParseError::UnexpectedEndOfInput), rest: ts }
    } else {
        let r = ts.drop_first();
        match ts[0] {
            Token::BeginObject => if depth == 0 {
                Read { result: Err(ParseError::NestingTooDeep), rest: r }
            } else {
                token_object(r, (depth - 1) as nat)
            },
            Token::BeginArray => if depth == 0 {
                Read { result: Err(ParseError::NestingTooDeep), rest: r }
            } else {
                token_array(r, (depth - 1) as nat)
            },
            Token::Text(text) => Read { result: Ok(Value::String(text)), rest: r },
            Token::Number(text) => Read { result: Ok(Value::Number(text)), rest: r },
            Token::Bool(b) => Read { result: Ok(Value::Bool(b)), rest: r },
            Token::Null => Read { result: Ok(Value::Null), rest: r },
            Token::Invalid(e) => Read { result: Err(e), rest: r },
            _ => Read { result: Err(ParseError::UnexpectedCharacter), rest: r },
        }
    }
}

/// Reads an array after its opening bracket.
pub open spec fn token_array(ts: Seq<Token>, depth: nat) -> Read<Value>
    decreases depth, 2int, ts.len(),
{
    if ts.len() > 0 && ts[0] is EndArray {
        Read { result: Ok(Value::Array(Seq::empty())), rest: ts.drop_first() }
    } else {
        let p = token_elements(ts, depth, Seq::empty());
        match p.result {
            Ok(items) => Read { result: Ok(Value::Array(items)), rest: p.rest },
            Err(e) => Read { result: Err(e), rest: p.rest },
        }
    }
}

/// Reads elements separated by commas up to the closing bracket.
pub open spec fn token_elements(ts: Seq<Token>, depth: nat, items: Seq<Value>) -> Read<Seq<Value>>
    decreases depth, 1int, ts.len(),
{
    let element = token_value(ts, depth);
    match element.result {
        Err(e) => Read { result: Err(e), rest: element.rest },
        Ok(v) => {
            let r = element.rest;
            if r.len() == 0 {
                Read { result: Err(ParseError::UnexpectedEndOfInput), rest: r }
            } else if r[0] is EndArray {
                Read { result: Ok(items.push(v)), rest: r.drop_first() }
            } else if r[0] is Comma && r.len() <= ts.len() {
                token_elements(r.drop_first(), depth, items.push(v))
            } else {
                Read { result: Err(ParseError::UnexpectedCharacter), rest: r.drop_first() }
            }
        },
    }
}

/// Reads an object after its opening brace.
pub open spec fn token_object(ts: Seq<Token>, depth: nat) -> Read<Value>
    decreases depth, 2int, ts.len(),
{
    if ts.len() > 0 && ts[0] is EndObject {
        Read { result: Ok(Value::Object(Map::empty())), rest: ts.drop_first() }
    } else {
        let p = token_members(ts, depth, Map::empty());
        match p.result {
            Ok(map) => Read { result: Ok(Value::Object(map)), rest: p.rest },
            Err(e) => Read { result: Err(e), rest: p.rest },
        }
    }
}

/// Reads members separated by commas up to the closing brace: a key, which
/// must be a string, a colon and a value. A later member replaces an earlier
/// one with the same key.
pub open spec fn token_members(ts: Seq<Token>, depth: nat, map: Map<Seq<char>, Value>) -> Read<
    Map<Seq<char>, Value>,
>
    decreases depth, 1int, ts.len(),
{
    let key = token_value(ts, depth);
    match key.result {
        Err(e) => Read { result: Err(e), rest: key.rest },
        Ok(Value::String(name)) => {
            let k = key.rest;
            if k.len() == 0 {
                Read { result: Err(ParseError::UnexpectedEndOfInput), rest: k }
            } else if !(k[0] is Colon) {
                Read { result: Err(ParseError::UnexpectedCharacter), rest: k.drop_first() }
            } else {
                let member = token_value(k.drop_first(), depth);
                match member.result {
                    Err(e) => Read { result: Err(e), rest: member.rest },
                    Ok(v) => {
                        let r = member.rest;
                        if r.len() == 0 {
                            Read { result: Err(ParseError::UnexpectedEndOfInput), rest: r }
                        } else if r[0] is EndObject {
                            Read { result: Ok(map.insert(name, v)), rest: r.drop_first() }
                        } else if r[0] is Comma && r.len() <= ts.len() {
                            token_members(r.drop_first(), depth, map.insert(name, v))
                        } else {
                            Read {
                                result: Err(ParseError::UnexpectedCharacter),
                                rest: r.drop_first(),
                            }
                        }
                    },
                }
            }
        },
        Ok(_) => Read { result: Err(ParseError::InvalidObjectKey), rest: key.rest },
    }
}

} // verus!
