//! The two descriptions of the grammar agree: reading a value from
//! characters gives what reading it from their tokens gives. So whitespace
//! between tokens, which leaves the tokens as they are, changes nothing.

use crate::consumption::{
    is_rest_of, lemma_expect, lemma_number, lemma_rest_of_rest, lemma_skip_is_rest,
    lemma_skip_whitespace, lemma_string_body, lemma_value,
};
use crate::grammar::{
    array, elements, expect, is_whitespace, members, object, skip_whitespace, value,
};
use crate::number::is_digit;
use crate::tokens::{
    next_token, token_array, token_elements, token_members, token_object, token_value, tokens,
    Token,
};
use crate::value::Value;
use vstd::prelude::*;

verus! {

/// Where no whitespace stands at the start, none is skipped.
pub proof fn lemma_skip_whitespace_again(s: Seq<char>)
    ensures
        skip_whitespace(skip_whitespace(s)) == skip_whitespace(s),
{
    lemma_skip_whitespace(s);
}

/// Whitespace in front of the input is skipped together with the
/// whitespace that the input starts with.
pub proof fn lemma_skip_leading_whitespace(ws: Seq<char>, s: Seq<char>)
    requires
        forall|i: int| 0 <= i < ws.len() ==> is_whitespace(#[trigger] ws[i]),
    ensures
        skip_whitespace(ws + s) == skip_whitespace(s),
    decreases ws.len(),
{
    if ws.len() == 0 {
        assert(ws + s =~= s);
    } else {
        assert((ws + s)[0] == ws[0]);
        assert((ws + s).drop_first() =~= ws.drop_first() + s);
        assert forall|i: int| 0 <= i < ws.drop_first().len() implies is_whitespace(
            #[trigger] ws.drop_first()[i],
        ) by {
            assert(ws.drop_first()[i] == ws[i + 1]);
        }
        lemma_skip_leading_whitespace(ws.drop_first(), s);
    }
}

/// A token takes at least one character, and what it leaves is a rest.
pub proof fn lemma_next_token(t: Seq<char>)
    requires
        t.len() > 0,
    ensures
        is_rest_of(next_token(t).rest, t),
        next_token(t).rest.len() < t.len(),
{
    let c = t[0];
    let r = t.drop_first();
    lemma_skip_is_rest(t, 1);
    assert(r.skip(0) =~= r);
    if c == '"' {
        lemma_string_body(r, Seq::empty());
    } else if c == 'n' {
        lemma_expect(r, seq!['u', 'l', 'l']);
    } else if c == 't' {
        lemma_expect(r, seq!['r', 'u', 'e']);
    } else if c == 'f' {
        lemma_expect(r, seq!['a', 'l', 's', 'e']);
    } else if is_digit(c) || c == '-' {
        lemma_number(c, r);
    }
    lemma_rest_of_rest(next_token(t).rest, r, t);
}

/// The tokens of an input are its first token and the tokens of what that
/// token leaves; after an invalid token there are none.
pub proof fn lemma_tokens_unfold(s: Seq<char>)
    ensures
        skip_whitespace(s).len() == 0 ==> tokens(s) == Seq::<Token>::empty(),
        skip_whitespace(s).len() > 0 ==> {
            let lexed = next_token(skip_whitespace(s));
            &&& tokens(s).len() > 0
            &&& tokens(s)[0] == lexed.token
            &&& lexed.rest.len() < skip_whitespace(s).len()
            &&& lexed.token is Invalid ==> tokens(s) == seq![lexed.token]
            &&& !(lexed.token is Invalid) ==> tokens(s).drop_first() == tokens(lexed.rest)
        },
        tokens(skip_whitespace(s)) == tokens(s),
{
    let t = skip_whitespace(s);
    lemma_skip_whitespace(s);
    lemma_skip_whitespace_again(s);
    if t.len() > 0 {
        lemma_next_token(t);
        let lexed = next_token(t);
        if !(lexed.token is Invalid) {
            assert((seq![lexed.token] + tokens(lexed.rest)).drop_first() =~= tokens(lexed.rest));
        }
    }
}

/// Reading from tokens moves forward only, and a value takes at least one token.
pub proof fn lemma_token_value(ts: Seq<Token>, depth: nat)
    ensures
        token_value(ts, depth).rest.len() <= ts.len(),
        token_value(ts, depth).result is Ok ==> token_value(ts, depth).rest.len() < ts.len(),
    decreases depth, 0int, ts.len(),
{
    if ts.len() > 0 && depth > 0 {
        let r = ts.drop_first();
        if ts[0] is BeginObject {
            if !(r.len() > 0 && r[0] is EndObject) {
                lemma_token_members(r, (depth - 1) as nat, Map::empty());
            }
        } else if ts[0] is BeginArray {
            if !(r.len() > 0 && r[0] is EndArray) {
                lemma_token_elements(r, (depth - 1) as nat, Seq::empty());
            }
        }
    }
}

/// Reading elements from tokens moves forward only.
pub proof fn lemma_token_elements(ts: Seq<Token>, depth: nat, items: Seq<Value>)
    ensures
        token_elements(ts, depth, items).rest.len() <= ts.len(),
    decreases depth, 1int, ts.len(),
{
    lemma_token_value(ts, depth);
    let element = token_value(ts, depth);
    if let Ok(v) = element.result {
        let r = element.rest;
        if r.len() > 0 && r[0] is Comma {
            lemma_token_elements(r.drop_first(), depth, items.push(v));
        }
    }
}

/// Reading members from tokens moves forward only.
pub proof fn lemma_token_members(ts: Seq<Token>, depth: nat, map: Map<Seq<char>, Value>)
    ensures
        token_members(ts, depth, map).rest.len() <= ts.len(),
    decreases depth, 1int, ts.len(),
{
    lemma_token_value(ts, depth);
    let key = token_value(ts, depth);
    if let Ok(Value::String(name)) = key.result {
        let k = key.rest;
        if k.len() > 0 && k[0] is Colon {
            lemma_token_value(k.drop_first(), depth);
            let member = token_value(k.drop_first(), depth);
            if let Ok(v) = member.result {
                let r = member.rest;
                if r.len() > 0 && r[0] is Comma {
                    lemma_token_members(r.drop_first(), depth, map.insert(name, v));
                }
            }
        }
    }
}

/// Reading a value from characters gives what reading it from their tokens
/// gives, and after a value the tokens left are the tokens of the characters
/// left.
pub proof fn lemma_value_layers(s: Seq<char>, depth: nat)
    ensures
        token_value(tokens(s), depth).result == value(s, depth).result,
        value(s, depth).result is Ok ==> token_value(tokens(s), depth).rest == tokens(
            value(s, depth).rest,
        ),
    decreases depth, 0int, s.len(),
{
    let t = skip_whitespace(s);
    lemma_tokens_unfold(s);
    lemma_skip_whitespace(s);
    if t.len() > 0 {
        let c = t[0];
        let r = t.drop_first();
        if c == '{' {
            if depth > 0 {
                lemma_object_layers(r, (depth - 1) as nat);
            }
        } else if c == '[' {
            if depth > 0 {
                lemma_array_layers(r, (depth - 1) as nat);
            }
        }
    }
}

/// Reading an array from characters gives what reading it from their tokens gives.
pub proof fn lemma_array_layers(s: Seq<char>, depth: nat)
    ensures
        token_array(tokens(s), depth).result == array(s, depth).result,
        array(s, depth).result is Ok ==> token_array(tokens(s), depth).rest == tokens(
            array(s, depth).rest,
        ),
    decreases depth, 2int, s.len(),
{
    let t = skip_whitespace(s);
    lemma_tokens_unfold(s);
    lemma_skip_whitespace(s);
    if !(t.len() > 0 && t[0] == ']') {
        lemma_elements_layers(t, depth, Seq::empty());
    }
}

/// Reading elements from characters gives what reading them from their tokens gives.
pub proof fn lemma_elements_layers(s: Seq<char>, depth: nat, items: Seq<Value>)
    ensures
        token_elements(tokens(s), depth, items).result == elements(s, depth, items).result,
        elements(s, depth, items).result is Ok ==> token_elements(tokens(s), depth, items).rest
            == tokens(elements(s, depth, items).rest),
    decreases depth, 1int, s.len(),
{
    lemma_value_layers(s, depth);
    lemma_value(s, depth);
    lemma_token_value(tokens(s), depth);
    let element = value(s, depth);
    if let Ok(v) = element.result {
        let t = skip_whitespace(element.rest);
        lemma_tokens_unfold(element.rest);
        lemma_skip_whitespace(element.rest);
        if t.len() > 0 && t[0] == ',' {
            lemma_elements_layers(t.drop_first(), depth, items.push(v));
        }
    }
}

/// Reading an object from characters gives what reading it from their tokens gives.
pub proof fn lemma_object_layers(s: Seq<char>, depth: nat)
    ensures
        token_object(tokens(s), depth).result == object(s, depth).result,
        object(s, depth).result is Ok ==> token_object(tokens(s), depth).rest == tokens(
            object(s, depth).rest,
        ),
    decreases depth, 2int, s.len(),
{
    let t = skip_whitespace(s);
    lemma_tokens_unfold(s);
    lemma_skip_whitespace(s);
    if !(t.len() > 0 && t[0] == '}') {
        lemma_members_layers(t, depth, Map::empty());
    }
}

/// Reading members from characters gives what reading them from their tokens gives.
pub proof fn lemma_members_layers(s: Seq<char>, depth: nat, map: Map<Seq<char>, Value>)
    ensures
        token_members(tokens(s), depth, map).result == members(s, depth, map).result,
        members(s, depth, map).result is Ok ==> token_members(tokens(s), depth, map).rest
            == tokens(members(s, depth, map).rest),
    decreases depth, 1int, s.len(),
{
    lemma_value_layers(s, depth);
    lemma_value(s, depth);
    lemma_token_value(tokens(s), depth);
    let key = value(s, depth);
    if let Ok(Value::String(name)) = key.result {
        let k = skip_whitespace(key.rest);
        lemma_tokens_unfold(key.rest);
        lemma_skip_whitespace(key.rest);
        let colon = expect(k, seq![':']);
        lemma_expect(k, seq![':']);
        if k.len() > 0 && k[0] == ':' {
            assert(expect(k.drop_first(), seq![':'].drop_first()).result is Ok);
            assert(colon.rest == k.drop_first());
            lemma_value_layers(colon.rest, depth);
            lemma_value(colon.rest, depth);
            lemma_token_value(tokens(colon.rest), depth);
            let member = value(colon.rest, depth);
            if let Ok(v) = member.result {
                let t = skip_whitespace(member.rest);
                lemma_tokens_unfold(member.rest);
                lemma_skip_whitespace(member.rest);
                if t.len() > 0 && t[0] == ',' {
                    lemma_members_layers(t.drop_first(), depth, map.insert(name, v));
                }
            }
        }
    }
}

/// Inputs with the same tokens are read alike: the same value comes out, or
/// the same error. Two inputs that differ only in how much whitespace, and
/// of which kind, stands between their tokens have the same tokens.
pub proof fn lemma_same_tokens_same_value(a: Seq<char>, b: Seq<char>, depth: nat)
    requires
        tokens(a) == tokens(b),
    ensures
        value(a, depth).result == value(b, depth).result,
{
    lemma_value_layers(a, depth);
    lemma_value_layers(b, depth);
}

/// Whitespace in front of a value changes neither what is read nor what is left.
pub proof fn lemma_leading_whitespace(ws: Seq<char>, s: Seq<char>, depth: nat)
    requires
        forall|i: int| 0 <= i < ws.len() ==> is_whitespace(#[trigger] ws[i]),
    ensures
        value(ws + s, depth) == value(s, depth),
        tokens(ws + s) == tokens(s),
{
    lemma_skip_leading_whitespace(ws, s);
    lemma_tokens_unfold(ws + s);
    lemma_tokens_unfold(s);
}

} // verus!
