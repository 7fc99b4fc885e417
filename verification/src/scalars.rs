//! What holds of the values that are no containers: the three literals are
//! read as what they name, a number as its spelling, and a string as its
//! characters, in which an escape names a scalar value or the replacement
//! character.

use crate::consumption::{lemma_expect, lemma_number_run_through};
use crate::grammar::{
    accept, escaped_char, hex_code, is_number_char, replacement, string_body, value,
};
use crate::number::{is_decimal, is_digit};
use crate::std_contracts::is_scalar_value;
use crate::value::Value;
use vstd::prelude::*;

verus! {

/// `null` is read as the null value, and what follows it is left.
pub proof fn lemma_null(rest: Seq<char>, depth: nat)
    ensures
        value(seq!['n', 'u', 'l', 'l'] + rest, depth) == accept(Value::Null, rest),
{
    let s = seq!['n', 'u', 'l', 'l'] + rest;
    let tail = seq!['u', 'l', 'l'];
    assert(s[0] == 'n');
    assert(tail =~= s.drop_first().subrange(0, 3));
    lemma_expect(s.drop_first(), tail);
    assert(s.drop_first().skip(3) =~= rest);
}

/// `true` is read as the truth value true, and what follows it is left.
pub proof fn lemma_true(rest: Seq<char>, depth: nat)
    ensures
        value(seq!['t', 'r', 'u', 'e'] + rest, depth) == accept(Value::Bool(true), rest),
{
    let s = seq!['t', 'r', 'u', 'e'] + rest;
    let tail = seq!['r', 'u', 'e'];
    assert(s[0] == 't');
    assert(tail =~= s.drop_first().subrange(0, 3));
    lemma_expect(s.drop_first(), tail);
    assert(s.drop_first().skip(3) =~= rest);
}

/// `false` is read as the truth value false, and what follows it is left.
pub proof fn lemma_false(rest: Seq<char>, depth: nat)
    ensures
        value(seq!['f', 'a', 'l', 's', 'e'] + rest, depth) == accept(Value::Bool(false), rest),
{
    let s = seq!['f', 'a', 'l', 's', 'e'] + rest;
    let tail = seq!['a', 'l', 's', 'e'];
    assert(s[0] == 'f');
    assert(tail =~= s.drop_first().subrange(0, 4));
    lemma_expect(s.drop_first(), tail);
    assert(s.drop_first().skip(4) =~= rest);
}

/// A decimal that starts with a digit or a minus sign and is followed by
/// no number character is read as the number with that spelling, and what
/// follows it is left.
pub proof fn lemma_decimal(text: Seq<char>, rest: Seq<char>, depth: nat)
    requires
        is_decimal(text),
        text.len() > 0,
        is_digit(text[0]) || text[0] == '-',
        forall|i: int| 0 < i < text.len() ==> is_number_char(#[trigger] text[i]),
        rest.len() == 0 || !is_number_char(rest[0]),
    ensures
        value(text + rest, depth) == accept(Value::Number(text), rest),
{
    let s = text + rest;
    let tail = text.drop_first();
    assert(s[0] == text[0]);
    assert(s.drop_first() =~= tail + rest);
    assert forall|i: int| 0 <= i < tail.len() implies is_number_char(#[trigger] tail[i]) by {
        assert(tail[i] == text[i + 1]);
    }
    lemma_number_run_through(tail, rest);
    assert((tail + rest).take(tail.len() as int) =~= tail);
    assert((tail + rest).skip(tail.len() as int) =~= rest);
    assert(seq![text[0]] + tail =~= text);
}

/// Neither a quote nor a backslash occurs in `text`.
pub open spec fn is_plain(text: Seq<char>) -> bool {
    forall|i: int| 0 <= i < text.len() ==> #[trigger] text[i] != '"' && text[i] != '\\'
}

/// Plain characters up to a quote are appended to the string as they are.
pub proof fn lemma_plain_string_body(text: Seq<char>, rest: Seq<char>, read: Seq<char>)
    requires
        is_plain(text),
    ensures
        string_body(text + seq!['"'] + rest, read) == accept(read + text, rest),
    decreases text.len(),
{
    let s = text + seq!['"'] + rest;
    if text.len() == 0 {
        assert(s[0] == '"');
        assert(s.drop_first() =~= rest);
        assert(read + text =~= read);
    } else {
        assert(s[0] == text[0]);
        let tail = text.drop_first();
        assert(is_plain(tail)) by {
            assert forall|i: int| 0 <= i < tail.len() implies #[trigger] tail[i] != '"' && tail[i]
                != '\\' by {
                assert(tail[i] == text[i + 1]);
            }
        }
        assert(s.drop_first() =~= tail + seq!['"'] + rest);
        lemma_plain_string_body(tail, rest, read.push(text[0]));
        assert(read.push(text[0]) + tail =~= read + text);
    }
}

/// A quoted string of plain characters, of whatever script, is read as
/// exactly these characters, and what follows the closing quote is left.
pub proof fn lemma_plain_string(text: Seq<char>, rest: Seq<char>, depth: nat)
    requires
        is_plain(text),
    ensures
        value(seq!['"'] + text + seq!['"'] + rest, depth) == accept(Value::String(text), rest),
{
    let s = seq!['"'] + text + seq!['"'] + rest;
    assert(s[0] == '"');
    assert(s.drop_first() =~= text + seq!['"'] + rest);
    lemma_plain_string_body(text, rest, Seq::empty());
    assert(Seq::<char>::empty() + text =~= text);
}

/// Four hexadecimal digits that spell a scalar value name the character
/// with that code; those that spell half of a surrogate pair name the
/// replacement character.
pub proof fn lemma_escaped_char(digits: Seq<char>)
    requires
        hex_code(digits) is Some,
    ensures
        0 <= hex_code(digits)->0 <= 0xFFFF,
        is_scalar_value(hex_code(digits)->0 as u32) ==> escaped_char(digits) as int == hex_code(
            digits,
        )->0,
        0xD800 <= hex_code(digits)->0 <= 0xDFFF ==> escaped_char(digits) == replacement(),
{
}

} // verus!
