//! Reading moves forward only: what is left after a reading is an end piece
//! of what was there before, and a value that was read took at least one
//! character.

use crate::grammar::{
    array, elements, escape_len, escaped_char, expect, is_number_char, is_whitespace, members,
    number, number_run, object, simple_escape, skip_whitespace, string_body, value,
};
use crate::number::is_digit;
use crate::value::Value;
use vstd::prelude::*;

verus! {

/// `rest` is what remains of `s` after some of its first elements are taken away.
pub open spec fn is_rest_of(rest: Seq<char>, s: Seq<char>) -> bool {
    rest.len() <= s.len() && rest == s.skip(s.len() - rest.len())
}

/// A rest of a rest is a rest.
pub proof fn lemma_rest_of_rest(a: Seq<char>, b: Seq<char>, c: Seq<char>)
    requires
        is_rest_of(a, b),
        is_rest_of(b, c),
    ensures
        is_rest_of(a, c),
{
    assert(c.skip(c.len() - b.len()).skip(b.len() - a.len()) =~= c.skip(c.len() - a.len()));
}

/// What is left after dropping `n` elements is a rest.
pub proof fn lemma_skip_is_rest(s: Seq<char>, n: int)
    requires
        0 <= n <= s.len(),
    ensures
        is_rest_of(s.skip(n), s),
{
}

/// Skipping whitespace leaves a rest that does not start with whitespace,
/// and only whitespace is taken away.
pub proof fn lemma_skip_whitespace(s: Seq<char>)
    ensures
        is_rest_of(skip_whitespace(s), s),
        skip_whitespace(s).len() > 0 ==> !is_whitespace(skip_whitespace(s)[0]),
        forall|i: int|
            0 <= i < s.len() - skip_whitespace(s).len() ==> is_whitespace(#[trigger] s[i]),
    decreases s.len(),
{
    if s.len() > 0 && is_whitespace(s[0]) {
        let t = s.drop_first();
        lemma_skip_whitespace(t);
        lemma_skip_is_rest(s, 1);
        lemma_rest_of_rest(skip_whitespace(t), t, s);
        assert forall|i: int| 0 <= i < s.len() - skip_whitespace(s).len() implies is_whitespace(
            #[trigger] s[i],
        ) by {
            if i > 0 {
                assert(t[i - 1] == s[i]);
            }
        }
    } else {
        assert(s.skip(0) =~= s);
    }
}

/// Expecting characters succeeds exactly where `s` starts with them, and then
/// takes exactly them away.
pub proof fn lemma_expect(s: Seq<char>, expected: Seq<char>)
    ensures
        is_rest_of(expect(s, expected).rest, s),
        expect(s, expected).result is Ok <==> expected.is_prefix_of(s),
        expect(s, expected).result is Ok ==> expect(s, expected).rest == s.skip(
            expected.len() as int,
        ),
    decreases expected.len(),
{
    if expected.len() == 0 {
        assert(s.skip(0) =~= s);
        assert(expected =~= s.subrange(0, 0));
    } else if s.len() == 0 {
        assert(s.skip(0) =~= s);
    } else if s[0] != expected[0] {
        lemma_skip_is_rest(s, 1);
        if expected.is_prefix_of(s) {
            assert(s.subrange(0, expected.len() as int)[0] == expected[0]);
        }
    } else {
        let s1 = s.drop_first();
        let e1 = expected.drop_first();
        lemma_expect(s1, e1);
        lemma_skip_is_rest(s, 1);
        lemma_rest_of_rest(expect(s1, e1).rest, s1, s);
        if e1.is_prefix_of(s1) {
            assert(expected =~= s.subrange(0, expected.len() as int)) by {
                assert forall|i: int| 0 <= i < expected.len() implies expected[i] == s[i] by {
                    if i > 0 {
                        assert(e1[i - 1] == s1.subrange(0, e1.len() as int)[i - 1]);
                    }
                }
            }
            assert(s1.skip(e1.len() as int) =~= s.skip(expected.len() as int));
        }
        if expected.is_prefix_of(s) {
            assert(e1 =~= s1.subrange(0, e1.len() as int)) by {
                assert forall|i: int| 0 <= i < e1.len() implies e1[i] == s1[i] by {
                    assert(expected[i + 1] == s.subrange(0, expected.len() as int)[i + 1]);
                }
            }
        }
    }
}

/// Reading the inside of a string leaves a rest, a shorter one on success.
pub proof fn lemma_string_body(s: Seq<char>, text: Seq<char>)
    ensures
        is_rest_of(string_body(s, text).rest, s),
        string_body(s, text).result is Ok ==> string_body(s, text).rest.len() < s.len(),
    decreases s.len(),
{
    if s.len() == 0 {
        assert(s.skip(0) =~= s);
    } else if s[0] == '"' {
        lemma_skip_is_rest(s, 1);
    } else if s[0] != '\\' {
        lemma_string_body(s.drop_first(), text.push(s[0]));
        lemma_skip_is_rest(s, 1);
        lemma_rest_of_rest(string_body(s, text).rest, s.drop_first(), s);
    } else if s.len() == 1 {
        lemma_skip_is_rest(s, 1);
    } else if s[1] == 'u' {
        let digits = s.skip(2);
        let n = escape_len(digits);
        lemma_string_body(digits.skip(n), text.push(escaped_char(digits.take(n))));
        assert(digits.skip(n) =~= s.skip(2 + n));
        lemma_skip_is_rest(s, 2 + n);
        lemma_rest_of_rest(string_body(s, text).rest, s.skip(2 + n), s);
    } else {
        lemma_skip_is_rest(s, 2);
        match simple_escape(s[1]) {
            Some(c) => {
                lemma_string_body(s.skip(2), text.push(c));
                lemma_rest_of_rest(string_body(s, text).rest, s.skip(2), s);
            },
            None => {},
        }
    }
}

/// The run of number characters is a prefix of number characters, and the
/// element after it, if there is one, is none.
pub proof fn lemma_number_run(s: Seq<char>)
    ensures
        number_run(s) <= s.len(),
        forall|i: int| 0 <= i < number_run(s) ==> is_number_char(#[trigger] s[i]),
        number_run(s) < s.len() ==> !is_number_char(s[number_run(s) as int]),
    decreases s.len(),
{
    if s.len() > 0 && is_number_char(s[0]) {
        let t = s.drop_first();
        lemma_number_run(t);
        assert forall|i: int| 0 <= i < number_run(s) implies is_number_char(#[trigger] s[i]) by {
            if i > 0 {
                assert(t[i - 1] == s[i]);
            }
        }
        if number_run(s) < s.len() {
            assert(t[number_run(t) as int] == s[number_run(s) as int]);
        }
    }
}

/// The run of number characters goes through a prefix of number characters.
pub proof fn lemma_number_run_through(p: Seq<char>, y: Seq<char>)
    requires
        forall|i: int| 0 <= i < p.len() ==> is_number_char(#[trigger] p[i]),
    ensures
        number_run(p + y) == p.len() + number_run(y),
    decreases p.len(),
{
    if p.len() == 0 {
        assert(p + y =~= y);
    } else {
        assert((p + y)[0] == p[0]);
        assert((p + y).drop_first() =~= p.drop_first() + y);
        assert forall|i: int| 0 <= i < p.drop_first().len() implies is_number_char(
            #[trigger] p.drop_first()[i],
        ) by {
            assert(p.drop_first()[i] == p[i + 1]);
        }
        lemma_number_run_through(p.drop_first(), y);
    }
}

/// Reading a number leaves a rest.
pub proof fn lemma_number(first: char, s: Seq<char>)
    ensures
        is_rest_of(number(first, s).rest, s),
{
    lemma_number_run(s);
    lemma_skip_is_rest(s, number_run(s) as int);
}

/// Reading a value leaves a rest, a shorter one on success.
pub proof fn lemma_value(s: Seq<char>, depth: nat)
    ensures
        is_rest_of(value(s, depth).rest, s),
        value(s, depth).result is Ok ==> value(s, depth).rest.len() < s.len(),
    decreases depth, 0int, s.len(),
{
    let t = skip_whitespace(s);
    lemma_skip_whitespace(s);
    if t.len() > 0 {
        let c = t[0];
        let r = t.drop_first();
        lemma_skip_is_rest(t, 1);
        lemma_rest_of_rest(r, t, s);
        if c == '{' {
            if depth > 0 {
                lemma_object(r, (depth - 1) as nat);
            }
        } else if c == '[' {
            if depth > 0 {
                lemma_array(r, (depth - 1) as nat);
            }
        } else if c == '"' {
            lemma_string_body(r, Seq::empty());
        } else if c == 'n' {
            lemma_expect(r, seq!['u', 'l', 'l']);
        } else if c == 't' {
            lemma_expect(r, seq!['r', 'u', 'e']);
        } else if c == 'f' {
            lemma_expect(r, seq!['a', 'l', 's', 'e']);
        } else if is_digit(c) || c == '-' {
            lemma_number(c, r);
        }
        assert(r.skip(0) =~= r);
        lemma_rest_of_rest(value(s, depth).rest, r, s);
    }
}

/// Reading an array leaves a rest, a shorter one on success.
pub proof fn lemma_array(s: Seq<char>, depth: nat)
    ensures
        is_rest_of(array(s, depth).rest, s),
        array(s, depth).result is Ok ==> array(s, depth).rest.len() < s.len(),
    decreases depth, 2int, s.len(),
{
    let t = skip_whitespace(s);
    lemma_skip_whitespace(s);
    if t.len() > 0 && t[0] == ']' {
        lemma_skip_is_rest(t, 1);
        lemma_rest_of_rest(t.drop_first(), t, s);
    } else {
        lemma_elements(t, depth, Seq::empty());
        lemma_rest_of_rest(elements(t, depth, Seq::empty()).rest, t, s);
    }
}

/// Reading the elements of an array leaves a rest, a shorter one on success.
pub proof fn lemma_elements(s: Seq<char>, depth: nat, items: Seq<Value>)
    ensures
        is_rest_of(elements(s, depth, items).rest, s),
        elements(s, depth, items).result is Ok ==> elements(s, depth, items).rest.len() < s.len(),
    decreases depth, 1int, s.len(),
{
    let element = value(s, depth);
    lemma_value(s, depth);
    if let Ok(v) = element.result {
        let t = skip_whitespace(element.rest);
        lemma_skip_whitespace(element.rest);
        lemma_rest_of_rest(t, element.rest, s);
        if t.len() > 0 {
            lemma_skip_is_rest(t, 1);
            lemma_rest_of_rest(t.drop_first(), t, s);
            if t[0] == ',' {
                lemma_elements(t.drop_first(), depth, items.push(v));
                lemma_rest_of_rest(elements(s, depth, items).rest, t.drop_first(), s);
            }
        }
    }
}

/// Reading an object leaves a rest, a shorter one on success.
pub proof fn lemma_object(s: Seq<char>, depth: nat)
    ensures
        is_rest_of(object(s, depth).rest, s),
        object(s, depth).result is Ok ==> object(s, depth).rest.len() < s.len(),
    decreases depth, 2int, s.len(),
{
    let t = skip_whitespace(s);
    lemma_skip_whitespace(s);
    if t.len() > 0 && t[0] == '}' {
        lemma_skip_is_rest(t, 1);
        lemma_rest_of_rest(t.drop_first(), t, s);
    } else {
        lemma_members(t, depth, Map::empty());
        lemma_rest_of_rest(members(t, depth, Map::empty()).rest, t, s);
    }
}

/// Reading the members of an object leaves a rest, a shorter one on success.
pub proof fn lemma_members(s: Seq<char>, depth: nat, map: Map<Seq<char>, Value>)
    ensures
        is_rest_of(members(s, depth, map).rest, s),
        members(s, depth, map).result is Ok ==> members(s, depth, map).rest.len() < s.len(),
    decreases depth, 1int, s.len(),
{
    let key = value(s, depth);
    lemma_value(s, depth);
    if let Ok(Value::String(name)) = key.result {
        let k = skip_whitespace(key.rest);
        lemma_skip_whitespace(key.rest);
        lemma_rest_of_rest(k, key.rest, s);
        let colon = expect(k, seq![':']);
        lemma_expect(k, seq![':']);
        lemma_rest_of_rest(colon.rest, k, s);
        if colon.result is Ok {
            let member = value(colon.rest, depth);
            lemma_value(colon.rest, depth);
            lemma_rest_of_rest(member.rest, colon.rest, s);
            if let Ok(v) = member.result {
                let t = skip_whitespace(member.rest);
                lemma_skip_whitespace(member.rest);
                lemma_rest_of_rest(t, member.rest, s);
                if t.len() > 0 {
                    lemma_skip_is_rest(t, 1);
                    lemma_rest_of_rest(t.drop_first(), t, s);
                    if t[0] == ',' {
                        lemma_members(t.drop_first(), depth, map.insert(name, v));
                        lemma_rest_of_rest(members(s, depth, map).rest, t.drop_first(), s);
                    }
                }
            }
        }
    }
}

} // verus!
