//! Whitespace between tokens: where it may stand, and that putting it there
//! leaves the tokens, and with them the value, as they are.

use crate::consumption::{
    lemma_expect, lemma_number_run, lemma_number_run_through, lemma_skip_whitespace,
    lemma_string_body,
};
use crate::grammar::{
    accept, escape_len, escaped_char, expect, is_number_char, is_whitespace, number, number_run,
    simple_escape, skip_whitespace, string_body, value,
};
use crate::layers::{
    lemma_next_token, lemma_same_tokens_same_value, lemma_skip_leading_whitespace,
    lemma_tokens_unfold,
};
use crate::number::is_digit;
use crate::tokens::{next_token, tokens, Lexed};
use vstd::prelude::*;

verus! {

/// Every element is whitespace.
pub open spec fn all_whitespace(ws: Seq<char>) -> bool {
    forall|i: int| 0 <= i < ws.len() ==> is_whitespace(#[trigger] ws[i])
}

/// The place `k` of `s` lies between tokens: in or next to the whitespace
/// before the first token, or, behind the first token, between the tokens
/// of what that token leaves.
pub open spec fn between_tokens(s: Seq<char>, k: int) -> bool
    decreases s.len(),
{
    let t = skip_whitespace(s);
    if k < 0 || k > s.len() {
        false
    } else if k <= s.len() - t.len() {
        true
    } else if t.len() == 0 || next_token(t).token is Invalid {
        false
    } else {
        let rest = next_token(t).rest;
        rest.len() < s.len() && k >= s.len() - rest.len() && between_tokens(
            rest,
            k - (s.len() - rest.len()),
        )
    }
}

/// `s` with `ws` put in at the place `k`.
pub open spec fn insert_at(s: Seq<char>, k: int, ws: Seq<char>) -> Seq<char> {
    s.take(k) + ws + s.skip(k)
}

/// Expected characters are read alike whatever follows them.
proof fn lemma_expect_local(s: Seq<char>, expected: Seq<char>, y: Seq<char>)
    requires
        expect(s, expected).result is Ok,
    ensures
        expect(s.take(expected.len() as int) + y, expected).result is Ok,
        expect(s.take(expected.len() as int) + y, expected).rest == y,
{
    let n = expected.len() as int;
    lemma_expect(s, expected);
    let s2 = s.take(n) + y;
    assert(expected =~= s2.subrange(0, n));
    lemma_expect(s2, expected);
    assert(s2.skip(n) =~= y);
}

/// A string is read alike whatever follows its closing quote.
proof fn lemma_string_body_local(s: Seq<char>, text: Seq<char>, y: Seq<char>)
    requires
        string_body(s, text).result is Ok,
    ensures
        string_body(s, text).rest.len() < s.len(),
        string_body(s.take(s.len() - string_body(s, text).rest.len()) + y, text) == accept(
            string_body(s, text).result->Ok_0,
            y,
        ),
    decreases s.len(),
{
    lemma_string_body(s, text);
    let n = s.len() - string_body(s, text).rest.len();
    let s2 = s.take(n) + y;
    if s[0] == '"' {
        assert(s2.drop_first() =~= y);
    } else if s[0] != '\\' {
        let s1 = s.drop_first();
        lemma_string_body_local(s1, text.push(s[0]), y);
        assert(s2.drop_first() =~= s1.take(n - 1) + y);
    } else if s[1] == 'u' {
        let digits = s.skip(2);
        let m = escape_len(digits);
        let s3 = digits.skip(m);
        let named = text.push(escaped_char(digits.take(m)));
        lemma_string_body_local(s3, named, y);
        let n3 = s3.len() - string_body(s3, named).rest.len();
        assert(m == 4);
        assert(n == 6 + n3);
        let digits2 = s2.skip(2);
        assert(digits2 =~= digits.take(4 + n3) + y);
        assert(digits2.take(4) =~= digits.take(4));
        assert(digits2.skip(4) =~= s3.take(n3) + y);
    } else {
        match simple_escape(s[1]) {
            Some(c) => {
                let s3 = s.skip(2);
                lemma_string_body_local(s3, text.push(c), y);
                assert(s2.skip(2) =~= s3.take(n - 2) + y);
            },
            None => {},
        }
    }
}

/// A number is read alike whatever follows it, unless a number character
/// follows.
proof fn lemma_number_local(first: char, s: Seq<char>, y: Seq<char>)
    requires
        y.len() == 0 || !is_number_char(y[0]),
    ensures
        number_run(s) <= s.len(),
        number(first, s.take(number_run(s) as int) + y).result == number(first, s).result,
        number(first, s.take(number_run(s) as int) + y).rest == y,
{
    let n = number_run(s) as int;
    lemma_number_run(s);
    let p = s.take(n);
    assert forall|i: int| 0 <= i < p.len() implies is_number_char(#[trigger] p[i]) by {
        assert(p[i] == s[i]);
    }
    lemma_number_run_through(p, y);
    assert((p + y).take(n) =~= p);
    assert((p + y).skip(n) =~= y);
}

/// A token is read alike whatever follows it, unless it is a number and a
/// number character follows.
proof fn lemma_next_token_local(t: Seq<char>, y: Seq<char>)
    requires
        t.len() > 0,
        !(next_token(t).token is Invalid),
        next_token(t).token is Number ==> y.len() == 0 || !is_number_char(y[0]),
    ensures
        next_token(t).rest.len() < t.len(),
        next_token(t.take(t.len() - next_token(t).rest.len()) + y) == (Lexed {
            token: next_token(t).token,
            rest: y,
        }),
{
    lemma_next_token(t);
    let c = t[0];
    let r = t.drop_first();
    let n = t.len() - next_token(t).rest.len();
    let t2 = t.take(n) + y;
    let r2 = t2.drop_first();
    assert(t2[0] == c);
    assert(r2 =~= r.take(n - 1) + y);
    if c == '"' {
        lemma_string_body_local(r, Seq::empty(), y);
    } else if c == 'n' {
        lemma_expect(r, seq!['u', 'l', 'l']);
        lemma_expect_local(r, seq!['u', 'l', 'l'], y);
    } else if c == 't' {
        lemma_expect(r, seq!['r', 'u', 'e']);
        lemma_expect_local(r, seq!['r', 'u', 'e'], y);
    } else if c == 'f' {
        lemma_expect(r, seq!['a', 'l', 's', 'e']);
        lemma_expect_local(r, seq!['a', 'l', 's', 'e'], y);
    } else if is_digit(c) || c == '-' {
        lemma_number_run(r);
        lemma_number_local(c, r, y);
    } else {
        assert(r2 =~= y);
    }
}

/// What stands before the first token is whitespace.
proof fn lemma_leading_whitespace_is_whitespace(s: Seq<char>, k: int)
    requires
        0 <= k <= s.len() - skip_whitespace(s).len(),
    ensures
        all_whitespace(s.take(k)),
{
    lemma_skip_whitespace(s);
    assert forall|i: int| 0 <= i < s.take(k).len() implies is_whitespace(
        #[trigger] s.take(k)[i],
    ) by {
        assert(s.take(k)[i] == s[i]);
    }
}

/// Two runs of whitespace make one.
proof fn lemma_all_whitespace_concat(a: Seq<char>, b: Seq<char>)
    requires
        all_whitespace(a),
        all_whitespace(b),
    ensures
        all_whitespace(a + b),
{
    assert forall|i: int| 0 <= i < (a + b).len() implies is_whitespace(#[trigger] (a + b)[i]) by {
        if i < a.len() {
            assert((a + b)[i] == a[i]);
        } else {
            assert((a + b)[i] == b[i - a.len()]);
        }
    }
}

/// Whitespace put in before the first token is skipped with the rest.
proof fn lemma_insert_before_first_token(s: Seq<char>, k: int, ws: Seq<char>)
    requires
        0 <= k <= s.len() - skip_whitespace(s).len(),
        all_whitespace(ws),
    ensures
        skip_whitespace(insert_at(s, k, ws)) == skip_whitespace(s),
{
    let before = s.take(k);
    lemma_leading_whitespace_is_whitespace(s, k);
    lemma_all_whitespace_concat(before, ws);
    lemma_skip_leading_whitespace(before + ws, s.skip(k));
    lemma_skip_leading_whitespace(before, s.skip(k));
    assert(before + s.skip(k) =~= s);
}

/// What follows a number does not start with a number character, and it
/// still does not with whitespace put into it.
proof fn lemma_after_number(t: Seq<char>, k: int, ws: Seq<char>)
    requires
        t.len() > 0,
        next_token(t).token is Number,
        0 <= k <= next_token(t).rest.len(),
        all_whitespace(ws),
    ensures
        insert_at(next_token(t).rest, k, ws).len() == 0 || !is_number_char(
            insert_at(next_token(t).rest, k, ws)[0],
        ),
{
    let r = t.drop_first();
    let rest = next_token(t).rest;
    let rest2 = insert_at(rest, k, ws);
    lemma_number_run(r);
    assert(rest == r.skip(number_run(r) as int));
    if rest2.len() > 0 {
        if k > 0 {
            assert(rest2[0] == rest[0]);
        } else if ws.len() > 0 {
            assert(rest2[0] == ws[0]);
        } else {
            assert(rest2 =~= rest);
        }
    }
}

/// Behind leading whitespace and a first token, the tokens are that token
/// and the tokens of what follows it.
proof fn lemma_tokens_of_parts(s: Seq<char>, y: Seq<char>)
    requires
        skip_whitespace(s).len() > 0,
        !(next_token(skip_whitespace(s)).token is Invalid),
        next_token(skip_whitespace(s)).token is Number ==> y.len() == 0 || !is_number_char(y[0]),
    ensures
        next_token(skip_whitespace(s)).rest.len() < s.len(),
        tokens(
            s.take(s.len() - next_token(skip_whitespace(s)).rest.len()) + y,
        ) == seq![next_token(skip_whitespace(s)).token] + tokens(y),
{
    let t = skip_whitespace(s);
    let lead = s.len() - t.len();
    let rest = next_token(t).rest;
    let n = t.len() - rest.len();
    lemma_skip_whitespace(s);
    lemma_next_token(t);
    lemma_next_token_local(t, y);
    let t2 = t.take(n) + y;
    let s2 = s.take(s.len() - rest.len()) + y;
    assert(s2 =~= s.take(lead) + t2);
    lemma_leading_whitespace_is_whitespace(s, lead);
    lemma_skip_leading_whitespace(s.take(lead), t2);
    assert(t2[0] == t[0]);
    assert(skip_whitespace(s2) == t2);
    lemma_tokens_unfold(s2);
    assert(tokens(s2) =~= seq![next_token(t).token] + tokens(y));
}

/// Whitespace put in between tokens leaves the tokens as they are.
pub proof fn lemma_whitespace_keeps_tokens(s: Seq<char>, k: int, ws: Seq<char>)
    requires
        between_tokens(s, k),
        all_whitespace(ws),
    ensures
        tokens(insert_at(s, k, ws)) == tokens(s),
    decreases s.len(),
{
    let t = skip_whitespace(s);
    let s2 = insert_at(s, k, ws);
    if k <= s.len() - t.len() {
        lemma_insert_before_first_token(s, k, ws);
        lemma_tokens_unfold(s);
        lemma_tokens_unfold(s2);
    } else {
        let rest = next_token(t).rest;
        let end = s.len() - rest.len();
        let rest2 = insert_at(rest, k - end, ws);
        lemma_whitespace_keeps_tokens(rest, k - end, ws);
        lemma_skip_whitespace(s);
        lemma_next_token(t);
        if next_token(t).token is Number {
            lemma_after_number(t, k - end, ws);
        }
        lemma_tokens_of_parts(s, rest2);
        assert(s2 =~= s.take(end) + rest2) by {
            assert(rest == s.skip(end));
        }
        assert(tokens(s) =~= seq![next_token(t).token] + tokens(rest)) by {
            lemma_tokens_unfold(s);
        }
    }
}

/// Whitespace put in between tokens changes neither the value that is read
/// nor the error that reading fails with.
pub proof fn lemma_whitespace_keeps_value(s: Seq<char>, k: int, ws: Seq<char>, depth: nat)
    requires
        between_tokens(s, k),
        all_whitespace(ws),
    ensures
        value(insert_at(s, k, ws), depth).result == value(s, depth).result,
{
    lemma_whitespace_keeps_tokens(s, k, ws);
    lemma_same_tokens_same_value(insert_at(s, k, ws), s, depth);
}

} // verus!
