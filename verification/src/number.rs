//! The spelling of numbers.
//!
//! A number is kept by its decimal spelling, which denotes it exactly. The
//! spellings accepted are those of the grammar
//!
//! ```text
//! decimal  ::= sign? mantissa ( ('e' | 'E') sign? digit+ )?
//! mantissa ::= digit+ | digit+ '.' digit* | digit* '.' digit+
//! sign     ::= '+' | '-'
//! ```
//!
//! which is the grammar of the decimal literals that the standard library
//! converts to a binary number.

use crate::text::string_of;
use vstd::prelude::*;

verus! {

/// `0` to `9`.
pub open spec fn is_digit(c: char) -> bool {
    '0' <= c && c <= '9'
}

/// `+` or `-`.
pub open spec fn is_sign(c: char) -> bool {
    c == '+' || c == '-'
}

/// `e` or `E`, which introduces an exponent.
pub open spec fn is_exponent_mark(c: char) -> bool {
    c == 'e' || c == 'E'
}

/// Every element is a digit.
pub open spec fn all_digits(s: Seq<char>) -> bool {
    forall|i: int| 0 <= i < s.len() ==> is_digit(#[trigger] s[i])
}

/// `s` without a leading sign.
pub open spec fn unsigned(s: Seq<char>) -> Seq<char> {
    if s.len() > 0 && is_sign(s[0]) {
        s.drop_first()
    } else {
        s
    }
}

/// Digits with at most one point among them, and at least one digit.
pub open spec fn is_mantissa(s: Seq<char>) -> bool {
    ||| s.len() > 0 && all_digits(s)
    ||| exists|p: int|
        0 <= p < s.len() && s.len() > 1 && #[trigger] s[p] == '.' && all_digits(s.take(p))
            && all_digits(s.skip(p + 1))
}

/// An optional sign and at least one digit.
pub open spec fn is_exponent(s: Seq<char>) -> bool {
    unsigned(s).len() > 0 && all_digits(unsigned(s))
}

/// An optional sign and a mantissa, with or without an exponent part.
pub open spec fn is_unsigned_decimal(u: Seq<char>) -> bool {
    ||| is_mantissa(u)
    ||| exists|e: int|
        0 <= e < u.len() && is_exponent_mark(#[trigger] u[e]) && is_mantissa(u.take(e))
            && is_exponent(u.skip(e + 1))
}

/// `s` spells a decimal number.
pub open spec fn is_decimal(s: Seq<char>) -> bool {
    is_unsigned_decimal(unsigned(s))
}

/// No element of a mantissa introduces an exponent.
proof fn lemma_mantissa_has_no_mark(s: Seq<char>, i: int)
    requires
        is_mantissa(s),
        0 <= i < s.len(),
    ensures
        is_digit(s[i]) || s[i] == '.',
{
    if !(s.len() > 0 && all_digits(s)) {
        let p = choose|p: int|
            0 <= p < s.len() && s.len() > 1 && #[trigger] s[p] == '.' && all_digits(s.take(p))
                && all_digits(s.skip(p + 1));
        if i < p {
            assert(s.take(p)[i] == s[i]);
        } else if i > p {
            assert(s.skip(p + 1)[i - p - 1] == s[i]);
        }
    }
}

fn is_digit_char(c: char) -> (b: bool)
    ensures
        b == is_digit(c),
{
    c >= '0' && c <= '9'
}

/// The end of the run of digits that starts at `from`.
fn digits_end(text: &[char], from: usize, to: usize) -> (end: usize)
    requires
        from <= to <= text@.len(),
    ensures
        from <= end <= to,
        all_digits(text@.subrange(from as int, end as int)),
        end < to ==> !is_digit(text@[end as int]),
{
    let mut end = from;
    while end < to && is_digit_char(text[end])
        invariant
            from <= end <= to <= text@.len(),
            all_digits(text@.subrange(from as int, end as int)),
        decreases to - end,
    {
        end = end + 1;
        assert forall|i: int| 0 <= i < end - from implies is_digit(
            #[trigger] text@.subrange(from as int, end as int)[i],
        ) by {
            if i < end - from - 1 {
                assert(text@.subrange(from as int, end - 1)[i] == text@[from + i]);
            }
        }
    }
    end
}

/// Whether `text[from..to]` is a mantissa.
fn check_mantissa(text: &[char], from: usize, to: usize) -> (ok: bool)
    requires
        from <= to <= text@.len(),
    ensures
        ok == is_mantissa(text@.subrange(from as int, to as int)),
{
    let ghost s = text@.subrange(from as int, to as int);
    let point = digits_end(text, from, to);
    proof {
        assert(s.take(point - from) =~= text@.subrange(from as int, point as int));
    }
    if point == to {
        proof {
            assert(s =~= text@.subrange(from as int, point as int));
            if s.len() == 0 {
                assert(!is_mantissa(s));
            }
        }
        return to > from;
    }
    assert(s[point - from] == text@[point as int]);
    if text[point] != '.' {
        proof {
            if is_mantissa(s) {
                lemma_mantissa_has_no_mark(s, point - from);
            }
        }
        return false;
    }
    let end = digits_end(text, point + 1, to);
    proof {
        let dot = point - from;
        assert(s.skip(dot + 1).take(end - point - 1) =~= text@.subrange(
            point + 1,
            end as int,
        ));
        assert(!all_digits(s)) by {
            assert(!is_digit(s[dot]));
        }
        // Any point that witnesses a mantissa is the first element that is no digit.
        assert forall|p: int|
            0 <= p < s.len() && #[trigger] s[p] == '.' && all_digits(s.take(p)) implies p
            == dot by {
            if p > dot {
                assert(s.take(p)[dot] == s[dot]);
            }
            if p < dot {
                assert(s.take(dot)[p] == s[p]);
            }
        }
        if end == to {
            assert(s.skip(dot + 1) =~= text@.subrange(point + 1, end as int));
        } else {
            assert(s.skip(dot + 1)[end - point - 1] == text@[end as int]);
        }
    }
    end == to && to - from > 1
}

/// Whether `text[from..to]` is an exponent: an optional sign and digits.
fn check_exponent(text: &[char], from: usize, to: usize) -> (ok: bool)
    requires
        from <= to <= text@.len(),
    ensures
        ok == is_exponent(text@.subrange(from as int, to as int)),
{
    let ghost s = text@.subrange(from as int, to as int);
    let mut start = from;
    if start < to && (text[start] == '+' || text[start] == '-') {
        start = start + 1;
    }
    assert(unsigned(s) =~= text@.subrange(start as int, to as int));
    let end = digits_end(text, start, to);
    proof {
        if end < to {
            assert(unsigned(s)[end - start] == text@[end as int]);
        }
    }
    end == to && to > start
}

/// Whether `text` spells a decimal number.
pub fn check_decimal(text: &[char]) -> (ok: bool)
    ensures
        ok == is_decimal(text@),
{
    let n = text.len();
    let mut start: usize = 0;
    if n > 0 && (text[0] == '+' || text[0] == '-') {
        start = 1;
    }
    let ghost u = unsigned(text@);
    assert(u =~= text@.subrange(start as int, n as int));
    // The first exponent mark, if there is one, ends the mantissa.
    let mut mark = start;
    while mark < n && text[mark] != 'e' && text[mark] != 'E'
        invariant
            start <= mark <= n == text@.len(),
            forall|i: int| start <= i < mark ==> !is_exponent_mark(text@[i]),
        decreases n - mark,
    {
        mark = mark + 1;
    }
    let ghost m = mark - start;
    assert(u.take(m) =~= text@.subrange(start as int, mark as int));
    let mantissa = check_mantissa(text, start, mark);
    proof {
        // An exponent mark that follows a mantissa is the first one.
        assert forall|e: int|
            0 <= e < u.len() && is_exponent_mark(#[trigger] u[e]) && is_mantissa(
                u.take(e),
            ) implies e == m by {
            assert(u[e] == text@[start + e]);
            if e > m {
                lemma_mantissa_has_no_mark(u.take(e), m);
                assert(u.take(e)[m] == text@[mark as int]);
            }
        }
    }
    if mark == n {
        assert(u.take(m) =~= u);
        return mantissa;
    }
    proof {
        assert(u[m] == text@[mark as int]);
        if is_mantissa(u) {
            lemma_mantissa_has_no_mark(u, m);
        }
        assert(u.skip(m + 1) =~= text@.subrange(mark + 1, n as int));
    }
    let exponent = check_exponent(text, mark + 1, n);
    mantissa && exponent
}

/// A number, kept by its decimal spelling.
#[derive(Debug, PartialEq)]
pub struct Number {
    text: String,
}

impl View for Number {
    type V = Seq<char>;

    closed spec fn view(&self) -> Seq<char> {
        self.text@
    }
}

impl Number {
    #[verifier::type_invariant]
    spec fn well_formed(self) -> bool {
        is_decimal(self.text@)
    }

    /// The number that `text` spells; `None` where `text` spells none.
    pub fn new(text: &[char]) -> (number: Option<Number>)
        ensures
            number is Some <==> is_decimal(text@),
            number matches Some(n) ==> n@ == text@,
    {
        if check_decimal(text) {
            Some(Number { text: string_of(text) })
        } else {
            None
        }
    }

    /// Whether two numbers are spelled alike.
    pub fn same_spelling(&self, other: &Number) -> (same: bool)
        ensures
            same == (self@ == other@),
    {
        self.text == other.text
    }

    /// The spelling of the number, which is always a decimal.
    pub fn as_str(&self) -> (text: &str)
        ensures
            text@ == self@,
            is_decimal(self@),
    {
        proof {
            use_type_invariant(self);
        }
        self.text.as_str()
    }
}

} // verus!
