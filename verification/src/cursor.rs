//! A reader over Unicode scalar values with one position of lookahead.

use crate::text::chars_of;
use vstd::prelude::*;

verus! {

/// The first element of a sequence, if there is one.
pub open spec fn head(s: Seq<char>) -> Option<char> {
    if s.len() > 0 {
        Some(s[0])
    } else {
        None
    }
}

/// A sequence without its first element; the empty sequence stays empty.
pub open spec fn tail(s: Seq<char>) -> Seq<char> {
    if s.len() > 0 {
        s.drop_first()
    } else {
        s
    }
}

/// A position in a sequence of characters. Its view is what has not been consumed yet.
pub struct Cursor {
    chars: Vec<char>,
    pos: usize,
}

impl View for Cursor {
    type V = Seq<char>;

    closed spec fn view(&self) -> Seq<char> {
        self.chars@.skip(self.pos as int)
    }
}

impl Cursor {
    #[verifier::type_invariant]
    spec fn in_bounds(self) -> bool {
        self.pos <= self.chars.len()
    }

    /// A cursor standing before the first of `chars`.
    pub fn new(chars: Vec<char>) -> (cursor: Cursor)
        ensures
            cursor@ == chars@,
    {
        let cursor = Cursor { chars, pos: 0 };
        assert(cursor.chars@.skip(0) =~= cursor.chars@);
        cursor
    }

    /// A cursor standing before the first character of `text`.
    pub fn from_str(text: &str) -> (cursor: Cursor)
        ensures
            cursor@ == text@,
    {
        let chars = chars_of(text);
        Cursor::new(chars)
    }

    /// The next character, which stays unconsumed; `None` at the end of input.
    pub fn peek(&self) -> (next: Option<char>)
        ensures
            next == head(self@),
    {
        proof {
            use_type_invariant(self);
        }
        if self.pos < self.chars.len() {
            Some(self.chars[self.pos])
        } else {
            None
        }
    }

    /// Consumes the next character and returns it; `None` at the end of input,
    /// where nothing changes.
    pub fn next(&mut self) -> (next: Option<char>)
        ensures
            next == head(old(self)@),
            final(self)@ == tail(old(self)@),
    {
        proof {
            use_type_invariant(&*self);
        }
        if self.pos < self.chars.len() {
            let c = self.chars[self.pos];
            self.pos = self.pos + 1;
            assert(self.chars@.skip(self.pos as int) =~= old(self).chars@.skip(
                old(self).pos as int,
            ).drop_first());
            Some(c)
        } else {
            None
        }
    }
}

} // verus!
