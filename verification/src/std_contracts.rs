//! Contracts for the functions of the standard library that are called here
//! and that `vstd` says nothing about. They are believed, not proved.

use vstd::prelude::*;

verus! {

/// A code point that is a Unicode scalar value: any but a surrogate, up to
/// `U+10FFFF`.
pub open spec fn is_scalar_value(code: u32) -> bool {
    code <= 0xD7FF || (0xE000 <= code && code <= 0x10FFFF)
}

/// `char::from_u32` returns the character with the given code point where the
/// code point is a Unicode scalar value, and `None` where it is not.
pub assume_specification[ char::from_u32 ](i: u32) -> (c: Option<char>)
    ensures
        c == (if is_scalar_value(i) {
            Some(i as char)
        } else {
            None::<char>
        }),
;

/// `String::push` appends one character to the end of the string.
pub assume_specification[ std::string::String::push ](text: &mut std::string::String, ch: char)
    ensures
        final(text)@ == old(text)@.push(ch),
;

} // verus!
