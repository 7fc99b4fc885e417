//! The ways in which a document can fail to parse.

use vstd::prelude::*;

verus! {

/// The first failure met while parsing. Parsing stops at once when one occurs.
#[derive(Clone, Copy, Debug, PartialEq, Eq, Structural)]
pub enum ParseError {
    /// The input ended where a value, a delimiter or the rest of a literal was required.
    UnexpectedEndOfInput,
    /// A character does not fit the grammar at the place where it stands.
    UnexpectedCharacter,
    /// The value in the key position of an object member is not a string.
    InvalidObjectKey,
    /// A backslash inside a string is followed by a character that starts no escape.
    InvalidEscapeSequence,
    /// The characters collected for a number do not spell a decimal number.
    MalformedNumber,
    /// Arrays and objects are nested more deeply than the parser allows.
    NestingTooDeep,
}

} // verus!
