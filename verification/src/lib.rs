//! A recursive-descent JSON parser with machine-checked contracts.
//!
//! The parser reads a document one Unicode scalar value at a time from a
//! [`Cursor`] and builds a [`Json`] tree. Every function states, over plain
//! sequences of characters, exactly what it consumes and what it returns.

pub mod consumption;
pub mod cursor;
pub mod error;
pub mod grammar;
pub mod layers;
pub mod number;
pub mod parser;
pub mod scalars;
pub mod spacing;
pub mod std_contracts;
pub mod text;
pub mod tokens;
pub mod value;

pub use cursor::Cursor;
pub use error::ParseError;
pub use number::Number;
pub use parser::{
    parse_array, parse_expected, parse_json, parse_number, parse_object, parse_string,
    parse_unicode, parse_value, parse_whitespace, MAX_DEPTH,
};
pub use value::{Json, Object};
