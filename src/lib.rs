//! A small JSON reader: a lexer and recursive-descent parser that turn text
//! into a `Value` tree, and a type-directed decode layer over that tree.
//!
//! Numbers are kept exactly as their decimal digits (`Number`); a caller that
//! wants a binary float converts the text of `Number::to_decimal_string`.
//! Nesting depth is bounded only by the call stack: each level of arrays or
//! objects is one level of recursion.
pub mod decode;
pub mod error;
pub mod lexer;
pub mod number;
pub mod parser;
pub mod value;
pub mod voorhees;

pub use decode::{decode, extract_field, extract_optional_field, FromJSON};
pub use error::{DecodeError, JSONError, ParseError};
pub use lexer::{Lexer, Token};
pub use parser::parse;
pub use value::{Json, Number, Value};
pub mod laws;
