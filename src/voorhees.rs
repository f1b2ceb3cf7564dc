//! The parser's entry point and types under the names of the first version
//! of this library.
pub use crate::error::ParseError;
pub use crate::parser::parse;
pub use crate::value::Value;
