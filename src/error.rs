use vstd::prelude::*;

verus! {

/// A failure to read JSON text, with a message naming what went wrong.
#[derive(Debug, PartialEq)]
pub struct ParseError(pub String);

/// The shape or content of a value does not match the type asked for.
#[derive(Debug, PartialEq, Eq)]
pub struct DecodeError;

/// The one error that `decode` reports: a parse failure (with its message)
/// or a decode failure.
#[derive(Debug, PartialEq)]
pub enum JSONError {
    ParseError(String),
    DecodeError,
}

impl From<ParseError> for JSONError {
    fn from(p: ParseError) -> (r: JSONError)
        ensures
            r == JSONError::ParseError(p.0),
    {
        let ParseError(msg) = p;
        JSONError::ParseError(msg)
    }
}

impl vstd::std_specs::convert::FromSpecImpl<ParseError> for JSONError {
    open spec fn obeys_from_spec() -> bool {
        true
    }

    open spec fn from_spec(p: ParseError) -> JSONError {
        JSONError::ParseError(p.0)
    }
}

impl From<DecodeError> for JSONError {
    fn from(_e: DecodeError) -> (r: JSONError)
        ensures
            r == JSONError::DecodeError,
    {
        JSONError::DecodeError
    }
}

impl vstd::std_specs::convert::FromSpecImpl<DecodeError> for JSONError {
    open spec fn obeys_from_spec() -> bool {
        true
    }

    open spec fn from_spec(e: DecodeError) -> JSONError {
        JSONError::DecodeError
    }
}

/// Relies on `String::push`: the string grows by exactly the one character.
#[verifier::external_body]
pub(crate) fn push_char(s: &mut String, c: char)
    ensures
        final(s)@ == old(s)@.push(c),
{
    s.push(c);
}

} // verus!
