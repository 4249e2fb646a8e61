use core::str::Utf8Error;
use vstd::prelude::*;

pub use crate::tenu_parser::error::ParserError;

verus! {

/// Why an argument could not be had.
#[derive(Debug)]
#[non_exhaustive]
pub enum Error {
    InvalidValue,
    InvalidUtf8Arg,
    MissingArg,
    MissingArgValue,
    DuplicatedArg,
    ParseError(ParserError),
}

impl Error {
    /// The text that describes the error.
    pub open spec fn spec_message(&self) -> Seq<char> {
        match *self {
            Error::InvalidValue => "Invalid argument value"@,
            Error::InvalidUtf8Arg => "Invalid argument format (Non UTF-8)"@,
            Error::MissingArg => "Missing argument"@,
            Error::MissingArgValue => "Missing option value"@,
            Error::DuplicatedArg => "Duplicated argument"@,
            Error::ParseError(e) => e.spec_message(),
        }
    }

    /// The text that describes the error.
    pub fn message(&self) -> (r: String)
        ensures
            r@ == self.spec_message(),
    {
        match self {
            Error::InvalidValue => String::from_str("Invalid argument value"),
            Error::InvalidUtf8Arg => String::from_str("Invalid argument format (Non UTF-8)"),
            Error::MissingArg => String::from_str("Missing argument"),
            Error::MissingArgValue => String::from_str("Missing option value"),
            Error::DuplicatedArg => String::from_str("Duplicated argument"),
            Error::ParseError(e) => e.message(),
        }
    }
}

impl From<ParserError> for Error {
    fn from(e: ParserError) -> (r: Self)
        ensures
            r == Error::ParseError(e),
    {
        Error::ParseError(e)
    }
}

impl vstd::std_specs::convert::FromSpecImpl<ParserError> for Error {
    open spec fn obeys_from_spec() -> bool {
        true
    }

    open spec fn from_spec(e: ParserError) -> Self {
        Error::ParseError(e)
    }
}

impl From<Utf8Error> for Error {
    fn from(_e: Utf8Error) -> (r: Self)
        ensures
            r is InvalidUtf8Arg,
    {
        Error::InvalidUtf8Arg
    }
}

impl vstd::std_specs::convert::FromSpecImpl<Utf8Error> for Error {
    open spec fn obeys_from_spec() -> bool {
        true
    }

    open spec fn from_spec(e: Utf8Error) -> Self {
        Error::InvalidUtf8Arg
    }
}

} // verus!
