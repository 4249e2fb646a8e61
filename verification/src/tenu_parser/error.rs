use core::str::Utf8Error;
use vstd::prelude::*;

verus! {

/// Why parsing a command line failed.
#[derive(Debug, PartialEq)]
#[non_exhaustive]
pub enum Error<'a> {
    InvalidValue,
    InvalidUtf8Arg,
    MissingArg,
    MissingArgValue,
    DuplicatedArg,
    UnknownLongOption(&'a str),
    UnknownShortOption(&'a str),
    ParseError(ParserError),
}

/// What could not be parsed, by the argument's text (which lives for the whole program).
#[derive(Debug, PartialEq)]
pub enum ParserError {
    IntParse(&'static str),
    StrParse(&'static str),
}

impl<'a> Error<'a> {
    /// The text that describes the error.
    pub open spec fn spec_message(&self) -> Seq<char> {
        match *self {
            Error::InvalidValue => "Invalid argument value"@,
            Error::InvalidUtf8Arg => "Invalid argument format (Non UTF-8)"@,
            Error::MissingArg => "Missing argument"@,
            Error::MissingArgValue => "Missing option value"@,
            Error::DuplicatedArg => "Duplicated argument"@,
            Error::ParseError(e) => e.spec_message(),
            Error::UnknownLongOption(opt) => "Unknown long option --"@ + opt@,
            Error::UnknownShortOption(opt) => "Unknown short option -"@ + opt@,
        }
    }

    /// The text that describes the error.
    pub fn message(&self) -> (r: String)
        ensures
            r@ == self.spec_message(),
    {
        match self {
            Error::InvalidValue => String::from_str("Invalid argument value"),
            Error::InvalidUtf8Arg => String::from_str("Invalid argument format (Non UTF-8)"),
            Error::MissingArg => String::from_str("Missing argument"),
            Error::MissingArgValue => String::from_str("Missing option value"),
            Error::DuplicatedArg => String::from_str("Duplicated argument"),
            Error::ParseError(e) => e.message(),
            Error::UnknownLongOption(opt) => {
                let mut m = String::from_str("Unknown long option --");
                m.append(opt);
                m
            },
            Error::UnknownShortOption(opt) => {
                let mut m = String::from_str("Unknown short option -");
                m.append(opt);
                m
            },
        }
    }
}

impl ParserError {
    /// The text that describes the error.
    pub open spec fn spec_message(&self) -> Seq<char> {
        match *self {
            ParserError::IntParse(arg) => "Error while parsing "@ + arg@ + " as integer"@,
            ParserError::StrParse(arg) => "Error while parsing "@ + arg@ + " as string"@,
        }
    }

    /// The text that describes the error.
    pub fn message(&self) -> (r: String)
        ensures
            r@ == self.spec_message(),
    {
        let (arg, kind) = match self {
            ParserError::IntParse(arg) => (*arg, " as integer"),
            ParserError::StrParse(arg) => (*arg, " as string"),
        };
        let mut m = String::from_str("Error while parsing ");
        m.append(arg);
        m.append(kind);
        m
    }
}

impl<'a> From<ParserError> for Error<'a> {
    fn from(e: ParserError) -> (r: Self)
        ensures
            r == Error::ParseError(e),
    {
        Error::ParseError(e)
    }
}

impl<'a> vstd::std_specs::convert::FromSpecImpl<ParserError> for Error<'a> {
    open spec fn obeys_from_spec() -> bool {
        true
    }

    open spec fn from_spec(e: ParserError) -> Self {
        Error::ParseError(e)
    }
}

impl<'a> From<Utf8Error> for Error<'a> {
    fn from(_e: Utf8Error) -> (r: Self)
        ensures
            r is InvalidUtf8Arg,
    {
        Error::InvalidUtf8Arg
    }
}

impl<'a> vstd::std_specs::convert::FromSpecImpl<Utf8Error> for Error<'a> {
    open spec fn obeys_from_spec() -> bool {
        true
    }

    open spec fn from_spec(e: Utf8Error) -> Self {
        Error::InvalidUtf8Arg
    }
}

} // verus!
