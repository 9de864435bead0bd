//! Errors of parsing and loading.
use vstd::prelude::*;

verus! {

#[verifier::external_type_specification]
#[verifier::external_body]
pub struct ExIoError(std::io::Error);

#[verifier::external_type_specification]
#[verifier::external_body]
pub struct ExUtf8Error(std::str::Utf8Error);

#[derive(Debug)]
pub enum Error {
    /// Reading an input failed.
    Io(std::io::Error),
    /// The text is not a valid dotenv document.
    Parse(ParseError),
    /// The bytes are not valid UTF-8.
    InvalidEncoding(std::str::Utf8Error),
}

impl From<std::io::Error> for Error {
    fn from(value: std::io::Error) -> Self {
        Error::Io(value)
    }
}

impl vstd::std_specs::convert::FromSpecImpl<std::io::Error> for Error {
    open spec fn obeys_from_spec() -> bool {
        true
    }

    open spec fn from_spec(v: std::io::Error) -> Self {
        Error::Io(v)
    }
}

impl From<ParseError> for Error {
    fn from(value: ParseError) -> Self {
        Error::Parse(value)
    }
}

impl vstd::std_specs::convert::FromSpecImpl<ParseError> for Error {
    open spec fn obeys_from_spec() -> bool {
        true
    }

    open spec fn from_spec(v: ParseError) -> Self {
        Error::Parse(v)
    }
}

impl From<std::str::Utf8Error> for Error {
    fn from(value: std::str::Utf8Error) -> Self {
        Error::InvalidEncoding(value)
    }
}

impl vstd::std_specs::convert::FromSpecImpl<std::str::Utf8Error> for Error {
    open spec fn obeys_from_spec() -> bool {
        true
    }

    open spec fn from_spec(v: std::str::Utf8Error) -> Self {
        Error::InvalidEncoding(v)
    }
}

/// Where and why a statement failed to parse; line and column are 1-based.
#[derive(Debug, Clone, PartialEq, Eq, Structural)]
pub struct ParseError {
    pub line: u32,
    pub column: u32,
    pub kind: ParseErrorKind,
}

impl ParseError {
    pub fn new(line: u32, column: u32, kind: ParseErrorKind) -> (r: Self)
        ensures
            r == (ParseError { line, column, kind }),
    {
        ParseError { line, column, kind }
    }
}

#[derive(Debug, Clone, Copy, PartialEq, Eq, Structural)]
pub enum ParseErrorKind {
    /// No `=` in the statement, or text after a closing quote.
    InvalidSyntax,
    /// Nothing before the `=`.
    MissingKey,
    /// The key has a character that the key mode refuses.
    InvalidKey,
    /// A quoted value has no closing quote.
    UnterminatedQuote,
}

impl ParseErrorKind {
    /// Short description of the error kind.
    pub fn describe(&self) -> (r: &'static str) {
        match self {
            ParseErrorKind::InvalidSyntax => "invalid syntax",
            ParseErrorKind::MissingKey => "missing key",
            ParseErrorKind::InvalidKey => "invalid key",
            ParseErrorKind::UnterminatedQuote => "unterminated quote",
        }
    }
}

/// Relies on `std::io::Error::new`: an error of kind `InvalidData`, for an
/// input longer than the parser's counters can address.
#[verifier::external_body]
pub(crate) fn input_too_large() -> std::io::Error {
    std::io::Error::new(std::io::ErrorKind::InvalidData, "input is too large to parse")
}

} // verus!
