//! The failures that stop a parse.
use vstd::prelude::*;

verus! {

/// A structural failure in the input, with the bit position at which it was found.
#[derive(Debug, PartialEq, Eq)]
pub struct ParseError {
    pub pos: usize,
    pub msg: String,
}

/// What can go wrong while a stream is read and taken apart.
#[derive(Debug, PartialEq, Eq)]
pub enum Error {
    Io(String),
    Utf8(String),
    Parse(ParseError),
    Serde(String),
}

/// The view of an [`Error`]: the same variants, their messages as sequences of characters.
pub enum ErrorView {
    Io(Seq<char>),
    Utf8(Seq<char>),
    Parse { pos: usize, msg: Seq<char> },
    Serde(Seq<char>),
}

impl View for ParseError {
    type V = ErrorView;

    open spec fn view(&self) -> ErrorView {
        ErrorView::Parse { pos: self.pos, msg: self.msg@ }
    }
}

impl View for Error {
    type V = ErrorView;

    open spec fn view(&self) -> ErrorView {
        match *self {
            Error::Io(s) => ErrorView::Io(s@),
            Error::Utf8(s) => ErrorView::Utf8(s@),
            Error::Parse(e) => e@,
            Error::Serde(s) => ErrorView::Serde(s@),
        }
    }
}

impl From<ParseError> for Error {
    fn from(error: ParseError) -> (r: Error) {
        Error::Parse(error)
    }
}

impl vstd::std_specs::convert::FromSpecImpl<ParseError> for Error {
    open spec fn obeys_from_spec() -> bool {
        true
    }

    open spec fn from_spec(error: ParseError) -> Error {
        Error::Parse(error)
    }
}

/// The view of a parse failure at a bit position.
pub open spec fn failure(pos: int, msg: Seq<char>) -> ErrorView {
    ErrorView::Parse { pos: pos as usize, msg }
}

/// A result with the view of its error.
pub open spec fn lift<R>(r: Result<R, Error>) -> Result<R, ErrorView> {
    match r {
        Ok(x) => Ok(x),
        Err(e) => Err(e@),
    }
}

/// A parse failure at a bit position.
pub fn parse_failure(pos: usize, msg: String) -> (r: Error)
    ensures
        r@ == failure(pos as int, msg@),
{
    Error::from(ParseError { pos, msg })
}

} // verus!
