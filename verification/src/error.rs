//! Errors reported by parsing and decoding.

use vstd::prelude::*;

verus! {

/// Why a parse or a decode failed.
#[derive(Clone, Debug, PartialEq, Eq)]
pub enum Error {
    /// The text breaks the grammar or a structural rule, or a value has not
    /// the expected shape.
    ParseError,
    /// A `ParseError` met while decoding the named field of a record.
    ParseErrorInField(String),
    /// Reading the source failed; the description of the fault is carried.
    IOError(String),
}

/// Model of an [`Error`].
pub enum ErrorView {
    ParseError,
    ParseErrorInField(Seq<char>),
    IOError(Seq<char>),
}

impl View for Error {
    type V = ErrorView;

    open spec fn view(&self) -> ErrorView {
        match self {
            Error::ParseError => ErrorView::ParseError,
            Error::ParseErrorInField(name) => ErrorView::ParseErrorInField(name@),
            Error::IOError(what) => ErrorView::IOError(what@),
        }
    }
}

} // verus!
