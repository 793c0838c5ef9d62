//! The library's error value: a kind to act on and a message to show.

use vstd::prelude::*;

verus! {

/// What went wrong, in the terms of the standard I/O errors.
#[derive(Debug, Clone, Copy, PartialEq, Eq, Structural)]
pub enum ErrorKind {
    /// The input ended before the value did.
    UnexpectedEof,
    /// The input holds something that has no meaning.
    InvalidData,
    /// The caller asked for something that does not exist.
    InvalidInput,
    /// The broker refused the request.
    Other,
}

/// An error with its message.
#[derive(Debug, PartialEq)]
pub struct Error {
    pub kind: ErrorKind,
    pub message: String,
}

/// What an [`Error`] says.
pub struct ErrorView {
    pub kind: ErrorKind,
    pub message: Seq<char>,
}

impl View for Error {
    type V = ErrorView;

    open spec fn view(&self) -> ErrorView {
        ErrorView { kind: self.kind, message: self.message@ }
    }
}

impl Error {
    pub fn new(kind: ErrorKind, message: &str) -> (e: Error)
        ensures
            e@ == (ErrorView { kind, message: message@ }),
    {
        Error { kind, message: message.to_owned() }
    }
}

/// A fallible result with both sides replaced by what they mean.
pub open spec fn seen<T: View>(r: Result<T, Error>) -> Result<T::V, ErrorView> {
    match r {
        Ok(v) => Ok(v@),
        Err(e) => Err(e@),
    }
}

/// The same for a result that may hold nothing.
pub open spec fn seen_option<T: View>(r: Result<Option<T>, Error>) -> Result<
    Option<T::V>,
    ErrorView,
> {
    match r {
        Ok(Some(v)) => Ok(Some(v@)),
        Ok(None) => Ok(None),
        Err(e) => Err(e@),
    }
}

} // verus!
