//! What can go wrong.

use vstd::prelude::*;
use std::string::FromUtf8Error;
use crate::store::StoreError;

verus! {

/// The ways in which an operation fails.
#[derive(Debug)]
pub enum Error {
    /// A stored key was asked for as text and is not UTF-8.
    InvalidUtf8(FromUtf8Error),
    /// The store reported a failure.
    Backend(StoreError),
    /// The request cannot be carried out; the text says why.
    Message(String),
}

/// The store failed.
pub open spec fn backend_fault<T>(r: Result<T, Error>) -> bool {
    r matches Err(Error::Backend(_))
}

/// The request was turned down.
pub open spec fn rejected<T>(r: Result<T, Error>) -> bool {
    r matches Err(Error::Message(_))
}

/// A stored key was not text.
pub open spec fn not_text<T>(r: Result<T, Error>) -> bool {
    r matches Err(Error::InvalidUtf8(_))
}

/// Says which length a score should have had. The text is put together by
/// `format!`; nothing is claimed of it.
#[verifier::external_body]
pub(crate) fn score_length_text(expected: u8, actual: usize) -> String {
    format!("invalid score length, expected {} bytes but got {} bytes", expected, actual)
}

impl Error {
    /// A refusal with the given reason.
    pub fn message(text: &str) -> (r: Error)
        ensures
            r matches Error::Message(s) && s@ == text@,
    {
        Error::Message(text.to_owned())
    }

    /// The reason of the failure, in words.
    pub fn description(&self) -> (r: &str)
        ensures
            self matches Error::Message(s) ==> r@ == s@,
            self matches Error::Backend(e) ==> r@ == e.message@,
            self is InvalidUtf8 ==> r@ == "a stored key is not valid UTF-8"@,
    {
        match self {
            Error::InvalidUtf8(_) => "a stored key is not valid UTF-8",
            Error::Backend(e) => e.message.as_str(),
            Error::Message(s) => s.as_str(),
        }
    }
}

} // verus!
