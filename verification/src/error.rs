//! The one error of the crate.

use vstd::prelude::*;
use vstd::string::StringExecFns;

verus! {

/// Why a parse failed.
#[derive(Clone, Copy, Debug, PartialEq, Eq, Structural)]
pub enum ErrorKind {
    /// The buffer ends before a full head is present.
    Incomplete,
    /// The head is not a request or response head: the tokenizer rejects
    /// it, a part of the start line is missing, or a line lacks its CRLF.
    MalformedHead,
    /// Bytes that have to be UTF-8, a chunk size or a `Content-Length`
    /// cannot be read.
    InvalidEncoding,
    /// A `Transfer-Encoding` is declared and one of its codings is not
    /// accepted.
    UnsupportedTransferCoding,
    /// Nothing in the head says how long the body is.
    UndeterminableBodyLength,
    /// The body would reach past the end of the buffer.
    RangeOverrun,
    /// A body declared as JSON is not well-formed JSON.
    SubParse,
}

/// A parse error: its kind, and a message for a person to read.
#[derive(Debug, PartialEq, Eq)]
pub struct ParseError {
    /// Why the parse failed.
    pub kind: ErrorKind,
    /// The message.
    pub message: String,
}

impl Clone for ParseError {
    fn clone(&self) -> (e: ParseError)
        ensures
            e.kind == self.kind,
            e.message@ == self.message@,
    {
        ParseError { kind: self.kind, message: self.message.clone() }
    }
}

impl ParseError {
    /// An error of the given kind with the given message.
    pub fn new(kind: ErrorKind, message: &str) -> (e: ParseError)
        ensures
            e.kind == kind,
            e.message@ == message@,
    {
        ParseError { kind, message: String::from_str(message) }
    }

    /// Why the parse failed.
    pub fn kind(&self) -> (k: ErrorKind)
        ensures
            k == self.kind,
    {
        self.kind
    }

    /// The message.
    pub fn to_string(&self) -> (s: String)
        ensures
            s@ == self.message@,
    {
        self.message.clone()
    }
}

} // verus!
