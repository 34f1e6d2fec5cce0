//! HTTP span parsing.

pub mod helpers;
pub mod parse;
pub mod span;
pub mod tokenizer;
pub mod types;

pub use helpers::TransferCoding;
pub use span::{parse_request, parse_response};
pub use types::{
    Body, BodyContent, Chunk, ChunkedBody, Code, Header, HeaderName, HeaderValue, Method, Reason,
    Request, RequestLine, Response, Status, Target,
};

use crate::buffer::contents;
use crate::error::{ErrorKind, ParseError};
use crate::http::span::{
    parse_request_from_bytes, parse_response_from_bytes, request_outcome, request_refusal,
    response_outcome, response_refusal, MAX_HEADERS,
};
use crate::http::tokenizer::{request_tokens, response_tokens};
use crate::http::types::{RequestView, ResponseView};
use bytes::Bytes;
use vstd::prelude::*;

verus! {

/// A walk along the HTTP requests of a transcript, one after the other.
#[derive(Debug)]
pub struct Requests {
    src: Bytes,
    /// The current position in the source.
    pos: usize,
}

impl Requests {
    /// The transcript.
    pub closed spec fn source(&self) -> Seq<u8> {
        contents(self.src)
    }

    /// The position at which the next request begins.
    pub closed spec fn cursor(&self) -> int {
        self.pos as int
    }

    /// Returns a new walk along the requests of `src`.
    pub fn new(src: Bytes) -> (r: Requests)
        ensures
            r.source() == contents(src),
            r.cursor() == 0,
    {
        Requests { src, pos: 0 }
    }

    /// Returns a new walk along the requests of a copy of `src`.
    pub fn new_from_slice(src: &[u8]) -> (r: Requests)
        ensures
            r.source() == src@,
            r.cursor() == 0,
    {
        Requests { src: Bytes::copy_from_slice(src), pos: 0 }
    }

    /// The position at which the next request begins.
    pub fn position(&self) -> (pos: usize)
        ensures
            pos == self.cursor(),
    {
        self.pos
    }

    /// Parses the next request. There is none where the position is at or
    /// past the end of the transcript. A request that is parsed moves the
    /// position on by the bytes that it takes up; an error leaves the
    /// position where it is.
    pub fn next(&mut self) -> (r: Option<Result<Request, ParseError>>)
        ensures
            final(self).source() == old(self).source(),
            match r {
                None => old(self).cursor() >= old(self).source().len() && final(self).cursor()
                    == old(self).cursor(),
                Some(Ok(request)) => {
                    &&& old(self).cursor() < old(self).source().len()
                    &&& request_outcome(
                        old(self).source(),
                        old(self).cursor(),
                        request_tokens(
                            old(self).source().subrange(
                                old(self).cursor(),
                                old(self).source().len() as int,
                            ),
                            MAX_HEADERS,
                        ),
                    ) == Ok::<RequestView, ErrorKind>(request@)
                    &&& 0 < request.total_len
                    &&& final(self).cursor() == old(self).cursor() + request.total_len
                    &&& final(self).cursor() <= old(self).source().len()
                },
                Some(Err(e)) => {
                    &&& old(self).cursor() < old(self).source().len()
                    &&& request_outcome(
                        old(self).source(),
                        old(self).cursor(),
                        request_tokens(
                            old(self).source().subrange(
                                old(self).cursor(),
                                old(self).source().len() as int,
                            ),
                            MAX_HEADERS,
                        ),
                    ) == Err::<RequestView, ErrorKind>(e.kind)
                    &&& e.kind == ErrorKind::UnsupportedTransferCoding ==> e.message@
                        == request_refusal(
                        old(self).source(),
                        old(self).cursor(),
                        request_tokens(
                            old(self).source().subrange(
                                old(self).cursor(),
                                old(self).source().len() as int,
                            ),
                            MAX_HEADERS,
                        ),
                    )
                    &&& final(self).cursor() == old(self).cursor()
                },
            },
    {
        if self.pos >= self.src.len() {
            None
        } else {
            let parsed = parse_request_from_bytes(&self.src, self.pos);
            match &parsed {
                Ok(request) => {
                    self.pos = self.pos + request.total_len;
                },
                Err(_) => {},
            }
            Some(parsed)
        }
    }
}

/// A walk along the HTTP responses of a transcript, one after the other.
#[derive(Debug)]
pub struct Responses {
    src: Bytes,
    /// The current position in the source.
    pos: usize,
}

impl Responses {
    /// The transcript.
    pub closed spec fn source(&self) -> Seq<u8> {
        contents(self.src)
    }

    /// The position at which the next response begins.
    pub closed spec fn cursor(&self) -> int {
        self.pos as int
    }

    /// Returns a new walk along the responses of `src`.
    pub fn new(src: Bytes) -> (r: Responses)
        ensures
            r.source() == contents(src),
            r.cursor() == 0,
    {
        Responses { src, pos: 0 }
    }

    /// Returns a new walk along the responses of a copy of `src`.
    pub fn new_from_slice(src: &[u8]) -> (r: Responses)
        ensures
            r.source() == src@,
            r.cursor() == 0,
    {
        Responses { src: Bytes::copy_from_slice(src), pos: 0 }
    }

    /// The position at which the next response begins.
    pub fn position(&self) -> (pos: usize)
        ensures
            pos == self.cursor(),
    {
        self.pos
    }

    /// Parses the next response. There is none where the position is at or
    /// past the end of the transcript. A response that is parsed moves the
    /// position on by the bytes that it takes up; an error leaves the
    /// position where it is.
    pub fn next(&mut self) -> (r: Option<Result<Response, ParseError>>)
        ensures
            final(self).source() == old(self).source(),
            match r {
                None => old(self).cursor() >= old(self).source().len() && final(self).cursor()
                    == old(self).cursor(),
                Some(Ok(response)) => {
                    &&& old(self).cursor() < old(self).source().len()
                    &&& response_outcome(
                        old(self).source(),
                        old(self).cursor(),
                        response_tokens(
                            old(self).source().subrange(
                                old(self).cursor(),
                                old(self).source().len() as int,
                            ),
                            MAX_HEADERS,
                        ),
                    ) == Ok::<ResponseView, ErrorKind>(response@)
                    &&& 0 < response.total_len
                    &&& final(self).cursor() == old(self).cursor() + response.total_len
                    &&& final(self).cursor() <= old(self).source().len()
                },
                Some(Err(e)) => {
                    &&& old(self).cursor() < old(self).source().len()
                    &&& response_outcome(
                        old(self).source(),
                        old(self).cursor(),
                        response_tokens(
                            old(self).source().subrange(
                                old(self).cursor(),
                                old(self).source().len() as int,
                            ),
                            MAX_HEADERS,
                        ),
                    ) == Err::<ResponseView, ErrorKind>(e.kind)
                    &&& e.kind == ErrorKind::UnsupportedTransferCoding ==> e.message@
                        == response_refusal(
                        old(self).source(),
                        old(self).cursor(),
                        response_tokens(
                            old(self).source().subrange(
                                old(self).cursor(),
                                old(self).source().len() as int,
                            ),
                            MAX_HEADERS,
                        ),
                    )
                    &&& final(self).cursor() == old(self).cursor()
                },
            },
    {
        if self.pos >= self.src.len() {
            None
        } else {
            let parsed = parse_response_from_bytes(&self.src, self.pos);
            match &parsed {
                Ok(response) => {
                    self.pos = self.pos + response.total_len;
                },
                Err(_) => {},
            }
            Some(parsed)
        }
    }
}

} // verus!
