//! Parsing one message: the head, then the body that the head declares.
//!
//! The tokenizer hands out the tokens of a head as bytes, without their
//! places in the transcript. Each token is looked up where it has to stand:
//! the method from the start line on, the target after the method,
//! the name of a header after the line before it, its value after its name.
//! A token stands at the first place where its bytes stand;
//! [`crate::text::find`] does every such search. A token that is not found
//! within its line makes the head malformed.

use crate::buffer::{as_slice, contents};
use crate::error::{ErrorKind, ParseError};
use crate::http::helpers::{
    codings, codings_of, content_length_name, content_type, content_type_of,
    invalid_transfer_encoding_message, unsupported_message,
    is_json, is_valid_transfer_encoding, transfer_encoding, transfer_encoding_of,
    valid_transfer_encoding, TransferCoding,
};
use crate::http::parse::{
    body_view, chunk_walk, chunked_body_at, content_length, lemma_chunk_walk,
    lemma_chunk_walk_fails, parse_body, parse_content_length, parse_transfer_encoding_chunked_length, slice_view,
    total,
};
pub use crate::http::tokenizer::MAX_HEADERS;
use crate::http::tokenizer::{
    header_token_views, request_tokens, response_tokens, tokenize_request, tokenize_response,
    HeaderTokens, HeaderTokensView, RequestTokens, RequestTokensView, ResponseTokens,
    ResponseTokensView, Tokenized, TokenizedView,
};
use crate::http::types::{
    body_positions, header_views, headers_named, with_name, Body, BodyView, Code, Header, HeaderName, HeaderValue,
    HeaderView, Method, Reason, Request, RequestLine, RequestLineView, RequestView, Response,
    ResponseView, Status, StatusView, Target,
};
use crate::range::union::Union;
use crate::range::{covered, holds, lemma_canonical, span_of};
use crate::span::{gathered, Span, SpanView, StrSpan};
use crate::text::{crlf, find, find_crlf, first_match, lemma_first_match, number_in_usize, parse_number};
use bytes::{Bytes, BytesMut};
use std::ops::Range;
use vstd::prelude::*;
use vstd::slice::slice_subrange;
use vstd::utf8::valid_utf8;

verus! {

/// The position at or after `at` where the empty lines end that stand
/// there: an empty line is a CRLF, or a line feed alone. A message may
/// follow empty lines; its start line begins after them.
pub open spec fn after_empty_lines(src: Seq<u8>, at: int) -> int
    decreases src.len() - at,
{
    if 0 <= at && at + 1 < src.len() && src[at] == 13 && src[at + 1] == 10 {
        after_empty_lines(src, at + 2)
    } else if 0 <= at < src.len() && src[at] == 10 {
        after_empty_lines(src, at + 1)
    } else {
        at
    }
}

/// Empty lines end at or after where they begin, and within the source.
pub proof fn lemma_after_empty_lines(src: Seq<u8>, at: int)
    requires
        0 <= at <= src.len(),
    ensures
        at <= after_empty_lines(src, at) <= src.len(),
    decreases src.len() - at,
{
    if at + 1 < src.len() && src[at] == 13 && src[at + 1] == 10 {
        lemma_after_empty_lines(src, at + 2);
    } else if at < src.len() && src[at] == 10 {
        lemma_after_empty_lines(src, at + 1);
    }
}

/// The position at or after `at` where the empty lines end that stand
/// there.
pub fn skip_empty_lines(src: &[u8], at: usize) -> (r: usize)
    requires
        at <= src.len(),
    ensures
        r == after_empty_lines(src@, at as int),
        at <= r <= src.len(),
{
    let mut here: usize = at;
    loop
        invariant
            at <= here <= src.len(),
            after_empty_lines(src@, at as int) == after_empty_lines(src@, here as int),
        decreases src.len() - here,
    {
        if here < src.len() && src[here] == 13 && here + 1 < src.len() && src[here + 1] == 10 {
            here += 2;
        } else if here < src.len() && src[here] == 10 {
            here += 1;
        } else {
            return here;
        }
    }
}

/// A header in `src`: its name is at the first place at or after `cursor`
/// where the name stands, its value at the first place after the name and
/// one more byte where the value stands, and its line ends with the first
/// CRLF after the value, which has to come before `limit`. With the header
/// comes the position after its line.
pub open spec fn header_at(src: Seq<u8>, cursor: int, limit: int, tokens: HeaderTokensView) -> Result<
    (HeaderView, int),
    ErrorKind,
> {
    match first_match(src, tokens.name, cursor) {
        None => Err(ErrorKind::MalformedHead),
        Some(name) => match first_match(src, tokens.value, name + tokens.name.len() + 1) {
            None => Err(ErrorKind::MalformedHead),
            Some(value) => match first_match(src, crlf(), value + tokens.value.len()) {
                None => Err(ErrorKind::MalformedHead),
                Some(end) => if end + 2 > limit {
                    Err(ErrorKind::MalformedHead)
                } else if !valid_utf8(src.subrange(name, name + tokens.name.len())) {
                    Err(ErrorKind::InvalidEncoding)
                } else {
                    Ok(
                        (
                            HeaderView {
                                span: slice_view(src, name, end + 2),
                                name: slice_view(src, name, name + tokens.name.len()),
                                value: slice_view(src, value, value + tokens.value.len()),
                            },
                            end + 2,
                        ),
                    )
                },
            },
        },
    }
}

/// The headers in `src` from `cursor` on, one after the other.
pub open spec fn headers_at(
    src: Seq<u8>,
    cursor: int,
    limit: int,
    tokens: Seq<HeaderTokensView>,
) -> Result<Seq<HeaderView>, ErrorKind>
    decreases tokens.len(),
{
    if tokens.len() == 0 {
        Ok(Seq::<HeaderView>::empty())
    } else {
        match header_at(src, cursor, limit, tokens[0]) {
            Err(kind) => Err(kind),
            Ok((header, next)) => match headers_at(src, next, limit, tokens.drop_first()) {
                Ok(rest) => Ok(seq![header] + rest),
                Err(kind) => Err(kind),
            },
        }
    }
}

/// Headers that go on from the headers already found.
pub open spec fn more_headers(found: Seq<HeaderView>, rest: Result<Seq<HeaderView>, ErrorKind>) -> Result<
    Seq<HeaderView>,
    ErrorKind,
> {
    match rest {
        Ok(headers) => Ok(found + headers),
        Err(kind) => Err(kind),
    }
}

/// The request line in `src`: it begins at `offset` and ends with the next
/// CRLF, which has to come before `limit`. The method is at the first place
/// where it stands, the target at the first place after the method, both
/// before the CRLF. With the line comes the position after it.
pub open spec fn request_line_at(
    src: Seq<u8>,
    offset: int,
    limit: int,
    method: Seq<u8>,
    target: Seq<u8>,
) -> Result<(RequestLineView, int), ErrorKind> {
    match first_match(src, crlf(), offset) {
        None => Err(ErrorKind::MalformedHead),
        Some(end) => if end + 2 > limit {
            Err(ErrorKind::MalformedHead)
        } else {
            match first_match(src, method, offset) {
                None => Err(ErrorKind::MalformedHead),
                Some(m) => if m + method.len() > end {
                    Err(ErrorKind::MalformedHead)
                } else {
                    match first_match(src, target, m + method.len()) {
                        None => Err(ErrorKind::MalformedHead),
                        Some(t) => if t + target.len() > end {
                            Err(ErrorKind::MalformedHead)
                        } else if !valid_utf8(src.subrange(offset, end + 2)) || !valid_utf8(
                            src.subrange(m, m + method.len()),
                        ) || !valid_utf8(src.subrange(t, t + target.len())) {
                            Err(ErrorKind::InvalidEncoding)
                        } else {
                            Ok(
                                (
                                    RequestLineView {
                                        span: slice_view(src, offset, end + 2),
                                        method: slice_view(src, m, m + method.len()),
                                        target: slice_view(src, t, t + target.len()),
                                    },
                                    end + 2,
                                ),
                            )
                        },
                    }
                },
            }
        },
    }
}

/// The three digits that write a status code.
pub open spec fn code_digits(code: int) -> Seq<u8> {
    seq![(48 + code / 100) as u8, (48 + (code / 10) % 10) as u8, (48 + code % 10) as u8]
}

/// The status line in `src`: it begins at `offset` and ends with the next
/// CRLF, which has to come before `limit`. The code is at the first place
/// where its three digits stand, the reason at the first place after the
/// code, both before the CRLF. With the line comes the position after it.
pub open spec fn status_line_at(
    src: Seq<u8>,
    offset: int,
    limit: int,
    code: int,
    reason: Seq<u8>,
) -> Result<(StatusView, int), ErrorKind> {
    match first_match(src, crlf(), offset) {
        None => Err(ErrorKind::MalformedHead),
        Some(end) => if end + 2 > limit || code > 999 {
            Err(ErrorKind::MalformedHead)
        } else {
            match first_match(src, code_digits(code), offset) {
                None => Err(ErrorKind::MalformedHead),
                Some(c) => if c + 3 > end {
                    Err(ErrorKind::MalformedHead)
                } else {
                    match first_match(src, reason, c + 3) {
                        None => Err(ErrorKind::MalformedHead),
                        Some(r) => if r + reason.len() > end {
                            Err(ErrorKind::MalformedHead)
                        } else if !valid_utf8(src.subrange(offset, end + 2)) || !valid_utf8(
                            src.subrange(c, c + 3),
                        ) || !valid_utf8(src.subrange(r, r + reason.len())) {
                            Err(ErrorKind::InvalidEncoding)
                        } else {
                            Ok(
                                (
                                    StatusView {
                                        span: slice_view(src, offset, end + 2),
                                        code: slice_view(src, c, c + 3),
                                        reason: slice_view(src, r, r + reason.len()),
                                    },
                                    end + 2,
                                ),
                            )
                        },
                    }
                },
            }
        },
    }
}

/// The length of the body that the headers declare, where the status of
/// the message allows a body. Every declared transfer coding has to be a
/// text and accepted. Then the length is the sizes of the chunks of a
/// chunked body together, else the value of the first `Content-Length`,
/// else nothing for a request, and for a response an error.
pub open spec fn declared_length(
    headers: Seq<HeaderView>,
    src: Seq<u8>,
    head_end: int,
    response: bool,
) -> Result<int, ErrorKind> {
    if codings(headers) is None {
        Err(ErrorKind::InvalidEncoding)
    } else if !valid_transfer_encoding(headers) {
        Err(ErrorKind::UnsupportedTransferCoding)
    } else if transfer_encoding(headers) == Some(TransferCoding::Chunked) {
        match chunk_walk(src, head_end) {
            Ok(walk) => Ok(total(walk.chunks)),
            Err(kind) => Err(kind),
        }
    } else if with_name(headers, content_length_name()).len() > 0 {
        match content_length(with_name(headers, content_length_name())[0].value.data) {
            Some(n) => Ok(n as int),
            None => Err(ErrorKind::InvalidEncoding),
        }
    } else if transfer_encoding(headers) == Some(TransferCoding::Identity) || response {
        Err(ErrorKind::UndeterminableBodyLength)
    } else {
        Ok(0)
    }
}

/// Whether a response with the given status code never has a body.
pub open spec fn bodiless(code: int) -> bool {
    100 <= code <= 199 || code == 204 || code == 304
}

/// The length of the body of a response with the given code and headers.
pub open spec fn response_length(
    code: Seq<u8>,
    headers: Seq<HeaderView>,
    src: Seq<u8>,
    head_end: int,
) -> Result<int, ErrorKind> {
    match number_in_usize(code, 10) {
        None => Err(ErrorKind::MalformedHead),
        Some(c) => if bodiless(c as int) {
            Ok(0)
        } else {
            declared_length(headers, src, head_end, true)
        },
    }
}

/// What follows the head of a message.
pub struct Rest {
    /// The span of the whole message.
    pub span: SpanView,
    /// The body, where there is one.
    pub body: Option<BodyView>,
    /// The number of bytes that the message takes up in the transcript.
    pub total_len: int,
}

/// Whether the headers declare the content of the body as JSON.
pub open spec fn declares_json(headers: Seq<HeaderView>) -> bool {
    content_type(headers) == Some("application/json"@)
}

/// What follows a head that lies in `src` from `offset` up to `head_end`,
/// where the body has the given coding and `body_len` bytes, and is JSON
/// where `json` says so.
///
/// A chunked message takes up the transcript to the end of its last chunk;
/// its span holds the head and the payloads of the chunks. Any other
/// message takes up its head and its body, and its span holds both.
pub open spec fn rest_of(
    src: Seq<u8>,
    offset: int,
    head_end: int,
    json: bool,
    coding: Option<TransferCoding>,
    body_len: int,
) -> Result<Rest, ErrorKind> {
    if coding == Some(TransferCoding::Chunked) {
        match chunk_walk(src, head_end) {
            Err(kind) => Err(kind),
            Ok(walk) => if body_len > 0 {
                Ok(
                    Rest {
                        span: SpanView {
                            data: src.subrange(offset, head_end) + gathered(src, walk.chunks),
                            at: seq![(offset, head_end)] + walk.chunks,
                        },
                        body: Some(body_view(src, head_end, head_end + body_len, json, coding)->Ok_0),
                        total_len: walk.end - offset,
                    },
                )
            } else {
                Ok(
                    Rest {
                        span: slice_view(src, offset, head_end),
                        body: None,
                        total_len: walk.end - offset,
                    },
                )
            },
        }
    } else if body_len > 0 {
        if head_end + body_len > src.len() {
            Err(ErrorKind::RangeOverrun)
        } else {
            match body_view(src, head_end, head_end + body_len, json, coding) {
                Err(kind) => Err(kind),
                Ok(body) => Ok(
                    Rest {
                        span: slice_view(src, offset, head_end + body_len),
                        body: Some(body),
                        total_len: head_end + body_len - offset,
                    },
                ),
            }
        }
    } else {
        Ok(Rest { span: slice_view(src, offset, head_end), body: None, total_len: head_end - offset })
    }
}

/// The coding of the body of a response with the given code and headers:
/// none where the code allows no body, whatever the headers say.
pub open spec fn response_coding(code: Seq<u8>, headers: Seq<HeaderView>) -> Option<TransferCoding> {
    match number_in_usize(code, 10) {
        Some(c) if !bodiless(c as int) => transfer_encoding(headers),
        _ => None,
    }
}

/// The request that lies in `src` at `offset`, given the tokens of its head.
pub open spec fn request_view(src: Seq<u8>, offset: int, tokens: RequestTokensView) -> Result<
    RequestView,
    ErrorKind,
> {
    let head_end = offset + tokens.head_len;
    if tokens.head_len <= 0 || head_end > src.len() {
        Err(ErrorKind::MalformedHead)
    } else {
        match (tokens.method, tokens.target) {
            (Some(method), Some(target)) => match request_line_at(
                src,
                after_empty_lines(src, offset),
                head_end,
                method,
                target,
            ) {
                Err(kind) => Err(kind),
                Ok((line, line_end)) => match headers_at(src, line_end, head_end, tokens.headers) {
                    Err(kind) => Err(kind),
                    Ok(headers) => match declared_length(headers, src, head_end, false) {
                        Err(kind) => Err(kind),
                        Ok(body_len) => match rest_of(
                            src,
                            offset,
                            head_end,
                            declares_json(headers),
                            transfer_encoding(headers),
                            body_len,
                        ) {
                            Err(kind) => Err(kind),
                            Ok(rest) => Ok(
                                RequestView {
                                    span: rest.span,
                                    request: line,
                                    headers,
                                    body: rest.body,
                                    total_len: rest.total_len,
                                },
                            ),
                        },
                    },
                },
            },
            _ => Err(ErrorKind::MalformedHead),
        }
    }
}

/// The response that lies in `src` at `offset`, given the tokens of its
/// head.
pub open spec fn response_view(src: Seq<u8>, offset: int, tokens: ResponseTokensView) -> Result<
    ResponseView,
    ErrorKind,
> {
    let head_end = offset + tokens.head_len;
    if tokens.head_len <= 0 || head_end > src.len() {
        Err(ErrorKind::MalformedHead)
    } else {
        match (tokens.code, tokens.reason) {
            (Some(code), Some(reason)) => match status_line_at(
                src,
                after_empty_lines(src, offset),
                head_end,
                code,
                reason,
            ) {
                Err(kind) => Err(kind),
                Ok((line, line_end)) => match headers_at(src, line_end, head_end, tokens.headers) {
                    Err(kind) => Err(kind),
                    Ok(headers) => match response_length(line.code.data, headers, src, head_end) {
                        Err(kind) => Err(kind),
                        Ok(body_len) => match rest_of(
                            src,
                            offset,
                            head_end,
                            declares_json(headers),
                            response_coding(line.code.data, headers),
                            body_len,
                        ) {
                            Err(kind) => Err(kind),
                            Ok(rest) => Ok(
                                ResponseView {
                                    span: rest.span,
                                    status: line,
                                    headers,
                                    body: rest.body,
                                    total_len: rest.total_len,
                                },
                            ),
                        },
                    },
                },
            },
            _ => Err(ErrorKind::MalformedHead),
        }
    }
}

/// The headers of the request that lies in `src` at `offset`, where its
/// head can be read.
pub open spec fn request_headers(src: Seq<u8>, offset: int, tokens: RequestTokensView) -> Seq<
    HeaderView,
> {
    let head_end = offset + tokens.head_len;
    let line_end = request_line_at(
        src,
        after_empty_lines(src, offset),
        head_end,
        tokens.method->0,
        tokens.target->0,
    )->Ok_0.1;
    headers_at(src, line_end, head_end, tokens.headers)->Ok_0
}

/// The headers of the response that lies in `src` at `offset`, where its
/// head can be read.
pub open spec fn response_headers(src: Seq<u8>, offset: int, tokens: ResponseTokensView) -> Seq<
    HeaderView,
> {
    let head_end = offset + tokens.head_len;
    let line_end = status_line_at(
        src,
        after_empty_lines(src, offset),
        head_end,
        tokens.code->0,
        tokens.reason->0,
    )->Ok_0.1;
    headers_at(src, line_end, head_end, tokens.headers)->Ok_0
}

/// The message that refuses the transfer codings of the request that
/// lies in `src` at `offset`.
pub open spec fn request_refusal(
    src: Seq<u8>,
    offset: int,
    outcome: TokenizedView<RequestTokensView>,
) -> Seq<char> {
    match outcome {
        TokenizedView::Complete(tokens) => unsupported_message(request_headers(src, offset, tokens)),
        _ => Seq::<char>::empty(),
    }
}

/// The message that refuses the transfer codings of the response that
/// lies in `src` at `offset`.
pub open spec fn response_refusal(
    src: Seq<u8>,
    offset: int,
    outcome: TokenizedView<ResponseTokensView>,
) -> Seq<char> {
    match outcome {
        TokenizedView::Complete(tokens) => unsupported_message(
            response_headers(src, offset, tokens),
        ),
        _ => Seq::<char>::empty(),
    }
}

/// The request that lies in `src` at `offset`, given what the tokenizer
/// made of `src` from `offset` on.
pub open spec fn request_outcome(
    src: Seq<u8>,
    offset: int,
    outcome: TokenizedView<RequestTokensView>,
) -> Result<RequestView, ErrorKind> {
    match outcome {
        TokenizedView::Complete(tokens) => request_view(src, offset, tokens),
        TokenizedView::Partial => Err(ErrorKind::Incomplete),
        TokenizedView::Rejected(_) => Err(ErrorKind::MalformedHead),
    }
}

/// The response that lies in `src` at `offset`, given what the tokenizer
/// made of `src` from `offset` on.
pub open spec fn response_outcome(
    src: Seq<u8>,
    offset: int,
    outcome: TokenizedView<ResponseTokensView>,
) -> Result<ResponseView, ErrorKind> {
    match outcome {
        TokenizedView::Complete(tokens) => response_view(src, offset, tokens),
        TokenizedView::Partial => Err(ErrorKind::Incomplete),
        TokenizedView::Rejected(_) => Err(ErrorKind::MalformedHead),
    }
}

/// The error of a head that is not one.
fn malformed(message: &str) -> (e: ParseError)
    ensures
        e.kind == ErrorKind::MalformedHead,
{
    ParseError::new(ErrorKind::MalformedHead, message)
}

/// Converts a header of the tokenizer to a `Header`, which it looks up in
/// `src` from `cursor` on. Returns with it the position after its line.
pub fn from_header(src: &Bytes, header: &HeaderTokens, cursor: usize, limit: usize) -> (r: Result<
    (Header, usize),
    ParseError,
>)
    ensures
        match r {
            Ok((found, next)) => {
                &&& header_at(contents(*src), cursor as int, limit as int, header@) == Ok::<
                    (HeaderView, int),
                    ErrorKind,
                >((found@, next as int))
                &&& cursor + 2 <= next <= limit
                &&& next <= contents(*src).len()
            },
            Err(e) => {
                &&& header_at(contents(*src), cursor as int, limit as int, header@) == Err::<
                    (HeaderView, int),
                    ErrorKind,
                >(e.kind)
                &&& e.kind == ErrorKind::MalformedHead || e.kind == ErrorKind::InvalidEncoding
            },
        },
{
    let bytes = as_slice(src);
    let name_start = match find(bytes, header.name.as_slice(), cursor) {
        Some(at) => at,
        None => {
            return Err(malformed("header name is not in the head"));
        },
    };
    proof {
        lemma_first_match(bytes@, header.name@, cursor as int);
    }
    let name_end = name_start + header.name.len();
    let value_from = match name_end.checked_add(1) {
        Some(at) => at,
        None => {
            proof {
                lemma_first_match(bytes@, header.value@, name_end + 1);
            }
            return Err(malformed("header value is not in the head"));
        },
    };
    let value_start = match find(bytes, header.value.as_slice(), value_from) {
        Some(at) => at,
        None => {
            return Err(malformed("header value is not in the head"));
        },
    };
    proof {
        lemma_first_match(bytes@, header.value@, value_from as int);
    }
    let value_end = value_start + header.value.len();
    let line_end = match find_crlf(bytes, value_end) {
        Some(at) => at,
        None => {
            return Err(malformed("header is not terminated with CRLF"));
        },
    };
    proof {
        lemma_first_match(bytes@, crlf(), value_end as int);
    }
    if line_end + 2 > limit {
        return Err(malformed("header is not terminated with CRLF"));
    }
    let name = match StrSpan::new_str(src.clone(), Range { start: name_start, end: name_end }) {
        Ok(span) => span,
        Err(e) => {
            return Err(e);
        },
    };
    let found = Header::new(
        Span::new_bytes(src.clone(), Range { start: name_start, end: line_end + 2 }),
        HeaderName::new(name),
        HeaderValue::new(
            Span::new_bytes(src.clone(), Range { start: value_start, end: value_end }),
        ),
    );
    Ok((found, line_end + 2))
}

/// Looks up the headers of the tokenizer in `src` from `cursor` on.
pub fn locate_headers(src: &Bytes, tokens: &[HeaderTokens], cursor: usize, limit: usize) -> (r: Result<
    Vec<Header>,
    ParseError,
>)
    ensures
        match r {
            Ok(found) => headers_at(
                contents(*src),
                cursor as int,
                limit as int,
                header_token_views(tokens@),
            ) == Ok::<Seq<HeaderView>, ErrorKind>(header_views(found@)),
            Err(e) => {
                &&& headers_at(
                    contents(*src),
                    cursor as int,
                    limit as int,
                    header_token_views(tokens@),
                ) == Err::<Seq<HeaderView>, ErrorKind>(e.kind)
                &&& e.kind == ErrorKind::MalformedHead || e.kind == ErrorKind::InvalidEncoding
            },
        },
{
    let ghost all = header_token_views(tokens@);
    let ghost bytes = contents(*src);
    let mut found: Vec<Header> = Vec::new();
    let mut at: usize = cursor;
    let mut i: usize = 0;
    proof {
        assert(all.skip(0) =~= all);
        match headers_at(bytes, cursor as int, limit as int, all) {
            Ok(rest) => {
                assert(header_views(found@) + rest =~= rest);
            },
            Err(_) => {},
        }
    }
    while i < tokens.len()
        invariant
            i <= tokens.len(),
            all == header_token_views(tokens@),
            bytes == contents(*src),
            headers_at(bytes, cursor as int, limit as int, all) == more_headers(
                header_views(found@),
                headers_at(bytes, at as int, limit as int, all.skip(i as int)),
            ),
        decreases tokens.len() - i,
    {
        let ghost before = header_views(found@);
        let ghost left = all.skip(i as int);
        proof {
            assert(left[0] == tokens@[i as int]@);
            assert(left.drop_first() =~= all.skip(i + 1));
        }
        let (header, next) = match from_header(src, &tokens[i], at, limit) {
            Ok(located) => located,
            Err(e) => {
                return Err(e);
            },
        };
        let ghost view = header@;
        found.push(header);
        proof {
            assert(header_views(found@) =~= before.push(view));
            match headers_at(bytes, next as int, limit as int, all.skip(i + 1)) {
                Ok(rest) => {
                    assert(before + (seq![view] + rest) =~= before.push(view) + rest);
                },
                Err(_) => {},
            }
        }
        at = next;
        i += 1;
    }
    proof {
        assert(all.skip(i as int) =~= Seq::<HeaderTokensView>::empty());
        assert(header_views(found@) + Seq::<HeaderView>::empty() =~= header_views(found@));
    }
    Ok(found)
}

/// Looks up the request line in `src` at `offset`. Returns with it the
/// position after the line.
pub fn locate_request_line(
    src: &Bytes,
    offset: usize,
    limit: usize,
    method: &[u8],
    target: &[u8],
) -> (r: Result<(RequestLine, usize), ParseError>)
    ensures
        match r {
            Ok((line, next)) => request_line_at(
                contents(*src),
                offset as int,
                limit as int,
                method@,
                target@,
            ) == Ok::<(RequestLineView, int), ErrorKind>((line@, next as int)),
            Err(e) => request_line_at(contents(*src), offset as int, limit as int, method@, target@)
                == Err::<(RequestLineView, int), ErrorKind>(e.kind),
        },
{
    let bytes = as_slice(src);
    let line_end = match find_crlf(bytes, offset) {
        Some(at) => at,
        None => {
            return Err(malformed("request line is not terminated with CRLF"));
        },
    };
    proof {
        lemma_first_match(bytes@, crlf(), offset as int);
    }
    if line_end + 2 > limit {
        return Err(malformed("request line is not terminated with CRLF"));
    }
    // The tokenizer hands the method out without its place: it is looked up.
    let method_start = match find(bytes, method, offset) {
        Some(at) => at,
        None => {
            return Err(malformed("method is not in the request line"));
        },
    };
    proof {
        lemma_first_match(bytes@, method@, offset as int);
    }
    let method_end = method_start + method.len();
    if method_end > line_end {
        return Err(malformed("method is not in the request line"));
    }
    let target_start = match find(bytes, target, method_end) {
        Some(at) => at,
        None => {
            return Err(malformed("target is not in the request line"));
        },
    };
    proof {
        lemma_first_match(bytes@, target@, method_end as int);
    }
    let target_end = target_start + target.len();
    if target_end > line_end {
        return Err(malformed("target is not in the request line"));
    }
    let line = match StrSpan::new_str(src.clone(), Range { start: offset, end: line_end + 2 }) {
        Ok(span) => span,
        Err(e) => {
            return Err(e);
        },
    };
    let method = match StrSpan::new_str(src.clone(), Range { start: method_start, end: method_end }) {
        Ok(span) => span,
        Err(e) => {
            return Err(e);
        },
    };
    let target = match StrSpan::new_str(src.clone(), Range { start: target_start, end: target_end }) {
        Ok(span) => span,
        Err(e) => {
            return Err(e);
        },
    };
    Ok((RequestLine::new(line, Method::new(method), Target::new(target)), line_end + 2))
}

/// The three digits that write a status code.
fn digits_of(code: u16) -> (r: [u8; 3])
    requires
        code <= 999,
    ensures
        r@ == code_digits(code as int),
{
    let hundreds: u8 = (code / 100) as u8;
    let tens: u8 = ((code / 10) % 10) as u8;
    let ones: u8 = (code % 10) as u8;
    let digits: [u8; 3] = [48 + hundreds, 48 + tens, 48 + ones];
    assert(digits@ =~= code_digits(code as int));
    digits
}

/// Looks up the status line in `src` at `offset`. Returns with it the
/// position after the line.
pub fn locate_status_line(src: &Bytes, offset: usize, limit: usize, code: u16, reason: &[u8]) -> (r:
    Result<(Status, usize), ParseError>)
    ensures
        match r {
            Ok((line, next)) => status_line_at(
                contents(*src),
                offset as int,
                limit as int,
                code as int,
                reason@,
            ) == Ok::<(StatusView, int), ErrorKind>((line@, next as int)),
            Err(e) => status_line_at(contents(*src), offset as int, limit as int, code as int, reason@)
                == Err::<(StatusView, int), ErrorKind>(e.kind),
        },
{
    let bytes = as_slice(src);
    let line_end = match find_crlf(bytes, offset) {
        Some(at) => at,
        None => {
            return Err(malformed("status line is not terminated with CRLF"));
        },
    };
    proof {
        lemma_first_match(bytes@, crlf(), offset as int);
    }
    if line_end + 2 > limit || code > 999 {
        return Err(malformed("status line is not terminated with CRLF"));
    }
    // The tokenizer hands the code out as a number: its digits are looked up.
    let digits = digits_of(code);
    let code_start = match find(bytes, digits.as_slice(), offset) {
        Some(at) => at,
        None => {
            return Err(malformed("code is not in the status line"));
        },
    };
    proof {
        lemma_first_match(bytes@, digits@, offset as int);
    }
    let code_end = code_start + 3;
    if code_end > line_end {
        return Err(malformed("code is not in the status line"));
    }
    let reason_start = match find(bytes, reason, code_end) {
        Some(at) => at,
        None => {
            return Err(malformed("reason is not in the status line"));
        },
    };
    proof {
        lemma_first_match(bytes@, reason@, code_end as int);
    }
    let reason_end = reason_start + reason.len();
    if reason_end > line_end {
        return Err(malformed("reason is not in the status line"));
    }
    let line = match StrSpan::new_str(src.clone(), Range { start: offset, end: line_end + 2 }) {
        Ok(span) => span,
        Err(e) => {
            return Err(e);
        },
    };
    let code = match StrSpan::new_str(src.clone(), Range { start: code_start, end: code_end }) {
        Ok(span) => span,
        Err(e) => {
            return Err(e);
        },
    };
    let reason = match StrSpan::new_str(src.clone(), Range { start: reason_start, end: reason_end }) {
        Ok(span) => span,
        Err(e) => {
            return Err(e);
        },
    };
    Ok((Status::new(line, Code::new(code), Reason::new(reason)), line_end + 2))
}

/// Calculates the length of the body that the headers declare, where the
/// status of the message allows a body.
fn declared_len(headers: &[Header], src: &Bytes, offset: usize, response: bool) -> (r: Result<
    usize,
    ParseError,
>)
    ensures
        match r {
            Ok(n) => declared_length(header_views(headers@), contents(*src), offset as int, response)
                == Ok::<int, ErrorKind>(n as int),
            Err(e) => {
                &&& declared_length(
                    header_views(headers@),
                    contents(*src),
                    offset as int,
                    response,
                ) == Err::<int, ErrorKind>(e.kind)
                &&& e.kind == ErrorKind::UnsupportedTransferCoding ==> e.message@
                    == unsupported_message(header_views(headers@))
            },
        },
{
    // If a message is received with both a Transfer-Encoding and a
    // Content-Length header field, the Transfer-Encoding overrides the
    // Content-Length.
    if codings_of(headers).is_none() {
        return Err(
            ParseError::new(
                ErrorKind::InvalidEncoding,
                "Invalid UTF-8 when parsing Transfer-Encoding header value",
            ),
        );
    }
    if !is_valid_transfer_encoding(headers) {
        // One coding that is not accepted fails the message, whatever the
        // others are.
        return Err(
            ParseError {
                kind: ErrorKind::UnsupportedTransferCoding,
                message: invalid_transfer_encoding_message(headers),
            },
        );
    }
    let transfer_encoding = transfer_encoding_of(headers);
    if transfer_encoding == Some(TransferCoding::Chunked) {
        // If the message is chunked, the chunked length is the message body length.
        proof {
            lemma_chunk_walk_fails(contents(*src), offset as int);
        }
        return parse_transfer_encoding_chunked_length(src, offset);
    }
    let lengths = headers_named(headers, "Content-Length");
    if lengths.len() > 0 {
        // If a valid Content-Length header field is present without
        // Transfer-Encoding, or with Transfer-Encoding identity, its decimal
        // value defines the expected message body length in octets.
        return parse_content_length(lengths[0]);
    }
    if transfer_encoding == Some(TransferCoding::Identity) {
        return Err(
            ParseError::new(
                ErrorKind::UndeterminableBodyLength,
                "A message with Transfer-Encoding identity must contain a Content-Length header",
            ),
        );
    }
    if response {
        // None of the above is true of a response: only the end of the
        // connection could tell the length of its body.
        return Err(
            ParseError::new(
                ErrorKind::UndeterminableBodyLength,
                "A response with a body must contain either a Content-Length or Transfer-Encoding header",
            ),
        );
    }
    Ok(0)
}

/// Calculates the length of the request body according to RFC 9112, section 6.
pub fn request_body_len(request: &Request, src: &Bytes, offset: usize) -> (r: Result<
    usize,
    ParseError,
>)
    ensures
        match r {
            Ok(n) => declared_length(request@.headers, contents(*src), offset as int, false) == Ok::<
                int,
                ErrorKind,
            >(n as int),
            Err(e) => {
                &&& declared_length(request@.headers, contents(*src), offset as int, false) == Err::<
                    int,
                    ErrorKind,
                >(e.kind)
                &&& e.kind == ErrorKind::UnsupportedTransferCoding ==> e.message@
                    == unsupported_message(request@.headers)
            },
        },
{
    declared_len(request.headers.as_slice(), src, offset, false)
}

/// Whether the status code of a response allows no body: a 1xx
/// (Informational), 204 (No Content), or 304 (Not Modified) response is
/// always terminated by the first empty line after the header fields,
/// regardless of the header fields present in the message.
pub fn allows_no_body(response: &Response) -> (b: bool)
    ensures
        b == (number_in_usize(response@.status.code.data, 10) matches Some(c) && bodiless(c as int)),
{
    match parse_number(response.status.code.as_str().as_bytes(), 10) {
        Some(code) => (100 <= code && code <= 199) || code == 204 || code == 304,
        None => false,
    }
}

/// Calculates the length of the response body according to RFC 9112, section 6.
pub fn response_body_len(response: &Response, src: &Bytes, offset: usize) -> (r: Result<
    usize,
    ParseError,
>)
    ensures
        match r {
            Ok(n) => response_length(
                response@.status.code.data,
                response@.headers,
                contents(*src),
                offset as int,
            ) == Ok::<int, ErrorKind>(n as int),
            Err(e) => {
                &&& response_length(
                    response@.status.code.data,
                    response@.headers,
                    contents(*src),
                    offset as int,
                ) == Err::<int, ErrorKind>(e.kind)
                &&& e.kind == ErrorKind::UnsupportedTransferCoding ==> e.message@
                    == unsupported_message(response@.headers)
            },
        },
{
    // Any response with a 1xx (Informational), 204 (No Content), or 304
    // (Not Modified) status code is always terminated by the first empty
    // line after the header fields, regardless of the header fields present
    // in the message, and thus cannot contain a message body.
    let code = match parse_number(response.status.code.as_str().as_bytes(), 10) {
        Some(code) => code,
        None => {
            return Err(malformed("code is not a number"));
        },
    };
    if (100 <= code && code <= 199) || code == 204 || code == 304 {
        return Ok(0);
    }
    declared_len(response.headers.as_slice(), src, offset, true)
}

/// The positions of a list with one more interval in front.
pub proof fn lemma_covered_prepend(first: (int, int), rest: Seq<(int, int)>)
    ensures
        covered(seq![first] + rest) == covered(seq![first]).union(covered(rest)),
{
    let all = seq![first] + rest;
    assert forall|x: int| covered(all).contains(x) <==> (covered(seq![first]).contains(x)
        || covered(rest).contains(x)) by {
        if covered(all).contains(x) {
            let k = choose|k: int| holds(all, k, x);
            if k == 0 {
                assert(holds(seq![first], 0, x));
            } else {
                assert(holds(rest, k - 1, x));
            }
        }
        if covered(seq![first]).contains(x) {
            let k = choose|k: int| holds(seq![first], k, x);
            assert(holds(all, 0, x));
        }
        if covered(rest).contains(x) {
            let k = choose|k: int| holds(rest, k, x);
            assert(holds(all, k + 1, x));
        }
    }
    assert(covered(all) =~= covered(seq![first]).union(covered(rest)));
}

/// Reads what follows the head of a message: the body, the span of the
/// whole message, and the number of bytes that the message takes up.
pub fn read_rest(
    src: &Bytes,
    offset: usize,
    head_end: usize,
    json: bool,
    transfer_encoding: Option<TransferCoding>,
    body_len: usize,
) -> (r: Result<(Span, Option<Body>, usize), ParseError>)
    requires
        offset < head_end <= contents(*src).len(),
    ensures
        match r {
            Ok((span, body, total_len)) => rest_of(
                contents(*src),
                offset as int,
                head_end as int,
                json,
                transfer_encoding,
                body_len as int,
            ) == Ok::<Rest, ErrorKind>(
                Rest {
                    span: span@,
                    body: match body {
                        Some(b) => Some(b@),
                        None => None,
                    },
                    total_len: total_len as int,
                },
            ),
            Err(e) => {
                &&& rest_of(
                    contents(*src),
                    offset as int,
                    head_end as int,
                    json,
                    transfer_encoding,
                    body_len as int,
                ) == Err::<Rest, ErrorKind>(e.kind)
                &&& e.kind != ErrorKind::UnsupportedTransferCoding
            },
        },
{
    let head = Span::new_bytes(src.clone(), Range { start: offset, end: head_end });
    if transfer_encoding == Some(TransferCoding::Chunked) {
        let (body, end) = match chunked_body_at(src, head_end) {
            Ok(read) => read,
            Err(e) => {
                return Err(e);
            },
        };
        let total_len = end - offset;
        if body_len == 0 {
            return Ok((head, None, total_len));
        }
        // The body does not follow the head at once, nor one chunk the
        // other: the span of the message is the union of them.
        let mut data = BytesMut::new();
        data.extend_from_slice(head.as_bytes());
        data.extend_from_slice(body.span.as_bytes());
        let indices = head.indices().union(body.span.indices());
        let span = Span::from_parts(data.freeze(), indices);
        proof {
            let bytes = contents(*src);
            let walk = chunk_walk(bytes, head_end as int)->Ok_0;
            let first = (offset as int, head_end as int);
            let expected = seq![first] + walk.chunks;
            lemma_chunk_walk(bytes, head_end as int);
            lemma_covered_prepend(first, walk.chunks);
            assert forall|i: int, j: int| 0 <= i < j < expected.len() implies (
            #[trigger] expected[i]).1 < (#[trigger] expected[j]).0 by {
                assert(expected[j] == walk.chunks[j - 1]);
                if i > 0 {
                    assert(expected[i] == walk.chunks[i - 1]);
                }
            }
            assert forall|k: int| 0 <= k < expected.len() implies 0 <= (#[trigger] expected[k]).0
                < expected[k].1 by {
                if k > 0 {
                    assert(expected[k] == walk.chunks[k - 1]);
                }
            }
            lemma_canonical(span@.at, expected);
            assert(span@.data =~= bytes.subrange(offset as int, head_end as int) + body@.span.data);
        }
        return Ok((span, Some(body), total_len));
    }
    if body_len == 0 {
        return Ok((head, None, head_end - offset));
    }
    if body_len > src.len() - head_end {
        return Err(ParseError::new(ErrorKind::RangeOverrun, "body range exceeds source"));
    }
    let end = head_end + body_len;
    let body = match parse_body(src, Range { start: head_end, end }, json, transfer_encoding) {
        Ok(body) => body,
        Err(e) => {
            return Err(e);
        },
    };
    let span = Span::new_bytes(src.clone(), Range { start: offset, end });
    Ok((span, Some(body), end - offset))
}

/// The bytes at a list of intervals with one more interval in front.
pub proof fn lemma_gathered_prepend(src: Seq<u8>, first: (int, int), rest: Seq<(int, int)>)
    ensures
        gathered(src, seq![first] + rest) == src.subrange(first.0, first.1) + gathered(src, rest),
    decreases rest.len(),
{
    let all = seq![first] + rest;
    if rest.len() == 0 {
        assert(all.drop_last() =~= Seq::<(int, int)>::empty());
        assert(all.last() == first);
        assert(gathered(src, all) == gathered(src, all.drop_last()) + src.subrange(first.0, first.1));
        assert(gathered(src, all) =~= src.subrange(first.0, first.1) + gathered(src, rest));
    } else {
        assert(all.drop_last() =~= seq![first] + rest.drop_last());
        assert(all.last() == rest.last());
        lemma_gathered_prepend(src, first, rest.drop_last());
        assert(gathered(src, all) =~= src.subrange(first.0, first.1) + gathered(src, rest));
    }
}

/// The bytes of a slice are the bytes of the source at its positions.
pub proof fn lemma_gathered_slice(src: Seq<u8>, start: int, end: int)
    requires
        0 <= start <= end <= src.len(),
    ensures
        slice_view(src, start, end).data == gathered(src, slice_view(src, start, end).at),
{
    if start < end {
        lemma_gathered_prepend(src, (start, end), Seq::<(int, int)>::empty());
        assert(seq![(start, end)] + Seq::<(int, int)>::empty() =~= seq![(start, end)]);
        assert(src.subrange(start, end) + Seq::<u8>::empty() =~= src.subrange(start, end));
    } else {
        assert(src.subrange(start, end) =~= Seq::<u8>::empty());
    }
}

/// A message takes up its head at least and ends within the source. Its
/// span holds the bytes of the source at the positions of the span; where
/// the message is not chunked, these are the bytes that the message takes
/// up.
pub proof fn lemma_rest_of(
    src: Seq<u8>,
    offset: int,
    head_end: int,
    json: bool,
    coding: Option<TransferCoding>,
    body_len: int,
)
    requires
        0 <= offset < head_end <= src.len(),
        0 <= body_len,
        rest_of(src, offset, head_end, json, coding, body_len) is Ok,
    ensures
        ({
            let rest = rest_of(src, offset, head_end, json, coding, body_len)->Ok_0;
            &&& head_end - offset <= rest.total_len
            &&& offset + rest.total_len <= src.len()
            &&& rest.span.data == gathered(src, rest.span.at)
            &&& coding != Some(TransferCoding::Chunked) ==> rest.span == slice_view(
                src,
                offset,
                offset + rest.total_len,
            )
        }),
{
    if coding == Some(TransferCoding::Chunked) {
        lemma_chunk_walk(src, head_end);
        let walk = chunk_walk(src, head_end)->Ok_0;
        if body_len > 0 {
            lemma_gathered_prepend(src, (offset, head_end), walk.chunks);
        } else {
            lemma_gathered_slice(src, offset, head_end);
        }
    } else if body_len > 0 {
        lemma_gathered_slice(src, offset, head_end + body_len);
    } else {
        lemma_gathered_slice(src, offset, head_end);
    }
}

/// The positions of a slice are those from its start up to its end.
pub proof fn lemma_slice_positions(src: Seq<u8>, start: int, end: int)
    ensures
        slice_view(src, start, end).positions() == span_of(start, end),
{
    let at = slice_view(src, start, end).at;
    assert forall|x: int| covered(at).contains(x) <==> start <= x < end by {
        if covered(at).contains(x) {
            let k = choose|k: int| holds(at, k, x);
        }
        if start <= x < end {
            assert(holds(at, 0, x));
        }
    }
    assert(covered(at) =~= span_of(start, end));
}

/// A header that is found lies between `cursor` and `limit`, and its line
/// holds its name and its value.
pub proof fn lemma_header_at(src: Seq<u8>, cursor: int, limit: int, tokens: HeaderTokensView)
    requires
        0 <= cursor,
        header_at(src, cursor, limit, tokens) is Ok,
    ensures
        header_at(src, cursor, limit, tokens)->Ok_0.0.wf(),
        header_at(src, cursor, limit, tokens)->Ok_0.0.span.positions().subset_of(
            span_of(cursor, limit),
        ),
        cursor + 2 <= header_at(src, cursor, limit, tokens)->Ok_0.1 <= limit,
{
    lemma_first_match(src, tokens.name, cursor);
    let name = first_match(src, tokens.name, cursor)->0;
    lemma_first_match(src, tokens.value, name + tokens.name.len() + 1);
    let value = first_match(src, tokens.value, name + tokens.name.len() + 1)->0;
    lemma_first_match(src, crlf(), value + tokens.value.len());
    let end = first_match(src, crlf(), value + tokens.value.len())->0;
    lemma_slice_positions(src, name, end + 2);
    lemma_slice_positions(src, name, name + tokens.name.len());
    lemma_slice_positions(src, value, value + tokens.value.len());
}

/// The headers that are found lie between `cursor` and `limit`, and the
/// line of each holds its name and its value.
pub proof fn lemma_headers_at(src: Seq<u8>, cursor: int, limit: int, tokens: Seq<HeaderTokensView>)
    requires
        0 <= cursor,
        headers_at(src, cursor, limit, tokens) is Ok,
    ensures
        forall|k: int|
            0 <= k < headers_at(src, cursor, limit, tokens)->Ok_0.len() ==> (#[trigger] headers_at(
                src,
                cursor,
                limit,
                tokens,
            )->Ok_0[k]).wf() && headers_at(src, cursor, limit, tokens)->Ok_0[k].span.positions().subset_of(
                span_of(cursor, limit),
            ),
    decreases tokens.len(),
{
    if tokens.len() > 0 {
        lemma_header_at(src, cursor, limit, tokens[0]);
        let (header, next) = header_at(src, cursor, limit, tokens[0])->Ok_0;
        lemma_headers_at(src, next, limit, tokens.drop_first());
        let rest = headers_at(src, next, limit, tokens.drop_first())->Ok_0;
        let all = headers_at(src, cursor, limit, tokens)->Ok_0;
        assert(all == seq![header] + rest);
        assert forall|k: int| 0 <= k < all.len() implies (#[trigger] all[k]).wf()
            && all[k].span.positions().subset_of(span_of(cursor, limit)) by {
            if k > 0 {
                assert(all[k] == rest[k - 1]);
                assert(rest[k - 1].span.positions().subset_of(span_of(next, limit)));
            }
        }
    }
}

/// A request line that is found lies between `offset` and `limit`, and
/// holds its method and its target.
pub proof fn lemma_request_line_at(
    src: Seq<u8>,
    offset: int,
    limit: int,
    method: Seq<u8>,
    target: Seq<u8>,
)
    requires
        0 <= offset,
        request_line_at(src, offset, limit, method, target) is Ok,
    ensures
        request_line_at(src, offset, limit, method, target)->Ok_0.0.wf(),
        request_line_at(src, offset, limit, method, target)->Ok_0.0.span.positions() == span_of(
            offset,
            request_line_at(src, offset, limit, method, target)->Ok_0.1,
        ),
        offset + 2 <= request_line_at(src, offset, limit, method, target)->Ok_0.1 <= limit,
{
    lemma_first_match(src, crlf(), offset);
    let end = first_match(src, crlf(), offset)->0;
    lemma_first_match(src, method, offset);
    let m = first_match(src, method, offset)->0;
    lemma_first_match(src, target, m + method.len());
    let t = first_match(src, target, m + method.len())->0;
    lemma_slice_positions(src, offset, end + 2);
    lemma_slice_positions(src, m, m + method.len());
    lemma_slice_positions(src, t, t + target.len());
}

/// A status line that is found lies between `offset` and `limit`, and
/// holds its code and its reason.
pub proof fn lemma_status_line_at(src: Seq<u8>, offset: int, limit: int, code: int, reason: Seq<u8>)
    requires
        0 <= offset,
        status_line_at(src, offset, limit, code, reason) is Ok,
    ensures
        status_line_at(src, offset, limit, code, reason)->Ok_0.0.wf(),
        status_line_at(src, offset, limit, code, reason)->Ok_0.0.span.positions() == span_of(
            offset,
            status_line_at(src, offset, limit, code, reason)->Ok_0.1,
        ),
        offset + 2 <= status_line_at(src, offset, limit, code, reason)->Ok_0.1 <= limit,
{
    lemma_first_match(src, crlf(), offset);
    let end = first_match(src, crlf(), offset)->0;
    lemma_first_match(src, code_digits(code), offset);
    let c = first_match(src, code_digits(code), offset)->0;
    lemma_first_match(src, reason, c + 3);
    let r = first_match(src, reason, c + 3)->0;
    lemma_slice_positions(src, offset, end + 2);
    lemma_slice_positions(src, c, c + 3);
    lemma_slice_positions(src, r, r + reason.len());
}

/// The span of a message holds the head of the message and its body.
pub proof fn lemma_rest_holds(
    src: Seq<u8>,
    offset: int,
    head_end: int,
    json: bool,
    coding: Option<TransferCoding>,
    body_len: int,
)
    requires
        0 <= offset < head_end <= src.len(),
        0 <= body_len,
        rest_of(src, offset, head_end, json, coding, body_len) is Ok,
    ensures
        span_of(offset, head_end).subset_of(
            rest_of(src, offset, head_end, json, coding, body_len)->Ok_0.span.positions(),
        ),
        body_positions(rest_of(src, offset, head_end, json, coding, body_len)->Ok_0.body).subset_of(
            rest_of(src, offset, head_end, json, coding, body_len)->Ok_0.span.positions(),
        ),
{
    let rest = rest_of(src, offset, head_end, json, coding, body_len)->Ok_0;
    if coding == Some(TransferCoding::Chunked) {
        let walk = chunk_walk(src, head_end)->Ok_0;
        if body_len > 0 {
            lemma_covered_prepend((offset, head_end), walk.chunks);
            lemma_slice_positions(src, offset, head_end);
            assert(slice_view(src, offset, head_end).at =~= seq![(offset, head_end)]);
        } else {
            lemma_slice_positions(src, offset, head_end);
        }
    } else if body_len > 0 {
        lemma_slice_positions(src, offset, head_end + body_len);
        lemma_slice_positions(src, head_end, head_end + body_len);
    } else {
        lemma_slice_positions(src, offset, head_end);
    }
}

/// The parts of a request that is parsed lie within each other.
pub proof fn lemma_request_view(src: Seq<u8>, offset: int, tokens: RequestTokensView)
    requires
        0 <= offset,
        request_view(src, offset, tokens) is Ok,
    ensures
        request_view(src, offset, tokens)->Ok_0.wf(),
{
    let head_end = offset + tokens.head_len;
    let method = tokens.method->0;
    let target = tokens.target->0;
    lemma_after_empty_lines(src, offset);
    let start = after_empty_lines(src, offset);
    lemma_request_line_at(src, start, head_end, method, target);
    let (line, line_end) = request_line_at(src, start, head_end, method, target)->Ok_0;
    lemma_headers_at(src, line_end, head_end, tokens.headers);
    let headers = headers_at(src, line_end, head_end, tokens.headers)->Ok_0;
    let body_len = declared_length(headers, src, head_end, false)->Ok_0;
    if transfer_encoding(headers) == Some(TransferCoding::Chunked) {
        lemma_chunk_walk(src, head_end);
    }
    lemma_rest_holds(
        src,
        offset,
        head_end,
        declares_json(headers),
        transfer_encoding(headers),
        body_len,
    );
    let view = request_view(src, offset, tokens)->Ok_0;
    assert forall|k: int| 0 <= k < view.headers.len() implies (#[trigger] view.headers[k]).wf()
        && view.headers[k].span.positions().subset_of(view.span.positions()) by {
        assert(headers[k].span.positions().subset_of(span_of(line_end, head_end)));
    }
}

/// The parts of a response that is parsed lie within each other.
pub proof fn lemma_response_view(src: Seq<u8>, offset: int, tokens: ResponseTokensView)
    requires
        0 <= offset,
        response_view(src, offset, tokens) is Ok,
    ensures
        response_view(src, offset, tokens)->Ok_0.wf(),
{
    let head_end = offset + tokens.head_len;
    let code = tokens.code->0;
    let reason = tokens.reason->0;
    lemma_after_empty_lines(src, offset);
    let start = after_empty_lines(src, offset);
    lemma_status_line_at(src, start, head_end, code, reason);
    let (line, line_end) = status_line_at(src, start, head_end, code, reason)->Ok_0;
    lemma_headers_at(src, line_end, head_end, tokens.headers);
    let headers = headers_at(src, line_end, head_end, tokens.headers)->Ok_0;
    let body_len = response_length(line.code.data, headers, src, head_end)->Ok_0;
    if !bodiless(number_in_usize(line.code.data, 10)->0 as int) && transfer_encoding(headers)
        == Some(TransferCoding::Chunked) {
        lemma_chunk_walk(src, head_end);
    }
    lemma_rest_holds(
        src,
        offset,
        head_end,
        declares_json(headers),
        response_coding(line.code.data, headers),
        body_len,
    );
    let view = response_view(src, offset, tokens)->Ok_0;
    assert forall|k: int| 0 <= k < view.headers.len() implies (#[trigger] view.headers[k]).wf()
        && view.headers[k].span.positions().subset_of(view.span.positions()) by {
        assert(headers[k].span.positions().subset_of(span_of(line_end, head_end)));
    }
}

/// The request that lies in `src` at `offset`, given what the tokenizer
/// made of `src` from `offset` on.
pub fn assemble_request(src: &Bytes, offset: usize, outcome: Tokenized<RequestTokens>) -> (r: Result<
    Request,
    ParseError,
>)
    ensures
        match r {
            Ok(request) => {
                &&& offset <= contents(*src).len()
                &&& request_outcome(contents(*src), offset as int, outcome@) == Ok::<
                    RequestView,
                    ErrorKind,
                >(request@)
                &&& 0 < request.total_len
                &&& offset + request.total_len <= contents(*src).len()
                &&& request@.wf()
                &&& request@.span.data == gathered(contents(*src), request@.span.at)
                &&& transfer_encoding(request@.headers) != Some(TransferCoding::Chunked)
                    ==> request@.span == slice_view(
                    contents(*src),
                    offset as int,
                    offset + request.total_len,
                )
            },
            Err(e) => if offset > contents(*src).len() {
                e.kind == ErrorKind::Incomplete
            } else {
                &&& request_outcome(contents(*src), offset as int, outcome@) == Err::<
                    RequestView,
                    ErrorKind,
                >(e.kind)
                &&& outcome matches Tokenized::Rejected(why) ==> e.message@ == why@
                &&& e.kind == ErrorKind::UnsupportedTransferCoding ==> e.message@ == request_refusal(
                    contents(*src),
                    offset as int,
                    outcome@,
                )
            },
        },
{
    if offset > src.len() {
        return Err(ParseError::new(ErrorKind::Incomplete, "incomplete request"));
    }
    let tokens = match outcome {
        Tokenized::Complete(tokens) => tokens,
        Tokenized::Partial => {
            return Err(ParseError::new(ErrorKind::Incomplete, "incomplete request"));
        },
        Tokenized::Rejected(why) => {
            return Err(ParseError { kind: ErrorKind::MalformedHead, message: why });
        },
    };
    if tokens.head_len == 0 || tokens.head_len > src.len() - offset {
        return Err(malformed("head is not in the source"));
    }
    let head_end = offset + tokens.head_len;
    let method = match &tokens.method {
        Some(method) => method,
        None => {
            return Err(malformed("method missing from request"));
        },
    };
    let target = match &tokens.target {
        Some(target) => target,
        None => {
            return Err(malformed("path missing from request"));
        },
    };
    let start = skip_empty_lines(as_slice(src), offset);
    let (line, line_end) = match locate_request_line(
        src,
        start,
        head_end,
        method.as_slice(),
        target.as_slice(),
    ) {
        Ok(located) => located,
        Err(e) => {
            return Err(e);
        },
    };
    let headers = match locate_headers(src, tokens.headers.as_slice(), line_end, head_end) {
        Ok(located) => located,
        Err(e) => {
            return Err(e);
        },
    };
    let mut request = Request {
        span: Span::new_bytes(src.clone(), Range { start: offset, end: head_end }),
        request: line,
        headers,
        body: None,
        total_len: tokens.head_len,
    };
    let body_len = match request_body_len(&request, src, head_end) {
        Ok(n) => n,
        Err(e) => {
            return Err(e);
        },
    };
    let json = is_json(content_type_of(request.headers.as_slice()));
    let transfer_encoding = transfer_encoding_of(request.headers.as_slice());
    let (span, body, total_len) = match read_rest(
        src,
        offset,
        head_end,
        json,
        transfer_encoding,
        body_len,
    ) {
        Ok(rest) => rest,
        Err(e) => {
            return Err(e);
        },
    };
    proof {
        lemma_rest_of(
            contents(*src),
            offset as int,
            head_end as int,
            json,
            transfer_encoding,
            body_len as int,
        );
        lemma_request_view(contents(*src), offset as int, tokens@);
    }
    request.span = span;
    request.body = body;
    request.total_len = total_len;
    Ok(request)
}

/// The response that lies in `src` at `offset`, given what the tokenizer
/// made of `src` from `offset` on.
pub fn assemble_response(src: &Bytes, offset: usize, outcome: Tokenized<ResponseTokens>) -> (r:
    Result<Response, ParseError>)
    ensures
        match r {
            Ok(response) => {
                &&& offset <= contents(*src).len()
                &&& response_outcome(contents(*src), offset as int, outcome@) == Ok::<
                    ResponseView,
                    ErrorKind,
                >(response@)
                &&& 0 < response.total_len
                &&& offset + response.total_len <= contents(*src).len()
                &&& response@.wf()
                &&& response@.span.data == gathered(contents(*src), response@.span.at)
                &&& response_coding(response@.status.code.data, response@.headers) != Some(
                    TransferCoding::Chunked,
                ) ==> response@.span == slice_view(
                    contents(*src),
                    offset as int,
                    offset + response.total_len,
                )
            },
            Err(e) => if offset > contents(*src).len() {
                e.kind == ErrorKind::Incomplete
            } else {
                &&& response_outcome(contents(*src), offset as int, outcome@) == Err::<
                    ResponseView,
                    ErrorKind,
                >(e.kind)
                &&& outcome matches Tokenized::Rejected(why) ==> e.message@ == why@
                &&& e.kind == ErrorKind::UnsupportedTransferCoding ==> e.message@ == response_refusal(
                    contents(*src),
                    offset as int,
                    outcome@,
                )
            },
        },
{
    if offset > src.len() {
        return Err(ParseError::new(ErrorKind::Incomplete, "incomplete response"));
    }
    let tokens = match outcome {
        Tokenized::Complete(tokens) => tokens,
        Tokenized::Partial => {
            return Err(ParseError::new(ErrorKind::Incomplete, "incomplete response"));
        },
        Tokenized::Rejected(why) => {
            return Err(ParseError { kind: ErrorKind::MalformedHead, message: why });
        },
    };
    if tokens.head_len == 0 || tokens.head_len > src.len() - offset {
        return Err(malformed("head is not in the source"));
    }
    let head_end = offset + tokens.head_len;
    let code = match tokens.code {
        Some(code) => code,
        None => {
            return Err(malformed("code missing from response"));
        },
    };
    let reason = match &tokens.reason {
        Some(reason) => reason,
        None => {
            return Err(malformed("reason missing from response"));
        },
    };
    let start = skip_empty_lines(as_slice(src), offset);
    let (line, line_end) = match locate_status_line(src, start, head_end, code, reason.as_slice()) {
        Ok(located) => located,
        Err(e) => {
            return Err(e);
        },
    };
    let headers = match locate_headers(src, tokens.headers.as_slice(), line_end, head_end) {
        Ok(located) => located,
        Err(e) => {
            return Err(e);
        },
    };
    let mut response = Response {
        span: Span::new_bytes(src.clone(), Range { start: offset, end: head_end }),
        status: line,
        headers,
        body: None,
        total_len: tokens.head_len,
    };
    let body_len = match response_body_len(&response, src, head_end) {
        Ok(n) => n,
        Err(e) => {
            return Err(e);
        },
    };
    let json = is_json(content_type_of(response.headers.as_slice()));
    let transfer_encoding = if allows_no_body(&response) {
        None
    } else {
        transfer_encoding_of(response.headers.as_slice())
    };
    let (span, body, total_len) = match read_rest(
        src,
        offset,
        head_end,
        json,
        transfer_encoding,
        body_len,
    ) {
        Ok(rest) => rest,
        Err(e) => {
            return Err(e);
        },
    };
    proof {
        lemma_rest_of(
            contents(*src),
            offset as int,
            head_end as int,
            json,
            transfer_encoding,
            body_len as int,
        );
        lemma_response_view(contents(*src), offset as int, tokens@);
    }
    response.span = span;
    response.body = body;
    response.total_len = total_len;
    Ok(response)
}

/// Parses an HTTP request from a `Bytes` buffer starting from the `offset`.
pub fn parse_request_from_bytes(src: &Bytes, offset: usize) -> (r: Result<Request, ParseError>)
    ensures
        match r {
            Ok(request) => {
                &&& offset <= contents(*src).len()
                &&& request_outcome(
                    contents(*src),
                    offset as int,
                    request_tokens(
                        contents(*src).subrange(offset as int, contents(*src).len() as int),
                        MAX_HEADERS,
                    ),
                ) == Ok::<RequestView, ErrorKind>(request@)
                &&& 0 < request.total_len
                &&& offset + request.total_len <= contents(*src).len()
                &&& request@.wf()
                &&& request@.span.data == gathered(contents(*src), request@.span.at)
                &&& transfer_encoding(request@.headers) != Some(TransferCoding::Chunked)
                    ==> request@.span == slice_view(
                    contents(*src),
                    offset as int,
                    offset + request.total_len,
                )
            },
            Err(e) => if offset > contents(*src).len() {
                e.kind == ErrorKind::Incomplete
            } else {
                &&& request_outcome(
                    contents(*src),
                    offset as int,
                    request_tokens(
                        contents(*src).subrange(offset as int, contents(*src).len() as int),
                        MAX_HEADERS,
                    ),
                ) == Err::<RequestView, ErrorKind>(e.kind)
                &&& e.kind == ErrorKind::UnsupportedTransferCoding ==> e.message@ == request_refusal(
                    contents(*src),
                    offset as int,
                    request_tokens(
                        contents(*src).subrange(offset as int, contents(*src).len() as int),
                        MAX_HEADERS,
                    ),
                )
            },
        },
{
    let bytes = as_slice(src);
    if offset > bytes.len() {
        return Err(ParseError::new(ErrorKind::Incomplete, "incomplete request"));
    }
    let outcome = tokenize_request(slice_subrange(bytes, offset, bytes.len()), MAX_HEADERS);
    assemble_request(src, offset, outcome)
}

/// Parses an HTTP request.
pub fn parse_request(src: &[u8]) -> (r: Result<Request, ParseError>)
    ensures
        match r {
            Ok(request) => {
                &&& request_outcome(src@, 0, request_tokens(src@, MAX_HEADERS)) == Ok::<
                    RequestView,
                    ErrorKind,
                >(request@)
                &&& 0 < request.total_len <= src.len()
                &&& request@.wf()
                &&& request@.span.data == gathered(src@, request@.span.at)
                &&& transfer_encoding(request@.headers) != Some(TransferCoding::Chunked)
                    ==> request@.span == slice_view(src@, 0, request.total_len as int)
            },
            Err(e) => {
                &&& request_outcome(src@, 0, request_tokens(src@, MAX_HEADERS)) == Err::<RequestView, ErrorKind>(
                    e.kind,
                )
                &&& e.kind == ErrorKind::UnsupportedTransferCoding ==> e.message@ == request_refusal(
                    src@,
                    0,
                    request_tokens(src@, MAX_HEADERS),
                )
            },
        },
{
    assert(src@.subrange(0, src@.len() as int) =~= src@);
    parse_request_from_bytes(&Bytes::copy_from_slice(src), 0)
}

/// Parses an HTTP response from a `Bytes` buffer starting from the `offset`.
pub fn parse_response_from_bytes(src: &Bytes, offset: usize) -> (r: Result<Response, ParseError>)
    ensures
        match r {
            Ok(response) => {
                &&& offset <= contents(*src).len()
                &&& response_outcome(
                    contents(*src),
                    offset as int,
                    response_tokens(
                        contents(*src).subrange(offset as int, contents(*src).len() as int),
                        MAX_HEADERS,
                    ),
                ) == Ok::<ResponseView, ErrorKind>(response@)
                &&& 0 < response.total_len
                &&& offset + response.total_len <= contents(*src).len()
                &&& response@.wf()
                &&& response@.span.data == gathered(contents(*src), response@.span.at)
                &&& response_coding(response@.status.code.data, response@.headers) != Some(
                    TransferCoding::Chunked,
                ) ==> response@.span == slice_view(
                    contents(*src),
                    offset as int,
                    offset + response.total_len,
                )
            },
            Err(e) => if offset > contents(*src).len() {
                e.kind == ErrorKind::Incomplete
            } else {
                &&& response_outcome(
                    contents(*src),
                    offset as int,
                    response_tokens(
                        contents(*src).subrange(offset as int, contents(*src).len() as int),
                        MAX_HEADERS,
                    ),
                ) == Err::<ResponseView, ErrorKind>(e.kind)
                &&& e.kind == ErrorKind::UnsupportedTransferCoding ==> e.message@ == response_refusal(
                    contents(*src),
                    offset as int,
                    response_tokens(
                        contents(*src).subrange(offset as int, contents(*src).len() as int),
                        MAX_HEADERS,
                    ),
                )
            },
        },
{
    let bytes = as_slice(src);
    if offset > bytes.len() {
        return Err(ParseError::new(ErrorKind::Incomplete, "incomplete response"));
    }
    let outcome = tokenize_response(slice_subrange(bytes, offset, bytes.len()), MAX_HEADERS);
    assemble_response(src, offset, outcome)
}

/// Parses an HTTP response.
pub fn parse_response(src: &[u8]) -> (r: Result<Response, ParseError>)
    ensures
        match r {
            Ok(response) => {
                &&& response_outcome(src@, 0, response_tokens(src@, MAX_HEADERS)) == Ok::<
                    ResponseView,
                    ErrorKind,
                >(response@)
                &&& 0 < response.total_len <= src.len()
                &&& response@.wf()
                &&& response@.span.data == gathered(src@, response@.span.at)
                &&& response_coding(response@.status.code.data, response@.headers) != Some(
                    TransferCoding::Chunked,
                ) ==> response@.span == slice_view(src@, 0, response.total_len as int)
            },
            Err(e) => {
                &&& response_outcome(src@, 0, response_tokens(src@, MAX_HEADERS)) == Err::<ResponseView, ErrorKind>(
                    e.kind,
                )
                &&& e.kind == ErrorKind::UnsupportedTransferCoding ==> e.message@ == response_refusal(
                    src@,
                    0,
                    response_tokens(src@, MAX_HEADERS),
                )
            },
        },
{
    assert(src@.subrange(0, src@.len() as int) =~= src@);
    parse_response_from_bytes(&Bytes::copy_from_slice(src), 0)
}

} // verus!
