//! JSON bodies.
//!
//! Whether a text is well-formed JSON is decided by `serde_json`. A value is
//! kept as the span of its text.

use crate::buffer::contents;
use crate::error::{ErrorKind, ParseError};
use crate::span::{SpanView, StrSpan};
use bytes::Bytes;
use std::ops::Range;
use vstd::prelude::*;
use vstd::utf8::valid_utf8;

verus! {

/// Whether `serde_json` reads the text as one JSON value with nothing
/// after it.
pub uninterp spec fn well_formed(text: Seq<u8>) -> bool;

/// `serde_json::from_slice` into a `serde_json::Value`: whether it succeeds.
#[verifier::external_body]
pub(crate) fn is_well_formed(text: &[u8]) -> (ok: bool)
    ensures
        ok == well_formed(text@),
{
    serde_json::from_slice::<serde_json::Value>(text).is_ok()
}

/// A JSON value: the span of its text.
#[derive(Debug, PartialEq, Eq)]
pub struct JsonValue {
    span: StrSpan,
}

impl View for JsonValue {
    type V = SpanView;

    closed spec fn view(&self) -> SpanView {
        self.span@
    }
}

impl Clone for JsonValue {
    fn clone(&self) -> (r: JsonValue)
        ensures
            r@ == self@,
    {
        JsonValue { span: self.span.clone() }
    }
}

impl JsonValue {
    /// The span of the value.
    pub fn span(&self) -> (r: &StrSpan)
        ensures
            r.wf(),
            r@ == self@,
    {
        let _ = self.span.as_bytes();
        &self.span
    }

    /// Moves every position of the value up by `offset`.
    pub fn offset(&mut self, offset: usize)
        requires
            old(self)@.upper() + offset <= usize::MAX,
        ensures
            final(self)@ == old(self)@.shifted(offset as int),
    {
        let mut span = self.span.clone();
        span.offset(offset);
        self.span = span;
    }
}

/// The value that a text is, given whether the text was found well formed.
pub fn judged(span: StrSpan, accepted: bool) -> (r: Result<JsonValue, ParseError>)
    ensures
        match r {
            Ok(value) => accepted && value@ == span@,
            Err(e) => !accepted && e.kind == ErrorKind::SubParse,
        },
{
    if accepted {
        Ok(JsonValue { span })
    } else {
        Err(ParseError::new(ErrorKind::SubParse, "body is not well-formed JSON"))
    }
}

/// Reads the bytes of `src` in `range` as one JSON value.
pub fn parse_in(src: Bytes, range: Range<usize>) -> (r: Result<JsonValue, ParseError>)
    requires
        range.start <= range.end <= contents(src).len(),
    ensures
        match r {
            Ok(value) => {
                &&& valid_utf8(contents(src).subrange(range.start as int, range.end as int))
                &&& well_formed(contents(src).subrange(range.start as int, range.end as int))
                &&& value@.is_slice(contents(src), range.start as int, range.end as int)
            },
            Err(e) => if valid_utf8(
                contents(src).subrange(range.start as int, range.end as int),
            ) {
                &&& e.kind == ErrorKind::SubParse
                &&& !well_formed(contents(src).subrange(range.start as int, range.end as int))
            } else {
                e.kind == ErrorKind::InvalidEncoding
            },
        },
{
    let span = match StrSpan::new_str(src, range) {
        Ok(span) => span,
        Err(e) => {
            return Err(e);
        },
    };
    let accepted = is_well_formed(span.as_bytes());
    judged(span, accepted)
}

/// Reads a buffer as one JSON value.
pub fn parse(src: Bytes) -> (r: Result<JsonValue, ParseError>)
    ensures
        match r {
            Ok(value) => {
                &&& valid_utf8(contents(src))
                &&& well_formed(contents(src))
                &&& value@.is_slice(contents(src), 0, contents(src).len() as int)
            },
            Err(e) => if valid_utf8(contents(src)) {
                e.kind == ErrorKind::SubParse && !well_formed(contents(src))
            } else {
                e.kind == ErrorKind::InvalidEncoding
            },
        },
{
    let end = src.len();
    assert(contents(src).subrange(0, end as int) =~= contents(src));
    parse_in(src, Range { start: 0, end })
}

} // verus!
