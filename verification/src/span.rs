//! Spans: parsed bytes together with the transcript positions they came from.

use crate::buffer::{as_slice, contents, window};
use crate::error::{ErrorKind, ParseError};
use crate::range::{covered, normalized, shifted, upper, RangeSet};
use crate::text::utf8_str;
use bytes::Bytes;
use std::ops::Range;
use vstd::prelude::*;
use vstd::string::StringSliceAdditionalSpecFns;
use vstd::utf8::valid_utf8;

verus! {

/// What a span is: its bytes, and the intervals of transcript positions
/// that produced them, in ascending order.
pub struct SpanView {
    pub data: Seq<u8>,
    pub at: Seq<(int, int)>,
}

impl SpanView {
    /// The span moved up by `delta` positions; the bytes stay.
    pub open spec fn shifted(self, delta: int) -> SpanView {
        SpanView { data: self.data, at: shifted(self.at, delta) }
    }

    /// The end of the last interval, 0 where there is none.
    pub open spec fn upper(self) -> int {
        upper(self.at)
    }

    /// The positions of the span.
    pub open spec fn positions(self) -> Set<int> {
        covered(self.at)
    }

    /// Whether the span is the bytes of `src` from `start` up to `end`,
    /// at those positions.
    pub open spec fn is_slice(self, src: Seq<u8>, start: int, end: int) -> bool {
        &&& self.data == src.subrange(start, end)
        &&& self.at == if start < end {
            seq![(start, end)]
        } else {
            Seq::<(int, int)>::empty()
        }
    }
}

/// The bytes of `src` at the given intervals, interval after interval.
pub open spec fn gathered(src: Seq<u8>, at: Seq<(int, int)>) -> Seq<u8>
    decreases at.len(),
{
    if at.len() == 0 {
        Seq::<u8>::empty()
    } else {
        gathered(src, at.drop_last()) + src.subrange(at.last().0, at.last().1)
    }
}

/// A span of bytes.
#[derive(Debug, PartialEq, Eq)]
pub struct Span {
    data: Bytes,
    indices: RangeSet,
}

impl View for Span {
    type V = SpanView;

    closed spec fn view(&self) -> SpanView {
        SpanView { data: contents(self.data), at: self.indices.intervals() }
    }
}

impl Clone for Span {
    fn clone(&self) -> (r: Span)
        ensures
            r@ == self@,
    {
        Span { data: self.data.clone(), indices: self.indices.clone() }
    }
}

impl Span {
    /// What holds of every span: its intervals are canonical and fit `usize`.
    pub open spec fn wf(&self) -> bool {
        normalized(self@.at) && self@.upper() <= usize::MAX
    }

    /// The span of the bytes of `src` in `range`.
    pub fn new_bytes(src: Bytes, range: Range<usize>) -> (r: Span)
        requires
            range.start <= range.end <= contents(src).len(),
        ensures
            r.wf(),
            r@.is_slice(contents(src), range.start as int, range.end as int),
    {
        let data = window(&src, range.start, range.end);
        let indices = RangeSet::from_range(range);
        Span { data, indices }
    }

    /// A span of the given bytes at the given positions.
    pub fn from_parts(data: Bytes, indices: RangeSet) -> (r: Span)
        ensures
            r.wf(),
            r@.data == contents(data),
            r@.at == indices.intervals(),
    {
        proof {
            use_type_invariant(&indices);
        }
        Span { data, indices }
    }

    /// The bytes of the span.
    pub fn as_bytes(&self) -> (r: &[u8])
        ensures
            r@ == self@.data,
    {
        as_slice(&self.data)
    }

    /// The buffer that holds the bytes of the span.
    pub fn data(&self) -> (r: &Bytes)
        ensures
            contents(*r) == self@.data,
    {
        &self.data
    }

    /// The positions of the span.
    pub fn indices(&self) -> (r: &RangeSet)
        ensures
            self.wf(),
            r.wf(),
            r.intervals() == self@.at,
            r@ == self@.positions(),
    {
        proof {
            use_type_invariant(&self.indices);
        }
        &self.indices
    }

    /// The positions of the span, as a set of its own.
    pub fn to_range_set(&self) -> (r: RangeSet)
        ensures
            r.wf(),
            r.intervals() == self@.at,
            r@ == self@.positions(),
    {
        self.indices.clone()
    }

    /// The number of bytes of the span.
    pub fn len(&self) -> (n: usize)
        ensures
            n == self@.data.len(),
    {
        self.data.len()
    }

    /// Whether the span holds no byte.
    pub fn is_empty(&self) -> (b: bool)
        ensures
            b == (self@.data.len() == 0),
    {
        self.data.len() == 0
    }

    /// Moves every position of the span up by `offset`; the bytes stay.
    pub fn offset(&mut self, offset: usize)
        requires
            old(self)@.upper() + offset <= usize::MAX,
        ensures
            final(self).wf(),
            final(self)@ == old(self)@.shifted(offset as int),
    {
        self.indices.shift(offset);
    }
}

/// A span of text: a span whose bytes are valid UTF-8.
#[derive(Debug, PartialEq, Eq)]
pub struct StrSpan {
    span: Span,
}

impl View for StrSpan {
    type V = SpanView;

    closed spec fn view(&self) -> SpanView {
        self.span@
    }
}

impl Clone for StrSpan {
    fn clone(&self) -> (r: StrSpan)
        ensures
            r@ == self@,
    {
        proof {
            use_type_invariant(self);
        }
        StrSpan { span: self.span.clone() }
    }
}

impl StrSpan {
    /// What holds of every value of the type.
    #[verifier::type_invariant]
    pub open spec fn inv(&self) -> bool {
        valid_utf8(self@.data)
    }

    /// What holds of every span of text: its bytes are valid UTF-8, its
    /// intervals are canonical and fit `usize`.
    pub open spec fn wf(&self) -> bool {
        valid_utf8(self@.data) && normalized(self@.at) && self@.upper() <= usize::MAX
    }

    /// The span of the bytes of `src` in `range`, which have to be UTF-8.
    pub fn new_str(src: Bytes, range: Range<usize>) -> (r: Result<StrSpan, ParseError>)
        requires
            range.start <= range.end <= contents(src).len(),
        ensures
            match r {
                Ok(span) => {
                    &&& span.wf()
                    &&& span@.is_slice(contents(src), range.start as int, range.end as int)
                },
                Err(e) => {
                    &&& e.kind == ErrorKind::InvalidEncoding
                    &&& !valid_utf8(contents(src).subrange(range.start as int, range.end as int))
                },
            },
    {
        let span = Span::new_bytes(src, range);
        match utf8_str(span.as_bytes()) {
            Some(_) => Ok(StrSpan { span }),
            None => Err(ParseError::new(ErrorKind::InvalidEncoding, "span is not valid UTF-8")),
        }
    }

    /// The text of the span.
    pub fn as_str(&self) -> (r: &str)
        ensures
            self.wf(),
            r.spec_bytes() == self@.data,
    {
        proof {
            use_type_invariant(self);
        }
        let _ = self.span.indices();
        match utf8_str(self.span.as_bytes()) {
            Some(s) => s,
            None => "",
        }
    }

    /// The bytes of the span.
    pub fn as_bytes(&self) -> (r: &[u8])
        ensures
            self.wf(),
            r@ == self@.data,
    {
        proof {
            use_type_invariant(self);
        }
        let _ = self.span.indices();
        self.span.as_bytes()
    }

    /// The span as a span of bytes.
    pub fn span(&self) -> (r: &Span)
        ensures
            self.wf(),
            r@ == self@,
    {
        proof {
            use_type_invariant(self);
        }
        let _ = self.span.indices();
        &self.span
    }

    /// The positions of the span.
    pub fn indices(&self) -> (r: &RangeSet)
        ensures
            r.wf(),
            r.intervals() == self@.at,
            r@ == self@.positions(),
    {
        self.span.indices()
    }

    /// The positions of the span, as a set of its own.
    pub fn to_range_set(&self) -> (r: RangeSet)
        ensures
            r.wf(),
            r.intervals() == self@.at,
            r@ == self@.positions(),
    {
        self.span.to_range_set()
    }

    /// Moves every position of the span up by `offset`; the text stays.
    pub fn offset(&mut self, offset: usize)
        requires
            old(self)@.upper() + offset <= usize::MAX,
        ensures
            final(self).wf(),
            final(self)@ == old(self)@.shifted(offset as int),
    {
        proof {
            use_type_invariant(&*self);
        }
        let mut span = self.span.clone();
        span.offset(offset);
        self.span = span;
    }
}

/// Moving a span up by `a` and then by `b` is moving it up by `a + b`.
pub proof fn lemma_offset_twice(span: SpanView, a: int, b: int)
    ensures
        span.shifted(a).shifted(b) == span.shifted(a + b),
{
    crate::range::lemma_shifted_twice(span.at, a, b);
}

} // verus!
