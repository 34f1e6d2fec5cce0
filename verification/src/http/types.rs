//! The parts of an HTTP message, each with the positions it came from.

use crate::buffer::{contents, gathering};
use crate::json::JsonValue;
use crate::range::difference::Difference;
use crate::range::union::UnionMut;
use crate::range::RangeSet;
use crate::span::{Span, SpanView, StrSpan};
use crate::text::{eq_ignore_ascii_case, same_ignoring_case};
use bytes::{Bytes, BytesMut};
use vstd::prelude::*;
use vstd::string::StringSliceAdditionalSpecFns;
use vstd::utf8::valid_utf8;

verus! {

/// An HTTP header name.
#[derive(Debug, PartialEq, Eq)]
pub struct HeaderName(pub(crate) StrSpan);

impl View for HeaderName {
    type V = SpanView;

    closed spec fn view(&self) -> SpanView {
        self.0@
    }
}

impl Clone for HeaderName {
    fn clone(&self) -> (r: HeaderName)
        ensures
            r@ == self@,
    {
        HeaderName(self.0.clone())
    }
}

impl HeaderName {
    /// The header name that a span of text is.
    pub fn new(span: StrSpan) -> (r: HeaderName)
        ensures
            r@ == span@,
    {
        HeaderName(span)
    }

    /// Returns the header name as a string slice.
    pub fn as_str(&self) -> (r: &str)
        ensures
            valid_utf8(self@.data),
            r.spec_bytes() == self@.data,
    {
        self.0.as_str()
    }

    /// Shifts the span range by the given offset.
    pub fn offset(&mut self, offset: usize)
        requires
            old(self)@.upper() + offset <= usize::MAX,
        ensures
            final(self)@ == old(self)@.shifted(offset as int),
    {
        self.0.offset(offset);
    }

    /// The span of the header name.
    pub fn span(&self) -> (r: &StrSpan)
        ensures
            r.wf(),
            r@ == self@,
    {
        let _ = self.0.as_bytes();
        &self.0
    }

    /// The positions of the header name.
    pub fn to_range_set(&self) -> (r: RangeSet)
        ensures
            r.wf(),
            r.intervals() == self@.at,
    {
        self.0.to_range_set()
    }
}

/// An HTTP header value.
#[derive(Debug, PartialEq, Eq)]
pub struct HeaderValue(pub(crate) Span);

impl View for HeaderValue {
    type V = SpanView;

    closed spec fn view(&self) -> SpanView {
        self.0@
    }
}

impl Clone for HeaderValue {
    fn clone(&self) -> (r: HeaderValue)
        ensures
            r@ == self@,
    {
        HeaderValue(self.0.clone())
    }
}

impl HeaderValue {
    /// The header value that a span is.
    pub fn new(span: Span) -> (r: HeaderValue)
        ensures
            r@ == span@,
    {
        HeaderValue(span)
    }

    /// Returns the header value as a byte slice.
    pub fn as_bytes(&self) -> (r: &[u8])
        ensures
            r@ == self@.data,
    {
        self.0.as_bytes()
    }

    /// Shifts the span range by the given offset.
    pub fn offset(&mut self, offset: usize)
        requires
            old(self)@.upper() + offset <= usize::MAX,
        ensures
            final(self)@ == old(self)@.shifted(offset as int),
    {
        self.0.offset(offset);
    }

    /// The span of the header value.
    pub fn span(&self) -> (r: &Span)
        ensures
            r.wf(),
            r@ == self@,
    {
        let _ = self.0.indices();
        &self.0
    }

    /// The positions of the header value.
    pub fn to_range_set(&self) -> (r: RangeSet)
        ensures
            r.wf(),
            r.intervals() == self@.at,
    {
        self.0.to_range_set()
    }
}

/// What a header is: the span of its whole line, of its name and of its value.
pub struct HeaderView {
    pub span: SpanView,
    pub name: SpanView,
    pub value: SpanView,
}

impl HeaderView {
    /// The header moved up by `delta` positions.
    pub open spec fn shifted(self, delta: int) -> HeaderView {
        HeaderView {
            span: self.span.shifted(delta),
            name: self.name.shifted(delta),
            value: self.value.shifted(delta),
        }
    }

    /// Whether the header can move up by `delta` within `usize`.
    pub open spec fn shiftable(self, delta: int) -> bool {
        &&& self.span.upper() + delta <= usize::MAX
        &&& self.name.upper() + delta <= usize::MAX
        &&& self.value.upper() + delta <= usize::MAX
    }

    /// Whether the line holds the positions of the name and of the value.
    pub open spec fn wf(self) -> bool {
        &&& self.name.positions().subset_of(self.span.positions())
        &&& self.value.positions().subset_of(self.span.positions())
    }
}

/// An HTTP header, including optional whitespace and the trailing CRLF.
#[derive(Debug, PartialEq, Eq)]
pub struct Header {
    /// The span of the whole header line.
    pub span: Span,
    /// The header name.
    pub name: HeaderName,
    /// The header value.
    pub value: HeaderValue,
}

impl View for Header {
    type V = HeaderView;

    open spec fn view(&self) -> HeaderView {
        HeaderView { span: self.span@, name: self.name@, value: self.value@ }
    }
}

impl Clone for Header {
    fn clone(&self) -> (r: Header)
        ensures
            r@ == self@,
    {
        Header { span: self.span.clone(), name: self.name.clone(), value: self.value.clone() }
    }
}

impl Header {
    /// The header that is made of the given spans.
    pub fn new(span: Span, name: HeaderName, value: HeaderValue) -> (r: Header)
        ensures
            r@ == (HeaderView { span: span@, name: name@, value: value@ }),
    {
        Header { span, name, value }
    }

    /// Returns the indices of the header excluding the value.
    ///
    /// The indices will include any optional whitespace and the CRLF.
    pub fn without_value(&self) -> (r: RangeSet)
        ensures
            r.wf(),
            r@ == self@.span.positions().difference(self@.value.positions()),
    {
        self.span.indices().difference(self.value.span().indices())
    }

    /// Shifts the span range by the given offset.
    pub fn offset(&mut self, offset: usize)
        requires
            old(self)@.shiftable(offset as int),
        ensures
            final(self)@ == old(self)@.shifted(offset as int),
    {
        self.span.offset(offset);
        self.name.offset(offset);
        self.value.offset(offset);
    }

    /// The span of the whole header line.
    pub fn span(&self) -> (r: &Span)
        ensures
            r.wf(),
            r@ == self@.span,
    {
        let _ = self.span.indices();
        &self.span
    }

    /// The positions of the whole header line.
    pub fn to_range_set(&self) -> (r: RangeSet)
        ensures
            r.wf(),
            r.intervals() == self@.span.at,
    {
        self.span.to_range_set()
    }
}

/// An HTTP request method.
#[derive(Debug, PartialEq, Eq)]
pub struct Method(pub(crate) StrSpan);

impl View for Method {
    type V = SpanView;

    closed spec fn view(&self) -> SpanView {
        self.0@
    }
}

impl Clone for Method {
    fn clone(&self) -> (r: Method)
        ensures
            r@ == self@,
    {
        Method(self.0.clone())
    }
}

impl Method {
    /// The method that a span of text is.
    pub fn new(span: StrSpan) -> (r: Method)
        ensures
            r@ == span@,
    {
        Method(span)
    }

    /// Returns the method as a string slice.
    pub fn as_str(&self) -> (r: &str)
        ensures
            valid_utf8(self@.data),
            r.spec_bytes() == self@.data,
    {
        self.0.as_str()
    }

    /// Shifts the span range by the given offset.
    pub fn offset(&mut self, offset: usize)
        requires
            old(self)@.upper() + offset <= usize::MAX,
        ensures
            final(self)@ == old(self)@.shifted(offset as int),
    {
        self.0.offset(offset);
    }

    /// The span of the method.
    pub fn span(&self) -> (r: &StrSpan)
        ensures
            r.wf(),
            r@ == self@,
    {
        let _ = self.0.as_bytes();
        &self.0
    }

    /// The positions of the method.
    pub fn to_range_set(&self) -> (r: RangeSet)
        ensures
            r.wf(),
            r.intervals() == self@.at,
    {
        self.0.to_range_set()
    }
}

/// An HTTP request target.
#[derive(Debug, PartialEq, Eq)]
pub struct Target(pub(crate) StrSpan);

impl View for Target {
    type V = SpanView;

    closed spec fn view(&self) -> SpanView {
        self.0@
    }
}

impl Clone for Target {
    fn clone(&self) -> (r: Target)
        ensures
            r@ == self@,
    {
        Target(self.0.clone())
    }
}

impl Target {
    /// The target that a span of text is.
    pub fn new(span: StrSpan) -> (r: Target)
        ensures
            r@ == span@,
    {
        Target(span)
    }

    /// Returns the target as a string slice.
    pub fn as_str(&self) -> (r: &str)
        ensures
            valid_utf8(self@.data),
            r.spec_bytes() == self@.data,
    {
        self.0.as_str()
    }

    /// Shifts the span range by the given offset.
    pub fn offset(&mut self, offset: usize)
        requires
            old(self)@.upper() + offset <= usize::MAX,
        ensures
            final(self)@ == old(self)@.shifted(offset as int),
    {
        self.0.offset(offset);
    }

    /// The span of the target.
    pub fn span(&self) -> (r: &StrSpan)
        ensures
            r.wf(),
            r@ == self@,
    {
        let _ = self.0.as_bytes();
        &self.0
    }

    /// The positions of the target.
    pub fn to_range_set(&self) -> (r: RangeSet)
        ensures
            r.wf(),
            r.intervals() == self@.at,
    {
        self.0.to_range_set()
    }
}

/// What a request line is: the span of the line, of its method and of its
/// target.
pub struct RequestLineView {
    pub span: SpanView,
    pub method: SpanView,
    pub target: SpanView,
}

impl RequestLineView {
    /// The request line moved up by `delta` positions.
    pub open spec fn shifted(self, delta: int) -> RequestLineView {
        RequestLineView {
            span: self.span.shifted(delta),
            method: self.method.shifted(delta),
            target: self.target.shifted(delta),
        }
    }

    /// Whether the request line can move up by `delta` within `usize`.
    pub open spec fn shiftable(self, delta: int) -> bool {
        &&& self.span.upper() + delta <= usize::MAX
        &&& self.method.upper() + delta <= usize::MAX
        &&& self.target.upper() + delta <= usize::MAX
    }

    /// Whether the line holds the positions of the method and of the target.
    pub open spec fn wf(self) -> bool {
        &&& self.method.positions().subset_of(self.span.positions())
        &&& self.target.positions().subset_of(self.span.positions())
    }
}

/// An HTTP request line, including the trailing CRLF.
#[derive(Debug, PartialEq, Eq)]
pub struct RequestLine {
    /// The span of the whole line.
    pub span: StrSpan,
    /// The request method.
    pub method: Method,
    /// The request target.
    pub target: Target,
}

impl View for RequestLine {
    type V = RequestLineView;

    open spec fn view(&self) -> RequestLineView {
        RequestLineView { span: self.span@, method: self.method@, target: self.target@ }
    }
}

impl Clone for RequestLine {
    fn clone(&self) -> (r: RequestLine)
        ensures
            r@ == self@,
    {
        RequestLine {
            span: self.span.clone(),
            method: self.method.clone(),
            target: self.target.clone(),
        }
    }
}

impl RequestLine {
    /// The request line that is made of the given spans.
    pub fn new(span: StrSpan, method: Method, target: Target) -> (r: RequestLine)
        ensures
            r@ == (RequestLineView { span: span@, method: method@, target: target@ }),
    {
        RequestLine { span, method, target }
    }

    /// Returns the indices of the request line excluding the request target.
    pub fn without_target(&self) -> (r: RangeSet)
        ensures
            r.wf(),
            r@ == self@.span.positions().difference(self@.target.positions()),
    {
        self.span.indices().difference(self.target.span().indices())
    }

    /// Shifts the span range by the given offset.
    pub fn offset(&mut self, offset: usize)
        requires
            old(self)@.shiftable(offset as int),
        ensures
            final(self)@ == old(self)@.shifted(offset as int),
    {
        self.span.offset(offset);
        self.method.offset(offset);
        self.target.offset(offset);
    }

    /// The span of the whole request line.
    pub fn span(&self) -> (r: &StrSpan)
        ensures
            r.wf(),
            r@ == self@.span,
    {
        let _ = self.span.as_bytes();
        &self.span
    }

    /// The positions of the whole request line.
    pub fn to_range_set(&self) -> (r: RangeSet)
        ensures
            r.wf(),
            r.intervals() == self@.span.at,
    {
        self.span.to_range_set()
    }
}

/// An HTTP response code.
#[derive(Debug, PartialEq, Eq)]
pub struct Code(pub(crate) StrSpan);

impl View for Code {
    type V = SpanView;

    closed spec fn view(&self) -> SpanView {
        self.0@
    }
}

impl Clone for Code {
    fn clone(&self) -> (r: Code)
        ensures
            r@ == self@,
    {
        Code(self.0.clone())
    }
}

impl Code {
    /// The response code that a span of text is.
    pub fn new(span: StrSpan) -> (r: Code)
        ensures
            r@ == span@,
    {
        Code(span)
    }

    /// Returns the response code as a string slice.
    pub fn as_str(&self) -> (r: &str)
        ensures
            valid_utf8(self@.data),
            r.spec_bytes() == self@.data,
    {
        self.0.as_str()
    }

    /// Shifts the span range by the given offset.
    pub fn offset(&mut self, offset: usize)
        requires
            old(self)@.upper() + offset <= usize::MAX,
        ensures
            final(self)@ == old(self)@.shifted(offset as int),
    {
        self.0.offset(offset);
    }

    /// The span of the response code.
    pub fn span(&self) -> (r: &StrSpan)
        ensures
            r.wf(),
            r@ == self@,
    {
        let _ = self.0.as_bytes();
        &self.0
    }

    /// The positions of the response code.
    pub fn to_range_set(&self) -> (r: RangeSet)
        ensures
            r.wf(),
            r.intervals() == self@.at,
    {
        self.0.to_range_set()
    }
}

/// An HTTP response reason phrase.
#[derive(Debug, PartialEq, Eq)]
pub struct Reason(pub(crate) StrSpan);

impl View for Reason {
    type V = SpanView;

    closed spec fn view(&self) -> SpanView {
        self.0@
    }
}

impl Clone for Reason {
    fn clone(&self) -> (r: Reason)
        ensures
            r@ == self@,
    {
        Reason(self.0.clone())
    }
}

impl Reason {
    /// The reason phrase that a span of text is.
    pub fn new(span: StrSpan) -> (r: Reason)
        ensures
            r@ == span@,
    {
        Reason(span)
    }

    /// Returns the response reason phrase as a string slice.
    pub fn as_str(&self) -> (r: &str)
        ensures
            valid_utf8(self@.data),
            r.spec_bytes() == self@.data,
    {
        self.0.as_str()
    }

    /// Shifts the span range by the given offset.
    pub fn offset(&mut self, offset: usize)
        requires
            old(self)@.upper() + offset <= usize::MAX,
        ensures
            final(self)@ == old(self)@.shifted(offset as int),
    {
        self.0.offset(offset);
    }

    /// The span of the reason phrase.
    pub fn span(&self) -> (r: &StrSpan)
        ensures
            r.wf(),
            r@ == self@,
    {
        let _ = self.0.as_bytes();
        &self.0
    }

    /// The positions of the reason phrase.
    pub fn to_range_set(&self) -> (r: RangeSet)
        ensures
            r.wf(),
            r.intervals() == self@.at,
    {
        self.0.to_range_set()
    }
}

/// What a status line is: the span of the line, of its code and of its
/// reason phrase.
pub struct StatusView {
    pub span: SpanView,
    pub code: SpanView,
    pub reason: SpanView,
}

impl StatusView {
    /// The status line moved up by `delta` positions.
    pub open spec fn shifted(self, delta: int) -> StatusView {
        StatusView {
            span: self.span.shifted(delta),
            code: self.code.shifted(delta),
            reason: self.reason.shifted(delta),
        }
    }

    /// Whether the status line can move up by `delta` within `usize`.
    pub open spec fn shiftable(self, delta: int) -> bool {
        &&& self.span.upper() + delta <= usize::MAX
        &&& self.code.upper() + delta <= usize::MAX
        &&& self.reason.upper() + delta <= usize::MAX
    }

    /// Whether the line holds the positions of the code and of the reason.
    pub open spec fn wf(self) -> bool {
        &&& self.code.positions().subset_of(self.span.positions())
        &&& self.reason.positions().subset_of(self.span.positions())
    }
}

/// An HTTP response status.
#[derive(Debug, PartialEq, Eq)]
pub struct Status {
    /// The span of the whole line.
    pub span: StrSpan,
    /// The response code.
    pub code: Code,
    /// The reason phrase.
    pub reason: Reason,
}

impl View for Status {
    type V = StatusView;

    open spec fn view(&self) -> StatusView {
        StatusView { span: self.span@, code: self.code@, reason: self.reason@ }
    }
}

impl Clone for Status {
    fn clone(&self) -> (r: Status)
        ensures
            r@ == self@,
    {
        Status { span: self.span.clone(), code: self.code.clone(), reason: self.reason.clone() }
    }
}

impl Status {
    /// The status line that is made of the given spans.
    pub fn new(span: StrSpan, code: Code, reason: Reason) -> (r: Status)
        ensures
            r@ == (StatusView { span: span@, code: code@, reason: reason@ }),
    {
        Status { span, code, reason }
    }

    /// Shifts the span range by the given offset.
    pub fn offset(&mut self, offset: usize)
        requires
            old(self)@.shiftable(offset as int),
        ensures
            final(self)@ == old(self)@.shifted(offset as int),
    {
        self.span.offset(offset);
        self.code.offset(offset);
        self.reason.offset(offset);
    }

    /// The span of the whole status line.
    pub fn span(&self) -> (r: &StrSpan)
        ensures
            r.wf(),
            r@ == self@.span,
    {
        let _ = self.span.as_bytes();
        &self.span
    }

    /// The positions of the whole status line.
    pub fn to_range_set(&self) -> (r: RangeSet)
        ensures
            r.wf(),
            r.intervals() == self@.span.at,
    {
        self.span.to_range_set()
    }
}

/// What a chunk is: the span of its payload in the transcript, its payload,
/// and the span of its extension where it has one.
pub struct ChunkView {
    pub span: SpanView,
    pub data: Seq<u8>,
    pub extension: Option<SpanView>,
}

impl ChunkView {
    /// The chunk moved up by `delta` positions.
    pub open spec fn shifted(self, delta: int) -> ChunkView {
        ChunkView {
            span: self.span.shifted(delta),
            data: self.data,
            extension: match self.extension {
                Some(e) => Some(e.shifted(delta)),
                None => None,
            },
        }
    }

    /// Whether the chunk can move up by `delta` within `usize`.
    pub open spec fn shiftable(self, delta: int) -> bool {
        &&& self.span.upper() + delta <= usize::MAX
        &&& self.extension matches Some(e) ==> e.upper() + delta <= usize::MAX
    }
}

/// A chunk of a chunked body.
#[derive(Debug, PartialEq, Eq)]
pub struct Chunk {
    /// The chunk span.
    pub span: Span,
    /// The chunk data.
    pub data: Bytes,
    /// The chunk extension, if any.
    pub extension: Option<Span>,
}

impl View for Chunk {
    type V = ChunkView;

    open spec fn view(&self) -> ChunkView {
        ChunkView {
            span: self.span@,
            data: contents(self.data),
            extension: match self.extension {
                Some(e) => Some(e@),
                None => None,
            },
        }
    }
}

impl Clone for Chunk {
    fn clone(&self) -> (r: Chunk)
        ensures
            r@ == self@,
    {
        Chunk {
            span: self.span.clone(),
            data: self.data.clone(),
            extension: match &self.extension {
                Some(e) => Some(e.clone()),
                None => None,
            },
        }
    }
}

impl Chunk {
    /// Shifts the span ranges by the given offset.
    pub fn offset(&mut self, offset: usize)
        requires
            old(self)@.shiftable(offset as int),
        ensures
            final(self)@ == old(self)@.shifted(offset as int),
    {
        self.span.offset(offset);
        match &mut self.extension {
            Some(e) => {
                e.offset(offset);
            },
            None => {},
        }
    }
}

/// What the chunks of a list are, in order.
pub open spec fn chunk_views(chunks: Seq<Chunk>) -> Seq<ChunkView> {
    Seq::new(chunks.len(), |k: int| chunks[k]@)
}

/// The chunks of a list, each moved up by `delta` positions.
pub open spec fn chunks_shifted(chunks: Seq<ChunkView>, delta: int) -> Seq<ChunkView> {
    Seq::new(chunks.len(), |k: int| chunks[k].shifted(delta))
}

/// The positions that the payloads of the chunks came from.
pub open spec fn provenance(chunks: Seq<ChunkView>) -> Set<int> {
    Set::new(
        |x: int| exists|k: int| 0 <= k < chunks.len() && #[trigger] chunks[k].span.positions().contains(x),
    )
}

/// The bytes of the spans of the chunks, chunk after chunk.
pub open spec fn payload(chunks: Seq<ChunkView>) -> Seq<u8>
    decreases chunks.len(),
{
    if chunks.len() == 0 {
        Seq::<u8>::empty()
    } else {
        payload(chunks.drop_last()) + chunks.last().span.data
    }
}

/// What a chunked body is: its chunks in order, and the span that combines
/// them.
pub struct ChunkedBodyView {
    pub chunks: Seq<ChunkView>,
    pub span: SpanView,
}

impl ChunkedBodyView {
    /// The chunked body moved up by `delta` positions.
    pub open spec fn shifted(self, delta: int) -> ChunkedBodyView {
        ChunkedBodyView { chunks: chunks_shifted(self.chunks, delta), span: self.span.shifted(delta) }
    }

    /// Whether the chunked body can move up by `delta` within `usize`.
    pub open spec fn shiftable(self, delta: int) -> bool {
        &&& self.span.upper() + delta <= usize::MAX
        &&& forall|k: int| 0 <= k < self.chunks.len() ==> (#[trigger] self.chunks[k]).shiftable(delta)
    }

    /// Whether the span combines the chunks: their bytes in the order of
    /// the chunks, at the union of their positions.
    pub open spec fn wf(self) -> bool {
        &&& self.span.data == payload(self.chunks)
        &&& self.span.positions() == provenance(self.chunks)
    }
}

/// A body that came in chunks.
#[derive(Debug, PartialEq, Eq)]
pub struct ChunkedBody {
    /// The chunks, in the order in which they came.
    pub chunks: Vec<Chunk>,
    /// The span that combines the chunks.
    pub span: Span,
}

impl View for ChunkedBody {
    type V = ChunkedBodyView;

    open spec fn view(&self) -> ChunkedBodyView {
        ChunkedBodyView { chunks: chunk_views(self.chunks@), span: self.span@ }
    }
}

/// A copy of a list of chunks.
fn clone_chunks(chunks: &[Chunk]) -> (r: Vec<Chunk>)
    ensures
        chunk_views(r@) == chunk_views(chunks@),
{
    let mut copy: Vec<Chunk> = Vec::new();
    let mut i: usize = 0;
    while i < chunks.len()
        invariant
            i <= chunks.len(),
            copy.len() == i,
            forall|k: int| 0 <= k < i ==> (#[trigger] copy@[k])@ == chunks@[k]@,
        decreases chunks.len() - i,
    {
        copy.push(chunks[i].clone());
        i += 1;
    }
    assert(chunk_views(copy@) =~= chunk_views(chunks@));
    copy
}

impl Clone for ChunkedBody {
    fn clone(&self) -> (r: ChunkedBody)
        ensures
            r@ == self@,
    {
        ChunkedBody { chunks: clone_chunks(self.chunks.as_slice()), span: self.span.clone() }
    }
}

impl ChunkedBody {
    /// Shifts the span ranges by the given offset.
    pub fn offset(&mut self, offset: usize)
        requires
            old(self)@.shiftable(offset as int),
        ensures
            final(self)@ == old(self)@.shifted(offset as int),
    {
        let ghost before = self@;
        let mut moved: Vec<Chunk> = Vec::new();
        let mut i: usize = 0;
        while i < self.chunks.len()
            invariant
                i <= self.chunks.len(),
                moved.len() == i,
                before == self@,
                before.shiftable(offset as int),
                forall|k: int| 0 <= k < i ==> (#[trigger] moved@[k])@ == before.chunks[k].shifted(offset as int),
            decreases self.chunks.len() - i,
        {
            let mut chunk = self.chunks[i].clone();
            assert(chunk@ == before.chunks[i as int]);
            chunk.offset(offset);
            moved.push(chunk);
            i += 1;
        }
        assert(chunk_views(moved@) =~= chunks_shifted(before.chunks, offset as int));
        self.chunks = moved;
        self.span.offset(offset);
    }
}

/// The positions that the payloads of the chunks came from.
pub fn chunked_body_range_set(chunks: &[Chunk]) -> (r: RangeSet)
    ensures
        r.wf(),
        r@ == provenance(chunk_views(chunks@)),
{
    let ghost views = chunk_views(chunks@);
    let mut range_set = RangeSet::empty();
    let mut i: usize = 0;
    assert(range_set@ =~= provenance(views.take(0)));
    while i < chunks.len()
        invariant
            i <= chunks.len(),
            views == chunk_views(chunks@),
            range_set.wf(),
            range_set@ == provenance(views.take(i as int)),
        decreases chunks.len() - i,
    {
        let ghost seen = range_set@;
        range_set.union_mut(chunks[i].span.indices());
        proof {
            let now = views.take(i + 1);
            let then = views.take(i as int);
            assert forall|x: int| provenance(now).contains(x) <==> (provenance(then).contains(x)
                || views[i as int].span.positions().contains(x)) by {
                if provenance(now).contains(x) {
                    let k = choose|k: int| 0 <= k < now.len() && #[trigger] now[k].span.positions().contains(x);
                    if k < i {
                        assert(then[k].span.positions().contains(x));
                    }
                }
                if provenance(then).contains(x) {
                    let k = choose|k: int| 0 <= k < then.len() && #[trigger] then[k].span.positions().contains(x);
                    assert(now[k].span.positions().contains(x));
                }
                if views[i as int].span.positions().contains(x) {
                    assert(now[i as int].span.positions().contains(x));
                }
            }
            assert(range_set@ =~= provenance(now));
        }
        i += 1;
    }
    assert(views.take(i as int) =~= views);
    range_set
}

/// The bytes of the first chunks of a list are no more than those of all.
pub proof fn lemma_payload_grows(chunks: Seq<ChunkView>, n: int)
    requires
        0 <= n <= chunks.len(),
    ensures
        payload(chunks.take(n)).len() <= payload(chunks).len(),
    decreases chunks.len() - n,
{
    if n == chunks.len() {
        assert(chunks.take(n) =~= chunks);
    } else {
        assert(chunks.drop_last().take(n) =~= chunks.take(n));
        lemma_payload_grows(chunks.drop_last(), n);
    }
}

/// The span that combines the chunks: the bytes of their spans in the order
/// of the chunks, at the union of their positions.
pub fn chunked_body_span(chunks: &[Chunk]) -> (r: Span)
    requires
        payload(chunk_views(chunks@)).len() <= usize::MAX,
    ensures
        r.wf(),
        r@.data == payload(chunk_views(chunks@)),
        r@.positions() == provenance(chunk_views(chunks@)),
{
    let ghost views = chunk_views(chunks@);
    let combined_range_set = chunked_body_range_set(chunks);
    let mut combined_data = BytesMut::new();
    let mut i: usize = 0;
    assert(views.take(0) =~= Seq::<ChunkView>::empty());
    while i < chunks.len()
        invariant
            i <= chunks.len(),
            views == chunk_views(chunks@),
            payload(views).len() <= usize::MAX,
            gathering(combined_data) == payload(views.take(i as int)),
        decreases chunks.len() - i,
    {
        let part = chunks[i].span.as_bytes();
        proof {
            assert(views.take(i + 1).drop_last() =~= views.take(i as int));
            assert(views.take(i + 1).last() == views[i as int]);
            lemma_payload_grows(views, i + 1);
        }
        combined_data.extend_from_slice(part);
        i += 1;
    }
    assert(views.take(i as int) =~= views);
    Span::from_parts(combined_data.freeze(), combined_range_set)
}

/// The chunked body that the chunks make.
pub fn build_chunked_body(chunks: &[Chunk]) -> (r: ChunkedBody)
    requires
        payload(chunk_views(chunks@)).len() <= usize::MAX,
    ensures
        r@.chunks == chunk_views(chunks@),
        r@.wf(),
        r.span.wf(),
{
    ChunkedBody { chunks: clone_chunks(chunks), span: chunked_body_span(chunks) }
}

/// What the content of a body is.
pub enum BodyContentView {
    /// A JSON value, by the span of its text.
    Json(SpanView),
    /// Bytes of an unknown kind.
    Unknown(SpanView),
    /// Chunks.
    Chunked(ChunkedBodyView),
}

impl BodyContentView {
    /// The content moved up by `delta` positions.
    pub open spec fn shifted(self, delta: int) -> BodyContentView {
        match self {
            BodyContentView::Json(v) => BodyContentView::Json(v.shifted(delta)),
            BodyContentView::Unknown(s) => BodyContentView::Unknown(s.shifted(delta)),
            BodyContentView::Chunked(c) => BodyContentView::Chunked(c.shifted(delta)),
        }
    }

    /// Whether the content can move up by `delta` within `usize`.
    pub open spec fn shiftable(self, delta: int) -> bool {
        match self {
            BodyContentView::Json(v) => v.upper() + delta <= usize::MAX,
            BodyContentView::Unknown(s) => s.upper() + delta <= usize::MAX,
            BodyContentView::Chunked(c) => c.shiftable(delta),
        }
    }

    /// The span of the content.
    pub open spec fn span(self) -> SpanView {
        match self {
            BodyContentView::Json(v) => v,
            BodyContentView::Unknown(s) => s,
            BodyContentView::Chunked(c) => c.span,
        }
    }
}

/// An HTTP request or response payload body content.
#[derive(Debug, PartialEq, Eq)]
#[non_exhaustive]
pub enum BodyContent {
    /// Body with an `application/json` content type.
    Json(JsonValue),
    /// Body with an unknown content type.
    Unknown(Span),
    /// Body with a `Transfer-Encoding: chunked` header.
    Chunked(ChunkedBody),
}

impl View for BodyContent {
    type V = BodyContentView;

    open spec fn view(&self) -> BodyContentView {
        match self {
            BodyContent::Json(v) => BodyContentView::Json(v@),
            BodyContent::Unknown(s) => BodyContentView::Unknown(s@),
            BodyContent::Chunked(c) => BodyContentView::Chunked(c@),
        }
    }
}

impl Clone for BodyContent {
    fn clone(&self) -> (r: BodyContent)
        ensures
            r@ == self@,
    {
        match self {
            BodyContent::Json(v) => BodyContent::Json(v.clone()),
            BodyContent::Unknown(s) => BodyContent::Unknown(s.clone()),
            BodyContent::Chunked(c) => BodyContent::Chunked(c.clone()),
        }
    }
}

impl BodyContent {
    /// The span of the content.
    pub fn span(&self) -> (r: &Span)
        ensures
            r@ == self@.span(),
    {
        match self {
            BodyContent::Json(v) => v.span().span(),
            BodyContent::Unknown(s) => s,
            BodyContent::Chunked(c) => &c.span,
        }
    }

    /// The positions of the content.
    pub fn to_range_set(&self) -> (r: RangeSet)
        ensures
            r.wf(),
            r.intervals() == self@.span().at,
    {
        self.span().to_range_set()
    }

    /// Shifts the span ranges by the given offset.
    pub fn offset(&mut self, offset: usize)
        requires
            old(self)@.shiftable(offset as int),
        ensures
            final(self)@ == old(self)@.shifted(offset as int),
    {
        match self {
            BodyContent::Json(v) => {
                v.offset(offset);
            },
            BodyContent::Unknown(s) => {
                s.offset(offset);
            },
            BodyContent::Chunked(c) => {
                c.offset(offset);
            },
        }
    }
}

/// What a body is: its span and its content.
pub struct BodyView {
    pub span: SpanView,
    pub content: BodyContentView,
}

impl BodyView {
    /// The body moved up by `delta` positions.
    pub open spec fn shifted(self, delta: int) -> BodyView {
        BodyView { span: self.span.shifted(delta), content: self.content.shifted(delta) }
    }

    /// Whether the body can move up by `delta` within `usize`.
    pub open spec fn shiftable(self, delta: int) -> bool {
        self.span.upper() + delta <= usize::MAX && self.content.shiftable(delta)
    }
}

/// An HTTP request or response payload body.
#[derive(Debug, PartialEq, Eq)]
pub struct Body {
    /// The span of the body.
    pub span: Span,
    /// The body content.
    pub content: BodyContent,
}

impl View for Body {
    type V = BodyView;

    open spec fn view(&self) -> BodyView {
        BodyView { span: self.span@, content: self.content@ }
    }
}

impl Clone for Body {
    fn clone(&self) -> (r: Body)
        ensures
            r@ == self@,
    {
        Body { span: self.span.clone(), content: self.content.clone() }
    }
}

impl Body {
    /// Returns the body as a byte slice.
    pub fn as_bytes(&self) -> (r: &[u8])
        ensures
            r@ == self@.span.data,
    {
        self.span.as_bytes()
    }

    /// Shifts the span ranges by the given offset, those of the content too.
    pub fn offset(&mut self, offset: usize)
        requires
            old(self)@.shiftable(offset as int),
        ensures
            final(self)@ == old(self)@.shifted(offset as int),
    {
        self.span.offset(offset);
        self.content.offset(offset);
    }

    /// The span of the body.
    pub fn span(&self) -> (r: &Span)
        ensures
            r.wf(),
            r@ == self@.span,
    {
        let _ = self.span.indices();
        &self.span
    }

    /// The positions of the body.
    pub fn to_range_set(&self) -> (r: RangeSet)
        ensures
            r.wf(),
            r.intervals() == self@.span.at,
    {
        self.span.to_range_set()
    }
}

/// What the headers of a list are, in order.
pub open spec fn header_views(headers: Seq<Header>) -> Seq<HeaderView> {
    Seq::new(headers.len(), |k: int| headers[k]@)
}

/// What the headers that a list refers to are, in order.
pub open spec fn header_ref_views(headers: Seq<&Header>) -> Seq<HeaderView> {
    Seq::new(headers.len(), |k: int| headers[k]@)
}

/// The headers of a list, each moved up by `delta` positions.
pub open spec fn headers_shifted(headers: Seq<HeaderView>, delta: int) -> Seq<HeaderView> {
    Seq::new(headers.len(), |k: int| headers[k].shifted(delta))
}

/// Whether every header of a list can move up by `delta` within `usize`.
pub open spec fn headers_shiftable(headers: Seq<HeaderView>, delta: int) -> bool {
    forall|k: int| 0 <= k < headers.len() ==> (#[trigger] headers[k]).shiftable(delta)
}

/// The positions of the lines of the headers.
pub open spec fn header_lines(headers: Seq<HeaderView>) -> Set<int> {
    Set::new(
        |x: int| exists|k: int| 0 <= k < headers.len() && #[trigger] headers[k].span.positions().contains(x),
    )
}

/// The headers of a list whose name is `name` but for the case of ASCII
/// letters, in the order of the list.
pub open spec fn with_name(headers: Seq<HeaderView>, name: Seq<u8>) -> Seq<HeaderView>
    decreases headers.len(),
{
    if headers.len() == 0 {
        Seq::<HeaderView>::empty()
    } else if same_ignoring_case(headers.last().name.data, name) {
        with_name(headers.drop_last(), name).push(headers.last())
    } else {
        with_name(headers.drop_last(), name)
    }
}

/// The headers of a list whose name is `name` but for the case of ASCII
/// letters, in the order of the list.
pub fn headers_named<'a>(headers: &'a [Header], name: &str) -> (r: Vec<&'a Header>)
    ensures
        header_ref_views(r@) == with_name(header_views(headers@), name.spec_bytes()),
{
    let ghost views = header_views(headers@);
    let mut found: Vec<&'a Header> = Vec::new();
    let mut i: usize = 0;
    assert(views.take(0) =~= Seq::<HeaderView>::empty());
    assert(header_ref_views(found@) =~= Seq::<HeaderView>::empty());
    while i < headers.len()
        invariant
            i <= headers.len(),
            views == header_views(headers@),
            header_ref_views(found@) == with_name(views.take(i as int), name.spec_bytes()),
        decreases headers.len() - i,
    {
        let ghost before = header_ref_views(found@);
        let header = &headers[i];
        proof {
            assert(views.take(i + 1).drop_last() =~= views.take(i as int));
            assert(views.take(i + 1).last() == views[i as int]);
        }
        if eq_ignore_ascii_case(header.name.as_str().as_bytes(), name.as_bytes()) {
            found.push(header);
            assert(header_ref_views(found@) =~= before.push(views[i as int]));
        }
        i += 1;
    }
    assert(views.take(i as int) =~= views);
    found
}

/// The positions of `indices` that lie on no line of the headers.
fn without_headers(indices: RangeSet, headers: &[Header]) -> (r: RangeSet)
    ensures
        r.wf(),
        r@ == indices@.difference(header_lines(header_views(headers@))),
{
    proof {
        use_type_invariant(&indices);
    }
    let ghost views = header_views(headers@);
    let ghost all = indices@;
    let mut rest = indices;
    let mut i: usize = 0;
    assert(rest@ =~= all.difference(header_lines(views.take(0))));
    while i < headers.len()
        invariant
            i <= headers.len(),
            views == header_views(headers@),
            rest.wf(),
            rest@ == all.difference(header_lines(views.take(i as int))),
        decreases headers.len() - i,
    {
        rest = rest.difference(headers[i].span.indices());
        proof {
            let now = views.take(i + 1);
            let then = views.take(i as int);
            assert forall|x: int| header_lines(now).contains(x) <==> (header_lines(then).contains(
                x,
            ) || views[i as int].span.positions().contains(x)) by {
                if header_lines(now).contains(x) {
                    let k = choose|k: int| 0 <= k < now.len() && #[trigger] now[k].span.positions().contains(x);
                    if k < i {
                        assert(then[k].span.positions().contains(x));
                    }
                }
                if header_lines(then).contains(x) {
                    let k = choose|k: int| 0 <= k < then.len() && #[trigger] then[k].span.positions().contains(x);
                    assert(now[k].span.positions().contains(x));
                }
                if views[i as int].span.positions().contains(x) {
                    assert(now[i as int].span.positions().contains(x));
                }
            }
            assert(rest@ =~= all.difference(header_lines(now)));
        }
        i += 1;
    }
    assert(views.take(i as int) =~= views);
    rest
}

/// The headers of a list, each moved up by `offset` positions.
fn offset_headers(headers: &[Header], offset: usize) -> (r: Vec<Header>)
    requires
        headers_shiftable(header_views(headers@), offset as int),
    ensures
        header_views(r@) == headers_shifted(header_views(headers@), offset as int),
{
    let ghost views = header_views(headers@);
    let mut moved: Vec<Header> = Vec::new();
    let mut i: usize = 0;
    while i < headers.len()
        invariant
            i <= headers.len(),
            moved.len() == i,
            views == header_views(headers@),
            headers_shiftable(views, offset as int),
            forall|k: int| 0 <= k < i ==> (#[trigger] moved@[k])@ == views[k].shifted(offset as int),
        decreases headers.len() - i,
    {
        let mut header = headers[i].clone();
        assert(header@ == views[i as int]);
        header.offset(offset);
        moved.push(header);
        i += 1;
    }
    assert(header_views(moved@) =~= headers_shifted(views, offset as int));
    moved
}

/// A copy of a list of headers.
fn clone_headers(headers: &[Header]) -> (r: Vec<Header>)
    ensures
        header_views(r@) == header_views(headers@),
{
    let mut copy: Vec<Header> = Vec::new();
    let mut i: usize = 0;
    while i < headers.len()
        invariant
            i <= headers.len(),
            copy.len() == i,
            forall|k: int| 0 <= k < i ==> (#[trigger] copy@[k])@ == headers@[k]@,
        decreases headers.len() - i,
    {
        copy.push(headers[i].clone());
        i += 1;
    }
    assert(header_views(copy@) =~= header_views(headers@));
    copy
}

/// A copy of a body, where there is one.
fn clone_body(body: &Option<Body>) -> (r: Option<Body>)
    ensures
        match (r, *body) {
            (Some(copy), Some(b)) => copy@ == b@,
            (None, None) => true,
            _ => false,
        },
{
    match body {
        Some(b) => Some(b.clone()),
        None => None,
    }
}

/// The positions of a body, none where there is no body.
pub open spec fn body_positions(body: Option<BodyView>) -> Set<int> {
    match body {
        Some(b) => b.span.positions(),
        None => Set::<int>::empty(),
    }
}

/// What a request is.
pub struct RequestView {
    pub span: SpanView,
    pub request: RequestLineView,
    pub headers: Seq<HeaderView>,
    pub body: Option<BodyView>,
    pub total_len: int,
}

impl RequestView {
    /// The request moved up by `delta` positions.
    pub open spec fn shifted(self, delta: int) -> RequestView {
        RequestView {
            span: self.span.shifted(delta),
            request: self.request.shifted(delta),
            headers: headers_shifted(self.headers, delta),
            body: match self.body {
                Some(b) => Some(b.shifted(delta)),
                None => None,
            },
            total_len: self.total_len,
        }
    }

    /// Whether the parts of the request lie within each other: the method
    /// and the target in the request line, the name and the value of each
    /// header in its line, and the request line, the header lines and the
    /// body in the request.
    pub open spec fn wf(self) -> bool {
        &&& self.request.wf()
        &&& self.request.span.positions().subset_of(self.span.positions())
        &&& forall|k: int|
            0 <= k < self.headers.len() ==> (#[trigger] self.headers[k]).wf()
                && self.headers[k].span.positions().subset_of(self.span.positions())
        &&& body_positions(self.body).subset_of(self.span.positions())
    }

    /// Whether the request can move up by `delta` within `usize`.
    pub open spec fn shiftable(self, delta: int) -> bool {
        &&& self.span.upper() + delta <= usize::MAX
        &&& self.request.shiftable(delta)
        &&& headers_shiftable(self.headers, delta)
        &&& self.body matches Some(b) ==> b.shiftable(delta)
    }
}

/// An HTTP request.
#[derive(Debug, PartialEq, Eq)]
pub struct Request {
    /// The span of the whole request.
    pub span: Span,
    /// The request line.
    pub request: RequestLine,
    /// Request headers.
    pub headers: Vec<Header>,
    /// Request body.
    pub body: Option<Body>,
    /// The number of transcript bytes that the request takes up.
    pub total_len: usize,
}

impl View for Request {
    type V = RequestView;

    open spec fn view(&self) -> RequestView {
        RequestView {
            span: self.span@,
            request: self.request@,
            headers: header_views(self.headers@),
            body: match self.body {
                Some(b) => Some(b@),
                None => None,
            },
            total_len: self.total_len as int,
        }
    }
}

impl Clone for Request {
    fn clone(&self) -> (r: Request)
        ensures
            r@ == self@,
    {
        Request {
            span: self.span.clone(),
            request: self.request.clone(),
            headers: clone_headers(self.headers.as_slice()),
            body: clone_body(&self.body),
            total_len: self.total_len,
        }
    }
}

impl Request {
    /// Returns the request headers with the given name (case-insensitive),
    /// in their order.
    ///
    /// There may be several: it is valid for HTTP records to contain
    /// duplicate header names.
    pub fn headers_with_name<'a>(&'a self, name: &str) -> (r: Vec<&'a Header>)
        ensures
            header_ref_views(r@) == with_name(self@.headers, name.spec_bytes()),
    {
        headers_named(self.headers.as_slice(), name)
    }

    /// Returns the indices of the request excluding the target, headers and body.
    pub fn without_data(&self) -> (r: RangeSet)
        ensures
            r.wf(),
            r@ == self@.span.positions().difference(self@.request.target.positions()).difference(
                header_lines(self@.headers),
            ).difference(body_positions(self@.body)),
    {
        let indices = self.span.indices().difference(self.request.target.span().indices());
        let indices = without_headers(indices, self.headers.as_slice());
        match &self.body {
            Some(body) => indices.difference(body.span.indices()),
            None => {
                assert(indices@ =~= indices@.difference(Set::<int>::empty()));
                indices
            },
        }
    }

    /// Shifts the span ranges by the given offset.
    pub fn offset(&mut self, offset: usize)
        requires
            old(self)@.shiftable(offset as int),
        ensures
            final(self)@ == old(self)@.shifted(offset as int),
    {
        self.span.offset(offset);
        self.request.offset(offset);
        self.headers = offset_headers(self.headers.as_slice(), offset);
        match &mut self.body {
            Some(body) => {
                body.offset(offset);
            },
            None => {},
        }
    }

    /// The span of the whole request.
    pub fn span(&self) -> (r: &Span)
        ensures
            r.wf(),
            r@ == self@.span,
    {
        let _ = self.span.indices();
        &self.span
    }

    /// The positions of the whole request.
    pub fn to_range_set(&self) -> (r: RangeSet)
        ensures
            r.wf(),
            r.intervals() == self@.span.at,
    {
        self.span.to_range_set()
    }
}

/// What a response is.
pub struct ResponseView {
    pub span: SpanView,
    pub status: StatusView,
    pub headers: Seq<HeaderView>,
    pub body: Option<BodyView>,
    pub total_len: int,
}

impl ResponseView {
    /// The response moved up by `delta` positions.
    pub open spec fn shifted(self, delta: int) -> ResponseView {
        ResponseView {
            span: self.span.shifted(delta),
            status: self.status.shifted(delta),
            headers: headers_shifted(self.headers, delta),
            body: match self.body {
                Some(b) => Some(b.shifted(delta)),
                None => None,
            },
            total_len: self.total_len,
        }
    }

    /// Whether the parts of the response lie within each other: the code
    /// and the reason in the status line, the name and the value of each
    /// header in its line, and the status line, the header lines and the
    /// body in the response.
    pub open spec fn wf(self) -> bool {
        &&& self.status.wf()
        &&& self.status.span.positions().subset_of(self.span.positions())
        &&& forall|k: int|
            0 <= k < self.headers.len() ==> (#[trigger] self.headers[k]).wf()
                && self.headers[k].span.positions().subset_of(self.span.positions())
        &&& body_positions(self.body).subset_of(self.span.positions())
    }

    /// Whether the response can move up by `delta` within `usize`.
    pub open spec fn shiftable(self, delta: int) -> bool {
        &&& self.span.upper() + delta <= usize::MAX
        &&& self.status.shiftable(delta)
        &&& headers_shiftable(self.headers, delta)
        &&& self.body matches Some(b) ==> b.shiftable(delta)
    }
}

/// An HTTP response.
#[derive(Debug, PartialEq, Eq)]
pub struct Response {
    /// The span of the whole response.
    pub span: Span,
    /// The response status.
    pub status: Status,
    /// Response headers.
    pub headers: Vec<Header>,
    /// Response body.
    pub body: Option<Body>,
    /// The number of transcript bytes that the response takes up.
    pub total_len: usize,
}

impl View for Response {
    type V = ResponseView;

    open spec fn view(&self) -> ResponseView {
        ResponseView {
            span: self.span@,
            status: self.status@,
            headers: header_views(self.headers@),
            body: match self.body {
                Some(b) => Some(b@),
                None => None,
            },
            total_len: self.total_len as int,
        }
    }
}

impl Clone for Response {
    fn clone(&self) -> (r: Response)
        ensures
            r@ == self@,
    {
        Response {
            span: self.span.clone(),
            status: self.status.clone(),
            headers: clone_headers(self.headers.as_slice()),
            body: clone_body(&self.body),
            total_len: self.total_len,
        }
    }
}

impl Response {
    /// Returns the response headers with the given name (case-insensitive),
    /// in their order.
    ///
    /// There may be several: it is valid for HTTP records to contain
    /// duplicate header names.
    pub fn headers_with_name<'a>(&'a self, name: &str) -> (r: Vec<&'a Header>)
        ensures
            header_ref_views(r@) == with_name(self@.headers, name.spec_bytes()),
    {
        headers_named(self.headers.as_slice(), name)
    }

    /// Returns the indices of the response excluding the headers and body.
    pub fn without_data(&self) -> (r: RangeSet)
        ensures
            r.wf(),
            r@ == self@.span.positions().difference(header_lines(self@.headers)).difference(
                body_positions(self@.body),
            ),
    {
        let indices = without_headers(self.span.to_range_set(), self.headers.as_slice());
        match &self.body {
            Some(body) => indices.difference(body.span.indices()),
            None => {
                assert(indices@ =~= indices@.difference(Set::<int>::empty()));
                indices
            },
        }
    }

    /// Shifts the span ranges by the given offset.
    pub fn offset(&mut self, offset: usize)
        requires
            old(self)@.shiftable(offset as int),
        ensures
            final(self)@ == old(self)@.shifted(offset as int),
    {
        self.span.offset(offset);
        self.status.offset(offset);
        self.headers = offset_headers(self.headers.as_slice(), offset);
        match &mut self.body {
            Some(body) => {
                body.offset(offset);
            },
            None => {},
        }
    }

    /// The span of the whole response.
    pub fn span(&self) -> (r: &Span)
        ensures
            r.wf(),
            r@ == self@.span,
    {
        let _ = self.span.indices();
        &self.span
    }

    /// The positions of the whole response.
    pub fn to_range_set(&self) -> (r: RangeSet)
        ensures
            r.wf(),
            r.intervals() == self@.span.at,
    {
        self.span.to_range_set()
    }
}

} // verus!
