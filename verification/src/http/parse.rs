//! Reading the body of a message.

use crate::buffer::{as_slice, contents, from_vec};
use crate::error::{ErrorKind, ParseError};
use crate::http::helpers::TransferCoding;
use crate::http::types::{
    build_chunked_body, chunk_views, payload, provenance, Body, BodyContent, BodyContentView,
    BodyView, Chunk, ChunkView, ChunkedBodyView, Header,
};
use crate::json;
use crate::range::{covered, holds, lemma_canonical, normalized};
use crate::span::{gathered, Span, SpanView};
use crate::text::{
    crlf, crlf_at, find_crlf, first_match, lemma_first_match, matches_at, number_in_usize, parse_number,
    trim, trimmed, utf8_str,
};
use bytes::Bytes;
use std::ops::Range;
use vstd::prelude::*;
use vstd::slice::{slice_subrange, slice_to_vec};
use vstd::utf8::{decode_utf8, encode_utf8, valid_utf8};

verus! {

/// The body length that a `Content-Length` value declares: a decimal number.
pub open spec fn content_length(value: Seq<u8>) -> Option<usize> {
    number_in_usize(value, 10)
}

/// Parses the length of the body from a `Content-Length` header.
pub fn parse_content_length(h: &Header) -> (r: Result<usize, ParseError>)
    ensures
        match r {
            Ok(n) => content_length(h@.value.data) == Some(n),
            Err(e) => content_length(h@.value.data) is None && e.kind
                == ErrorKind::InvalidEncoding,
        },
{
    match parse_number(h.value.as_bytes(), 10) {
        Some(n) => Ok(n),
        None => Err(
            ParseError::new(ErrorKind::InvalidEncoding, "Failed to parse Content-Length value"),
        ),
    }
}

/// The size that a chunk-size line declares: the line is text, and without
/// the white space around it a hexadecimal number.
pub open spec fn chunk_size(line: Seq<u8>) -> Option<usize> {
    if valid_utf8(line) {
        number_in_usize(encode_utf8(trimmed(decode_utf8(line))), 16)
    } else {
        None
    }
}

/// Reads a chunk-size line.
pub fn parse_chunk_size(line: &[u8]) -> (r: Option<usize>)
    ensures
        r == chunk_size(line@),
{
    broadcast use vstd::utf8::encode_utf8_decode_utf8;

    match utf8_str(line) {
        Some(text) => {
            assert(decode_utf8(encode_utf8(text@)) == text@);
            parse_number(trim(text).as_bytes(), 16)
        },
        None => None,
    }
}

/// The chunk whose size line begins at `pos`: where its payload begins, and
/// its size. The size line ends at the first CRLF; a payload has to end
/// within `src`.
pub open spec fn chunk_at(src: Seq<u8>, pos: int) -> Result<(int, int), ErrorKind> {
    match first_match(src, crlf(), pos) {
        None => Err(ErrorKind::InvalidEncoding),
        Some(line_end) => match chunk_size(src.subrange(pos, line_end)) {
            None => Err(ErrorKind::InvalidEncoding),
            Some(size) => if line_end + 2 + size > src.len() {
                Err(ErrorKind::RangeOverrun)
            } else {
                Ok((line_end + 2, size as int))
            },
        },
    }
}

/// A walk along the chunks of a body.
pub struct ChunkWalk {
    /// The interval of the payload of each chunk, in order.
    pub chunks: Seq<(int, int)>,
    /// The position after the chunk of size zero that ends the body, and
    /// after the CRLF where one follows it at once. Trailers are not read:
    /// whatever else follows the chunk of size zero is left where it is.
    pub end: int,
}

/// The walk along the chunks of the body that begins at `pos`: chunk after
/// chunk, each payload followed by two bytes, up to a chunk of size zero.
pub open spec fn chunk_walk(src: Seq<u8>, pos: int) -> Result<ChunkWalk, ErrorKind>
    decreases src.len() + 2 - pos,
    when 0 <= pos
    via chunk_walk_decreases
{
    match chunk_at(src, pos) {
        Err(kind) => Err(kind),
        Ok((start, size)) => if size == 0 {
            Ok(
                ChunkWalk {
                    chunks: Seq::<(int, int)>::empty(),
                    end: if matches_at(src, crlf(), start) {
                        start + 2
                    } else {
                        start
                    },
                },
            )
        } else {
            match chunk_walk(src, start + size + 2) {
                Ok(rest) => Ok(
                    ChunkWalk { chunks: seq![(start, start + size)] + rest.chunks, end: rest.end },
                ),
                Err(kind) => Err(kind),
            }
        },
    }
}

#[via_fn]
proof fn chunk_walk_decreases(src: Seq<u8>, pos: int) {
    if 0 <= pos {
        lemma_first_match(src, crlf(), pos);
        match chunk_at(src, pos) {
            Ok((start, size)) => {
                assert(start >= pos + 2);
                assert(size >= 0);
            },
            Err(_) => {},
        }
    }
}

/// A walk that goes on from the chunks already passed.
pub open spec fn continued(passed: Seq<(int, int)>, rest: Result<ChunkWalk, ErrorKind>) -> Result<
    ChunkWalk,
    ErrorKind,
> {
    match rest {
        Ok(walk) => Ok(ChunkWalk { chunks: passed + walk.chunks, end: walk.end }),
        Err(kind) => Err(kind),
    }
}

/// The number of positions of a list of intervals.
pub open spec fn total(chunks: Seq<(int, int)>) -> int
    decreases chunks.len(),
{
    if chunks.len() == 0 {
        0
    } else {
        total(chunks.drop_last()) + (chunks.last().1 - chunks.last().0)
    }
}

/// The chunk whose size line begins at `pos`: where its payload begins, and
/// its size.
pub fn next_chunk(src: &[u8], pos: usize) -> (r: Result<(usize, usize), ParseError>)
    ensures
        match r {
            Ok((start, size)) => {
                &&& chunk_at(src@, pos as int) == Ok::<(int, int), ErrorKind>(
                    (start as int, size as int),
                )
                &&& pos + 3 <= start <= start + size <= src.len()
            },
            Err(e) => {
                &&& chunk_at(src@, pos as int) == Err::<(int, int), ErrorKind>(e.kind)
                &&& e.kind == ErrorKind::InvalidEncoding || e.kind == ErrorKind::RangeOverrun
            },
        },
{
    let line_end = match find_crlf(src, pos) {
        Some(at) => at,
        None => {
            return Err(
                ParseError::new(
                    ErrorKind::InvalidEncoding,
                    "Invalid chunked encoding: missing chunk size CRLF",
                ),
            );
        },
    };
    proof {
        lemma_first_match(src@, crlf(), pos as int);
    }
    let size = match parse_chunk_size(slice_subrange(src, pos, line_end)) {
        Some(size) => size,
        None => {
            return Err(ParseError::new(ErrorKind::InvalidEncoding, "Invalid chunk size value"));
        },
    };
    proof {
        // A size line holds a digit at least.
        if line_end == pos {
            assert(src@.subrange(pos as int, line_end as int) =~= Seq::<u8>::empty());
            lemma_no_size_in_nothing();
        }
    }
    let start = line_end + 2;
    if size > src.len() - start {
        return Err(ParseError::new(ErrorKind::RangeOverrun, "Chunk data exceeds source length"));
    }
    Ok((start, size))
}

/// The empty line declares no chunk size.
proof fn lemma_no_size_in_nothing()
    ensures
        chunk_size(Seq::<u8>::empty()) is None,
{
    let nothing = Seq::<u8>::empty();
    reveal_with_fuel(valid_utf8, 1);
    assert(valid_utf8(nothing));
    assert(decode_utf8(nothing) =~= Seq::<char>::empty());
    let text = trimmed(Seq::<char>::empty());
    assert(text =~= Seq::<char>::empty());
    assert(encode_utf8(text) =~= Seq::<u8>::empty());
}

/// What a walk passes: the chunks lie in `src` in ascending order, apart
/// from each other, none is empty, and the walk ends within `src`.
pub proof fn lemma_chunk_walk(src: Seq<u8>, pos: int)
    requires
        0 <= pos,
        chunk_walk(src, pos) is Ok,
    ensures
        normalized(chunk_walk(src, pos)->Ok_0.chunks),
        forall|k: int|
            0 <= k < chunk_walk(src, pos)->Ok_0.chunks.len() ==> pos + 3 <= (
            #[trigger] chunk_walk(src, pos)->Ok_0.chunks[k]).0 && chunk_walk(
                src,
                pos,
            )->Ok_0.chunks[k].1 <= src.len(),
        pos + 3 <= chunk_walk(src, pos)->Ok_0.end <= src.len(),
        total(chunk_walk(src, pos)->Ok_0.chunks) + 3 <= chunk_walk(src, pos)->Ok_0.end - pos,
        0 <= total(chunk_walk(src, pos)->Ok_0.chunks),
    decreases src.len() + 2 - pos,
{
    lemma_first_match(src, crlf(), pos);
    let line_end = first_match(src, crlf(), pos)->0;
    if line_end == pos {
        assert(src.subrange(pos, line_end) =~= Seq::<u8>::empty());
        lemma_no_size_in_nothing();
    }
    let (start, size) = chunk_at(src, pos)->Ok_0;
    let walk = chunk_walk(src, pos)->Ok_0;
    if size == 0 {
    } else {
        let next = start + size + 2;
        lemma_chunk_walk(src, next);
        let rest = chunk_walk(src, next)->Ok_0;
        let first = seq![(start, start + size)];
        assert(walk.chunks == first + rest.chunks);
        assert forall|i: int, j: int| 0 <= i < j < walk.chunks.len() implies (
        #[trigger] walk.chunks[i]).1 < (#[trigger] walk.chunks[j]).0 by {
            if i == 0 {
                assert(walk.chunks[j] == rest.chunks[j - 1]);
            } else {
                assert(walk.chunks[i] == rest.chunks[i - 1]);
                assert(walk.chunks[j] == rest.chunks[j - 1]);
            }
        }
        assert forall|k: int| 0 <= k < walk.chunks.len() implies 0 <= (#[trigger] walk.chunks[k]).0
            < walk.chunks[k].1 by {
            if k > 0 {
                assert(walk.chunks[k] == rest.chunks[k - 1]);
            }
        }
        assert forall|k: int| 0 <= k < walk.chunks.len() implies pos + 3 <= (
        #[trigger] walk.chunks[k]).0 && walk.chunks[k].1 <= src.len() by {
            if k > 0 {
                assert(walk.chunks[k] == rest.chunks[k - 1]);
            }
        }
        lemma_total_prepend((start, start + size), rest.chunks);
    }
}

/// A walk fails only on what cannot be read or reaches past the end.
pub proof fn lemma_chunk_walk_fails(src: Seq<u8>, pos: int)
    requires
        0 <= pos,
    ensures
        chunk_walk(src, pos) matches Err(kind) ==> kind == ErrorKind::InvalidEncoding || kind
            == ErrorKind::RangeOverrun,
    decreases src.len() + 2 - pos,
{
    lemma_first_match(src, crlf(), pos);
    match chunk_at(src, pos) {
        Ok((start, size)) => {
            if size != 0 {
                lemma_chunk_walk_fails(src, start + size + 2);
            }
        },
        Err(_) => {},
    }
}

/// The number of positions of a list with one more interval in front.
pub proof fn lemma_total_prepend(first: (int, int), rest: Seq<(int, int)>)
    ensures
        total(seq![first] + rest) == (first.1 - first.0) + total(rest),
    decreases rest.len(),
{
    let all = seq![first] + rest;
    if rest.len() == 0 {
        assert(all.drop_last() =~= Seq::<(int, int)>::empty());
        assert(all.last() == first);
        assert(total(all) == total(all.drop_last()) + (first.1 - first.0));
    } else {
        assert(all.drop_last() =~= seq![first] + rest.drop_last());
        assert(all.last() == rest.last());
        lemma_total_prepend(first, rest.drop_last());
    }
}

/// The number of positions of a list with one more interval at its end.
pub proof fn lemma_total_push(passed: Seq<(int, int)>, last: (int, int))
    ensures
        total(passed.push(last)) == total(passed) + (last.1 - last.0),
{
    assert(passed.push(last).drop_last() =~= passed);
}

/// Parses the length of a chunked body that begins at `offset`: the sizes of
/// its chunks together. Only the size lines are read.
pub fn parse_transfer_encoding_chunked_length(src: &Bytes, offset: usize) -> (r: Result<
    usize,
    ParseError,
>)
    ensures
        match r {
            Ok(n) => chunk_walk(contents(*src), offset as int) matches Ok(walk) && n == total(
                walk.chunks,
            ),
            Err(e) => {
                &&& chunk_walk(contents(*src), offset as int) matches Err(kind) && e.kind == kind
                &&& e.kind == ErrorKind::InvalidEncoding || e.kind == ErrorKind::RangeOverrun
            },
        },
{
    let bytes = as_slice(src);
    let mut total_length: usize = 0;
    let mut pos: usize = offset;
    let ghost mut passed = Seq::<(int, int)>::empty();
    proof {
        match chunk_walk(bytes@, pos as int) {
            Ok(walk) => {
                assert(passed + walk.chunks =~= walk.chunks);
            },
            Err(_) => {},
        }
    }
    loop
        invariant
            offset <= pos,
            bytes@ == contents(*src),
            chunk_walk(bytes@, offset as int) == continued(passed, chunk_walk(bytes@, pos as int)),
            total_length == total(passed),
            total_length <= pos - offset,
        decreases bytes.len() + 2 - pos,
    {
        let (start, size) = match next_chunk(bytes, pos) {
            Ok(chunk) => chunk,
            Err(e) => {
                return Err(e);
            },
        };
        if size == 0 {
            proof {
                assert(passed + Seq::<(int, int)>::empty() =~= passed);
            }
            return Ok(total_length);
        }
        let ghost here = (start as int, start + size);
        proof {
            lemma_total_push(passed, here);
            match chunk_walk(bytes@, start + size + 2) {
                Ok(rest) => {
                    assert(passed + (seq![here] + rest.chunks) =~= passed.push(here) + rest.chunks);
                },
                Err(_) => {},
            }
            passed = passed.push(here);
        }
        total_length = total_length + size;
        pos = match (start + size).checked_add(2) {
            Some(next) => next,
            None => {
                proof {
                    lemma_first_match(bytes@, crlf(), start + size + 2);
                }
                return Err(
                    ParseError::new(
                        ErrorKind::InvalidEncoding,
                        "Invalid chunked encoding: missing chunk size CRLF",
                    ),
                );
            },
        };
    }
}

/// The span of the bytes of `src` from `start` up to `end`.
pub open spec fn slice_view(src: Seq<u8>, start: int, end: int) -> SpanView {
    SpanView {
        data: src.subrange(start, end),
        at: if start < end {
            seq![(start, end)]
        } else {
            Seq::<(int, int)>::empty()
        },
    }
}

/// The chunk whose payload lies in `src` at the given interval.
pub open spec fn cut(src: Seq<u8>, at: (int, int)) -> ChunkView {
    ChunkView {
        span: slice_view(src, at.0, at.1),
        data: src.subrange(at.0, at.1),
        extension: None,
    }
}

/// The chunks whose payloads lie in `src` at the given intervals.
pub open spec fn cuts(src: Seq<u8>, chunks: Seq<(int, int)>) -> Seq<ChunkView> {
    Seq::new(chunks.len(), |k: int| cut(src, chunks[k]))
}

/// The chunked body whose payloads lie in `src` at the given intervals: its
/// span holds the payloads one after the other, at those intervals.
pub open spec fn chunked_view(src: Seq<u8>, chunks: Seq<(int, int)>) -> ChunkedBodyView {
    ChunkedBodyView {
        chunks: cuts(src, chunks),
        span: SpanView { data: gathered(src, chunks), at: chunks },
    }
}

/// The body of a message: the chunks that begin at `start` where the
/// message is chunked, else the bytes from `start` up to `end`, which are
/// read as JSON where `json` says so.
pub open spec fn body_view(
    src: Seq<u8>,
    start: int,
    end: int,
    json: bool,
    coding: Option<TransferCoding>,
) -> Result<BodyView, ErrorKind> {
    if coding == Some(TransferCoding::Chunked) {
        match chunk_walk(src, start) {
            Ok(walk) => Ok(
                BodyView {
                    span: chunked_view(src, walk.chunks).span,
                    content: BodyContentView::Chunked(chunked_view(src, walk.chunks)),
                },
            ),
            Err(kind) => Err(kind),
        }
    } else if json {
        if !valid_utf8(src.subrange(start, end)) {
            Err(ErrorKind::InvalidEncoding)
        } else if !json::well_formed(src.subrange(start, end)) {
            Err(ErrorKind::SubParse)
        } else {
            Ok(
                BodyView {
                    span: slice_view(src, start, end),
                    content: BodyContentView::Json(slice_view(src, start, end)),
                },
            )
        }
    } else {
        Ok(
            BodyView {
                span: slice_view(src, start, end),
                content: BodyContentView::Unknown(slice_view(src, start, end)),
            },
        )
    }
}

/// The payloads of chunks cut from `src` are the bytes of `src` at their
/// intervals.
pub proof fn lemma_payload_of_cuts(src: Seq<u8>, chunks: Seq<(int, int)>)
    ensures
        payload(cuts(src, chunks)) == gathered(src, chunks),
    decreases chunks.len(),
{
    if chunks.len() > 0 {
        assert(cuts(src, chunks).drop_last() =~= cuts(src, chunks.drop_last()));
        lemma_payload_of_cuts(src, chunks.drop_last());
    }
}

/// The positions of chunks cut from `src` are those of their intervals,
/// where none of these is empty.
pub proof fn lemma_provenance_of_cuts(src: Seq<u8>, chunks: Seq<(int, int)>)
    requires
        normalized(chunks),
    ensures
        provenance(cuts(src, chunks)) == covered(chunks),
{
    let parts = cuts(src, chunks);
    assert forall|x: int| provenance(parts).contains(x) <==> covered(chunks).contains(x) by {
        if provenance(parts).contains(x) {
            let k = choose|k: int| 0 <= k < parts.len() && #[trigger] parts[k].span.positions().contains(x);
            assert(0 <= chunks[k].0 < chunks[k].1);
            let m = choose|m: int| holds(parts[k].span.at, m, x);
            assert(holds(chunks, k, x));
        }
        if covered(chunks).contains(x) {
            let k = choose|k: int| holds(chunks, k, x);
            assert(0 <= chunks[k].0 < chunks[k].1);
            assert(holds(parts[k].span.at, 0, x));
            assert(parts[k].span.positions().contains(x));
        }
    }
    assert(provenance(parts) =~= covered(chunks));
}

/// Parses the chunks of a body that begins at `start`. Returns the chunks,
/// and the position after the chunk of size zero that ends the body and
/// the CRLF that follows it.
pub fn parse_chunked_body(src: &Bytes, start: usize) -> (r: Result<(Vec<Chunk>, usize), ParseError>)
    ensures
        match r {
            Ok((chunks, end)) => {
                &&& chunk_walk(contents(*src), start as int) matches Ok(walk) && chunk_views(
                    chunks@,
                ) == cuts(contents(*src), walk.chunks) && end == walk.end
                &&& start <= end <= contents(*src).len()
            },
            Err(e) => {
                &&& chunk_walk(contents(*src), start as int) matches Err(kind) && e.kind == kind
                &&& e.kind == ErrorKind::InvalidEncoding || e.kind == ErrorKind::RangeOverrun
            },
        },
{
    let bytes = as_slice(src);
    let mut chunks: Vec<Chunk> = Vec::new();
    let mut pos: usize = start;
    let ghost mut passed = Seq::<(int, int)>::empty();
    proof {
        match chunk_walk(bytes@, pos as int) {
            Ok(walk) => {
                assert(passed + walk.chunks =~= walk.chunks);
            },
            Err(_) => {},
        }
        assert(chunk_views(chunks@) =~= cuts(bytes@, passed));
    }
    loop
        invariant
            start <= pos,
            bytes@ == contents(*src),
            chunk_walk(bytes@, start as int) == continued(passed, chunk_walk(bytes@, pos as int)),
            chunk_views(chunks@) == cuts(bytes@, passed),
        decreases bytes.len() + 2 - pos,
    {
        let (chunk_start, chunk_size) = match next_chunk(bytes, pos) {
            Ok(chunk) => chunk,
            Err(e) => {
                return Err(e);
            },
        };
        if chunk_size == 0 {
            proof {
                assert(passed + Seq::<(int, int)>::empty() =~= passed);
            }
            let end = if crlf_at(bytes, chunk_start) {
                chunk_start + 2
            } else {
                chunk_start
            };
            return Ok((chunks, end));
        }
        let chunk_data_end = chunk_start + chunk_size;
        let ghost here = (chunk_start as int, chunk_data_end as int);
        let ghost before = chunk_views(chunks@);
        let chunk = Chunk {
            span: Span::new_bytes(src.clone(), Range { start: chunk_start, end: chunk_data_end }),
            data: from_vec(slice_to_vec(slice_subrange(bytes, chunk_start, chunk_data_end))),
            extension: None,
        };
        assert(chunk@ == cut(bytes@, here));
        chunks.push(chunk);
        proof {
            match chunk_walk(bytes@, chunk_data_end + 2) {
                Ok(rest) => {
                    assert(passed + (seq![here] + rest.chunks) =~= passed.push(here) + rest.chunks);
                },
                Err(_) => {},
            }
            let earlier = passed;
            passed = passed.push(here);
            let now = chunk_views(chunks@);
            let then = cuts(bytes@, passed);
            assert(before.len() == earlier.len());
            assert(now.len() == then.len());
            assert forall|k: int| 0 <= k < now.len() implies now[k] == then[k] by {
                if k < before.len() {
                    assert(before[k] == cuts(bytes@, earlier)[k]);
                    assert(now[k] == before[k]);
                    assert(then[k] == cuts(bytes@, earlier)[k]);
                } else {
                    assert(now[k] == cut(bytes@, here));
                }
            }
            assert(now =~= then);
        }
        pos = match chunk_data_end.checked_add(2) {
            Some(next) => next,
            None => {
                proof {
                    lemma_first_match(bytes@, crlf(), chunk_data_end + 2);
                }
                return Err(
                    ParseError::new(
                        ErrorKind::InvalidEncoding,
                        "Invalid chunked encoding: missing chunk size CRLF",
                    ),
                );
            },
        };
    }
}

/// The bytes at intervals that lie in `src` are as many as the positions of
/// the intervals.
pub proof fn lemma_gathered_len(src: Seq<u8>, at: Seq<(int, int)>)
    requires
        forall|k: int| 0 <= k < at.len() ==> 0 <= (#[trigger] at[k]).0 <= at[k].1 <= src.len(),
    ensures
        gathered(src, at).len() == total(at),
    decreases at.len(),
{
    if at.len() > 0 {
        assert forall|k: int| 0 <= k < at.drop_last().len() implies 0 <= (
        #[trigger] at.drop_last()[k]).0 <= at.drop_last()[k].1 <= src.len() by {
            assert(at.drop_last()[k] == at[k]);
        }
        lemma_gathered_len(src, at.drop_last());
        assert(0 <= at[at.len() - 1].0 <= at[at.len() - 1].1 <= src.len());
    }
}

/// Parses the chunked body that begins at `start`. Returns the body, and
/// the position after its last chunk.
pub fn chunked_body_at(src: &Bytes, start: usize) -> (r: Result<(Body, usize), ParseError>)
    ensures
        match r {
            Ok((body, end)) => {
                &&& chunk_walk(contents(*src), start as int) matches Ok(walk) && end == walk.end
                    && body@ == (BodyView {
                    span: chunked_view(contents(*src), walk.chunks).span,
                    content: BodyContentView::Chunked(chunked_view(contents(*src), walk.chunks)),
                })
                &&& start <= end <= contents(*src).len()
                &&& body@.span.data.len() + 3 <= end - start
                &&& body.span.wf()
            },
            Err(e) => {
                &&& chunk_walk(contents(*src), start as int) matches Err(kind) && e.kind == kind
                &&& e.kind == ErrorKind::InvalidEncoding || e.kind == ErrorKind::RangeOverrun
            },
        },
{
    let (chunks, end) = match parse_chunked_body(src, start) {
        Ok(walked) => walked,
        Err(e) => {
            return Err(e);
        },
    };
    proof {
        let walk = chunk_walk(contents(*src), start as int)->Ok_0;
        lemma_chunk_walk(contents(*src), start as int);
        lemma_payload_of_cuts(contents(*src), walk.chunks);
        lemma_provenance_of_cuts(contents(*src), walk.chunks);
        assert forall|k: int| 0 <= k < walk.chunks.len() implies 0 <= (
        #[trigger] walk.chunks[k]).0 <= walk.chunks[k].1 <= contents(*src).len() by {
            assert(0 <= walk.chunks[k].0 < walk.chunks[k].1);
        }
        lemma_gathered_len(contents(*src), walk.chunks);
    }
    let chunked_body = build_chunked_body(chunks.as_slice());
    proof {
        let walk = chunk_walk(contents(*src), start as int)->Ok_0;
        lemma_canonical(chunked_body.span@.at, walk.chunks);
    }
    Ok((Body { span: chunked_body.span.clone(), content: BodyContent::Chunked(chunked_body) }, end))
}

/// Parses a request or response message body.
///
/// # Arguments
///
/// * `src` - The source bytes.
/// * `range` - The range of the message body in the source bytes.
/// * `json` - Whether the content type of the message is that of JSON.
/// * `transfer_encoding` - The transfer coding of the message, if any.
pub fn parse_body(
    src: &Bytes,
    range: Range<usize>,
    json: bool,
    transfer_encoding: Option<TransferCoding>,
) -> (r: Result<Body, ParseError>)
    requires
        range.start <= range.end <= contents(*src).len(),
    ensures
        match r {
            Ok(body) => body_view(
                contents(*src),
                range.start as int,
                range.end as int,
                json,
                transfer_encoding,
            ) == Ok::<BodyView, ErrorKind>(body@),
            Err(e) => body_view(
                contents(*src),
                range.start as int,
                range.end as int,
                json,
                transfer_encoding,
            ) == Err::<BodyView, ErrorKind>(e.kind),
        },
{
    if transfer_encoding == Some(TransferCoding::Chunked) {
        return match chunked_body_at(src, range.start) {
            Ok((body, _)) => Ok(body),
            Err(e) => Err(e),
        };
    }
    let span = Span::new_bytes(src.clone(), Range { start: range.start, end: range.end });
    let content = if json {
        match json::parse_in(src.clone(), range) {
            Ok(value) => BodyContent::Json(value),
            Err(e) => {
                return Err(e);
            },
        }
    } else {
        BodyContent::Unknown(span.clone())
    };
    Ok(Body { span, content })
}

} // verus!
