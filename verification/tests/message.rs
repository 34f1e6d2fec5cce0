use bytes::Bytes;
use spansy::http::span::{
    allows_no_body, assemble_request, assemble_response, from_header, locate_headers, locate_request_line,
    locate_status_line, parse_request_from_bytes, parse_response_from_bytes, read_rest,
    request_body_len, response_body_len, skip_empty_lines, MAX_HEADERS,
};
use spansy::http::tokenizer::{HeaderTokens, RequestTokens, ResponseTokens, Tokenized};
use spansy::http::{
    parse_request, parse_response, BodyContent, Requests, Responses, TransferCoding,
};
use spansy::json;
use spansy::range::RangeSet;
use spansy::{ErrorKind, StrSpan};

/// The bytes of `src` at the positions of `set`, in the order of the positions.
fn gather(src: &[u8], set: &RangeSet) -> Vec<u8> {
    let mut bytes = Vec::new();
    for range in set.ranges() {
        bytes.extend_from_slice(&src[range.clone()]);
    }
    bytes
}

#[test]
fn test_get_without_body() {
    let src = b"GET / HTTP/1.1\r\nHost: localhost\r\n\r\n";
    let req = parse_request(src).unwrap();
    assert_eq!(req.request.method.as_str(), "GET");
    assert_eq!(req.request.target.as_str(), "/");
    assert_eq!(req.request.span().as_str(), "GET / HTTP/1.1\r\n");
    assert!(req.body.is_none());
    assert_eq!(req.headers.len(), 1);
    assert_eq!(req.headers[0].name.as_str(), "Host");
    assert_eq!(req.headers[0].value.as_bytes(), b"localhost");
    assert_eq!(req.headers[0].span().as_bytes(), b"Host: localhost\r\n");
    assert_eq!(req.total_len, src.len());
    assert_eq!(req.to_range_set(), RangeSet::from(0..src.len()));
}

#[test]
fn test_post_with_content_length() {
    let src = b"POST /hello HTTP/1.1\r\nHost: localhost\r\nContent-Length: 14\r\n\r\nHello, world!\n";
    let req = parse_request(src).unwrap();
    let body = req.body.as_ref().unwrap();
    assert_eq!(body.as_bytes(), b"Hello, world!\n");
    assert_eq!(body.span().indices().ranges(), &[61..75]);
    assert!(matches!(body.content, BodyContent::Unknown(_)));
    assert_eq!(req.total_len, 75);
    assert_eq!(req.span().as_bytes(), src);
}

#[test]
fn test_positions_of_the_parts_of_a_request() {
    let req = parse_request(b"GET /home.html HTTP/1.1\r\nHost:  example.com \r\nA: b\r\n\r\n").unwrap();
    assert_eq!(req.request.to_range_set(), RangeSet::from(0..25));
    assert_eq!(req.request.method.to_range_set(), RangeSet::from(0..3));
    assert_eq!(req.request.method.span().as_str(), "GET");
    assert_eq!(req.request.target.to_range_set(), RangeSet::from(4..14));
    assert_eq!(req.request.target.span().as_str(), "/home.html");
    assert_eq!(req.headers[0].to_range_set(), RangeSet::from(25..46));
    assert_eq!(req.headers[0].name.to_range_set(), RangeSet::from(25..29));
    assert_eq!(req.headers[0].name.span().as_str(), "Host");
    assert_eq!(req.headers[0].value.to_range_set(), RangeSet::from(32..43));
    assert_eq!(req.headers[1].to_range_set(), RangeSet::from(46..52));
    assert_eq!(req.to_range_set(), RangeSet::from(0..54));
}

#[test]
fn test_positions_of_the_parts_of_a_response() {
    let res = parse_response(b"HTTP/1.1 404 Not Found\r\nContent-Length: 0\r\n\r\n").unwrap();
    assert_eq!(res.status.span().as_str(), "HTTP/1.1 404 Not Found\r\n");
    assert_eq!(res.status.to_range_set(), RangeSet::from(0..24));
    assert_eq!(res.status.code.as_str(), "404");
    assert_eq!(res.status.code.to_range_set(), RangeSet::from(9..12));
    assert_eq!(res.status.code.span().as_str(), "404");
    assert_eq!(res.status.reason.as_str(), "Not Found");
    assert_eq!(res.status.reason.to_range_set(), RangeSet::from(13..22));
    assert_eq!(res.status.reason.span().as_str(), "Not Found");
    assert_eq!(res.to_range_set(), RangeSet::from(0..45));
    assert_eq!(res.total_len, 45);
}

#[test]
fn test_status_code_with_leading_zeros_and_without_reason() {
    let res = parse_response(b"HTTP/1.1 007 x\r\nContent-Length: 0\r\n\r\n").unwrap();
    assert_eq!(res.status.code.as_str(), "007");
    assert_eq!(res.status.code.to_range_set(), RangeSet::from(9..12));

    let res = parse_response(b"HTTP/1.1 200\r\nContent-Length: 0\r\n\r\n").unwrap();
    assert_eq!(res.status.code.as_str(), "200");
    assert_eq!(res.status.reason.as_str(), "");
    assert!(res.status.reason.to_range_set().is_empty());
}

#[test]
fn test_chunked_response_reassembles_the_body() {
    let src = b"HTTP/1.1 200 OK\r\nTransfer-Encoding: chunked\r\n\r\n6\r\nHello \r\n6\r\nWorld!\r\n0\r\n\r\n";
    let res = parse_response(src).unwrap();
    let body = res.body.as_ref().unwrap();
    assert_eq!(body.as_bytes(), b"Hello World!");
    // The sizes and the line ends between the chunks are no part of it.
    assert_eq!(body.to_range_set(), RangeSet::from(vec![50..56, 61..67]));
    assert_eq!(res.total_len, src.len());
    assert_eq!(res.total_len, 74);
    // The span of the message is the head and the payloads.
    assert_eq!(res.to_range_set(), RangeSet::from(vec![0..47, 50..56, 61..67]));
    let mut expected = src[0..47].to_vec();
    expected.extend_from_slice(b"Hello World!");
    assert_eq!(res.span().as_bytes(), expected.as_slice());
}

#[test]
fn test_chunked_message_without_payload_has_no_body() {
    let src = b"POST / HTTP/1.1\r\nTransfer-Encoding: chunked\r\n\r\n0\r\n\r\n";
    let req = parse_request(src).unwrap();
    assert!(req.body.is_none());
    assert_eq!(req.total_len, src.len());
    assert_eq!(req.to_range_set(), RangeSet::from(0..47));
}

#[test]
fn test_no_content_never_has_a_body() {
    let src = b"HTTP/1.1 204 No Content\r\nContent-Length: 5\r\n\r\n";
    let res = parse_response(src).unwrap();
    assert!(res.body.is_none());
    assert_eq!(res.total_len, src.len());
    assert_eq!(response_body_len(&res, &Bytes::from_static(src), src.len()).unwrap(), 0);

    for head in [
        &b"HTTP/1.1 100 Continue\r\nContent-Length: 5\r\n\r\nhello"[..],
        &b"HTTP/1.1 199 X\r\nTransfer-Encoding: gzip\r\n\r\n"[..],
        &b"HTTP/1.1 304 Not Modified\r\n\r\n"[..],
    ] {
        let res = parse_response(head).unwrap();
        assert!(res.body.is_none());
    }
    let res = parse_response(b"HTTP/1.1 200 OK\r\nContent-Length: 5\r\n\r\nhello").unwrap();
    assert_eq!(res.body.unwrap().as_bytes(), b"hello");
    let res = parse_response(b"HTTP/1.1 099 X\r\nContent-Length: 5\r\n\r\nhello").unwrap();
    assert_eq!(res.body.unwrap().as_bytes(), b"hello");
}

#[test]
fn test_transfer_encoding_overrides_content_length() {
    let src = b"POST / HTTP/1.1\r\nContent-Length: 3\r\nTransfer-Encoding: chunked\r\n\r\n5\r\nhello\r\n0\r\n\r\n";
    let req = parse_request(src).unwrap();
    assert_eq!(req.body.as_ref().unwrap().as_bytes(), b"hello");
    assert_eq!(req.total_len, src.len());
    assert_eq!(
        request_body_len(&req, &Bytes::from_static(src), 66).unwrap(),
        5
    );
}

#[test]
fn test_first_content_length_counts() {
    let req = parse_request(b"POST / HTTP/1.1\r\nContent-Length: 2\r\nContent-Length: 4\r\n\r\nabcd").unwrap();
    assert_eq!(req.body.unwrap().as_bytes(), b"ab");
    assert_eq!(req.total_len, 59);
}

#[test]
fn test_error_incomplete() {
    assert_eq!(
        parse_request(b"GET / HTTP/1.1\r\nHost: a\r\n").unwrap_err().kind(),
        ErrorKind::Incomplete
    );
    assert_eq!(
        parse_response(b"HTTP/1.1 200").unwrap_err().kind(),
        ErrorKind::Incomplete
    );
    assert_eq!(parse_request(b"").unwrap_err().kind(), ErrorKind::Incomplete);
    let src = Bytes::from_static(b"GET / HTTP/1.1\r\n\r\n");
    assert_eq!(
        parse_request_from_bytes(&src, 19).unwrap_err().kind(),
        ErrorKind::Incomplete
    );
    assert_eq!(
        parse_response_from_bytes(&src, 18).unwrap_err().kind(),
        ErrorKind::Incomplete
    );
}

#[test]
fn test_error_malformed_head() {
    let err = parse_request(b"GET / HTTP/1.1\r\nHo st: a\r\n\r\n").unwrap_err();
    assert_eq!(err.kind(), ErrorKind::MalformedHead);
    assert_eq!(err.to_string(), "invalid header name");
    let err = parse_response(b"HTTP/1.1 2x0 OK\r\n\r\n").unwrap_err();
    assert_eq!(err.kind(), ErrorKind::MalformedHead);
    assert_eq!(err.to_string(), "invalid response status");
    // Lines that end without a carriage return.
    let err = parse_request(b"GET / HTTP/1.1\nHost: a\n\n").unwrap_err();
    assert_eq!(err.kind(), ErrorKind::MalformedHead);
}

#[test]
fn test_empty_lines_before_the_start_line() {
    let src = b"\r\n\n\r\nGET / HTTP/1.1\r\nHost: a\r\n\r\n";
    let req = parse_request(src).unwrap();
    // The request begins where it was looked for, its line after the empty lines.
    assert_eq!(req.to_range_set(), RangeSet::from(0..src.len()));
    assert_eq!(req.total_len, src.len());
    assert_eq!(req.request.span().as_str(), "GET / HTTP/1.1\r\n");
    assert_eq!(req.request.to_range_set(), RangeSet::from(5..21));
    assert_eq!(req.request.method.to_range_set(), RangeSet::from(5..8));
    assert_eq!(req.headers[0].to_range_set(), RangeSet::from(21..30));

    let res = parse_response(b"\r\nHTTP/1.1 200 OK\r\nContent-Length: 0\r\n\r\n").unwrap();
    assert_eq!(res.status.to_range_set(), RangeSet::from(2..19));
    assert_eq!(res.status.code.to_range_set(), RangeSet::from(11..14));
    assert_eq!(res.total_len, 40);

    assert_eq!(skip_empty_lines(b"\r\n\n\r\nGET", 0), 5);
    assert_eq!(skip_empty_lines(b"\r\n\n\r\nGET", 2), 5);
    assert_eq!(skip_empty_lines(b"\r\n\n\r\nGET", 5), 5);
    assert_eq!(skip_empty_lines(b"\rGET", 0), 0);
    assert_eq!(skip_empty_lines(b"\r\n\r", 0), 2);
    assert_eq!(skip_empty_lines(b"\n", 0), 1);
    assert_eq!(skip_empty_lines(b"", 0), 0);
}

#[test]
fn test_error_too_many_headers() {
    let mut src = b"GET / HTTP/1.1\r\n".to_vec();
    for _ in 0..MAX_HEADERS {
        src.extend_from_slice(b"A: b\r\n");
    }
    let mut fits = src.clone();
    fits.extend_from_slice(b"\r\n");
    assert_eq!(parse_request(&fits).unwrap().headers.len(), MAX_HEADERS);
    src.extend_from_slice(b"A: b\r\n\r\n");
    let err = parse_request(&src).unwrap_err();
    assert_eq!(err.kind(), ErrorKind::MalformedHead);
    assert_eq!(err.to_string(), "too many headers");
}

#[test]
fn test_error_invalid_encoding() {
    let err = parse_request(b"POST / HTTP/1.1\r\nContent-Length: x\r\n\r\n").unwrap_err();
    assert_eq!(err.kind(), ErrorKind::InvalidEncoding);
    let err = parse_request(b"POST / HTTP/1.1\r\nTransfer-Encoding: chunked\r\n\r\nzz\r\n").unwrap_err();
    assert_eq!(err.kind(), ErrorKind::InvalidEncoding);
    let err = parse_request(b"POST / HTTP/1.1\r\nTransfer-Encoding: chunked\r\n\r\n3").unwrap_err();
    assert_eq!(err.kind(), ErrorKind::InvalidEncoding);
    // A status line has to be text.
    let err = parse_response(b"HTTP/1.1 200 O\xffK\r\nContent-Length: 0\r\n\r\n").unwrap_err();
    assert_eq!(err.kind(), ErrorKind::InvalidEncoding);
    // A header value may be any bytes.
    let req = parse_request(b"GET / HTTP/1.1\r\nHost: \xff\r\n\r\n").unwrap();
    assert_eq!(req.headers[0].value.as_bytes(), b"\xff");
}

#[test]
fn test_error_unsupported_transfer_coding() {
    let err = parse_request(b"POST / HTTP/1.1\r\nTransfer-Encoding: gzip\r\n\r\n").unwrap_err();
    assert_eq!(err.kind(), ErrorKind::UnsupportedTransferCoding);
    assert_eq!(
        err.to_string(),
        "Transfer-Encoding other than chunked, identity not supported yet: gzip"
    );
    let err = parse_response(
        b"HTTP/1.1 200 OK\r\nTransfer-Encoding: gzip, deflate\r\nTransfer-Encoding: br\r\nContent-Length: 0\r\n\r\n",
    )
    .unwrap_err();
    assert_eq!(err.kind(), ErrorKind::UnsupportedTransferCoding);
    assert_eq!(
        err.to_string(),
        "Transfer-Encoding other than chunked, identity not supported yet: gzip, deflate, br"
    );
    let err = parse_request(b"POST / HTTP/1.1\r\nTransfer-Encoding:\r\n\r\n").unwrap_err();
    assert_eq!(err.kind(), ErrorKind::UnsupportedTransferCoding);
    // An accepted coding beside it does not save the message.
    let err = parse_request(
        b"POST / HTTP/1.1\r\nTransfer-Encoding: chunked, gzip\r\n\r\n3\r\nabc\r\n0\r\n\r\n",
    )
    .unwrap_err();
    assert_eq!(err.kind(), ErrorKind::UnsupportedTransferCoding);
    assert_eq!(
        err.to_string(),
        "Transfer-Encoding other than chunked, identity not supported yet: gzip"
    );
    let err = parse_response(
        b"HTTP/1.1 200 OK\r\nTransfer-Encoding: identity\r\nTransfer-Encoding: gzip\r\nTransfer-Encoding: chunked\r\n\r\nc\r\nHello World!\r\n0\r\n\r\n",
    )
    .unwrap_err();
    assert_eq!(err.kind(), ErrorKind::UnsupportedTransferCoding);
    assert!(err.to_string().ends_with(": gzip"));
}

#[test]
fn test_error_undeterminable_body_length() {
    let err = parse_response(b"HTTP/1.1 200 OK\r\nServer: a\r\n\r\n").unwrap_err();
    assert_eq!(err.kind(), ErrorKind::UndeterminableBodyLength);
    let err = parse_response(b"HTTP/1.1 200 OK\r\nTransfer-Encoding: identity\r\n\r\n").unwrap_err();
    assert_eq!(err.kind(), ErrorKind::UndeterminableBodyLength);
    let err = parse_request(b"POST / HTTP/1.1\r\nTransfer-Encoding: identity\r\n\r\n").unwrap_err();
    assert_eq!(err.kind(), ErrorKind::UndeterminableBodyLength);
    // A request declares no body by declaring neither.
    let req = parse_request(b"POST / HTTP/1.1\r\nServer: a\r\n\r\n").unwrap();
    assert!(req.body.is_none());
}

#[test]
fn test_error_range_overrun() {
    let err = parse_request(b"POST / HTTP/1.1\r\nContent-Length: 5\r\n\r\nabc").unwrap_err();
    assert_eq!(err.kind(), ErrorKind::RangeOverrun);
    let max = format!("POST / HTTP/1.1\r\nContent-Length: {}\r\n\r\nabc", usize::MAX);
    let err = parse_request(max.as_bytes()).unwrap_err();
    assert_eq!(err.kind(), ErrorKind::RangeOverrun);
    let err = parse_response(b"HTTP/1.1 200 OK\r\nTransfer-Encoding: chunked\r\n\r\n5\r\nabc").unwrap_err();
    assert_eq!(err.kind(), ErrorKind::RangeOverrun);
}

#[test]
fn test_error_sub_parse() {
    let err = parse_request(
        b"POST / HTTP/1.1\r\nContent-Type: application/json\r\nContent-Length: 3\r\n\r\n{x}",
    )
    .unwrap_err();
    assert_eq!(err.kind(), ErrorKind::SubParse);
    let err = parse_response(
        b"HTTP/1.1 200 OK\r\nContent-Type: application/json\r\nContent-Length: 5\r\n\r\n{} {}",
    )
    .unwrap_err();
    assert_eq!(err.kind(), ErrorKind::SubParse);
}

#[test]
fn test_json_parse() {
    let value = json::parse(Bytes::from_static(b" [1, {\"a\": null}] ")).unwrap();
    assert_eq!(value.span().as_str(), " [1, {\"a\": null}] ");
    assert_eq!(value.span().indices().ranges(), &[0..18]);
    assert_eq!(
        json::parse(Bytes::from_static(b"[1,")).unwrap_err().kind(),
        ErrorKind::SubParse
    );
    assert_eq!(
        json::parse(Bytes::from_static(b"")).unwrap_err().kind(),
        ErrorKind::SubParse
    );
    assert_eq!(
        json::parse(Bytes::from_static(b"\xff")).unwrap_err().kind(),
        ErrorKind::InvalidEncoding
    );
    let value = json::parse_in(Bytes::from_static(b"xx[]yy"), 2..4).unwrap();
    assert_eq!(value.span().as_str(), "[]");
    assert_eq!(value.span().indices().ranges(), &[2..4]);
}

#[test]
fn test_json_judged_goes_by_the_verdict() {
    let src = Bytes::from_static(b"not json");
    let span = StrSpan::new_str(src.clone(), 0..8).unwrap();
    let value = json::judged(span, true).unwrap();
    assert_eq!(value.span().as_str(), "not json");
    let span = StrSpan::new_str(src, 0..8).unwrap();
    assert_eq!(
        json::judged(span, false).unwrap_err().kind(),
        ErrorKind::SubParse
    );
}

#[test]
fn test_json_value_offset() {
    let mut value = json::parse(Bytes::from_static(b"{}")).unwrap();
    value.offset(40);
    assert_eq!(value.span().as_str(), "{}");
    assert_eq!(value.span().indices().ranges(), &[40..42]);
    assert_eq!(value.clone(), value);
}

#[test]
fn test_requests_walk_moves_by_the_length_of_each_request() {
    let src = b"GET / HTTP/1.1\r\nHost: localhost\r\n\r\nPOST /hello HTTP/1.1\r\nHost: localhost\r\nContent-Length: 14\r\n\r\nHello, world!\n";
    let mut requests = Requests::new_from_slice(src);
    assert_eq!(requests.position(), 0);
    let first = requests.next().unwrap().unwrap();
    assert_eq!(first.total_len, 35);
    assert_eq!(requests.position(), 35);
    let second = requests.next().unwrap().unwrap();
    assert_eq!(second.to_range_set(), RangeSet::from(35..src.len()));
    assert_eq!(second.request.method.to_range_set(), RangeSet::from(35..39));
    assert_eq!(requests.position(), src.len());
    assert!(requests.next().is_none());
    assert!(requests.next().is_none());
    assert_eq!(requests.position(), src.len());
}

#[test]
fn test_responses_walk_passes_the_framing_of_chunks() {
    let src = b"HTTP/1.1 200 OK\r\nContent-Length: 0\r\n\r\n\
        HTTP/1.1 200 OK\r\nContent-Type: application/json\r\nContent-Length: 14\r\n\r\n{\"foo\": \"bar\"}\
        HTTP/1.1 200 OK\r\nTransfer-Encoding: chunked\r\n\r\n3\r\nabc\r\n0\r\n\r\n\
        HTTP/1.1 204 No Content\r\n\r\n";
    let mut responses = Responses::new(Bytes::copy_from_slice(src));
    assert_eq!(responses.position(), 0);
    let first = responses.next().unwrap().unwrap();
    assert!(first.body.is_none());
    assert_eq!(responses.position(), 38);
    let second = responses.next().unwrap().unwrap();
    assert!(matches!(
        second.body.as_ref().unwrap().content,
        BodyContent::Json(_)
    ));
    assert_eq!(responses.position(), 38 + 85);
    let third = responses.next().unwrap().unwrap();
    assert_eq!(third.body.as_ref().unwrap().as_bytes(), b"abc");
    assert_eq!(third.total_len, 60);
    assert_eq!(responses.position(), 38 + 85 + 60);
    let fourth = responses.next().unwrap().unwrap();
    assert_eq!(fourth.status.code.as_str(), "204");
    assert_eq!(responses.position(), src.len());
    assert!(responses.next().is_none());
}

#[test]
fn test_two_responses_the_second_with_json() {
    let src = b"HTTP/1.1 200 OK\r\nContent-Length: 0\r\n\r\n\
        HTTP/1.1 200 OK\r\nContent-Type: application/json\r\nContent-Length: 14\r\n\r\n{\"foo\": \"bar\"}";
    let mut responses = Responses::new_from_slice(src);
    let first = responses.next().unwrap().unwrap();
    assert!(first.body.is_none());
    assert_eq!(responses.position(), 38);
    let second = responses.next().unwrap().unwrap();
    let BodyContent::Json(value) = &second.body.as_ref().unwrap().content else {
        panic!("body is not json");
    };
    assert_eq!(value.span().as_str(), "{\"foo\": \"bar\"}");
    assert_eq!(value.span().indices().ranges(), &[109..123]);
    assert_eq!(responses.position(), src.len());
    assert!(responses.next().is_none());
}

#[test]
fn test_walk_stays_at_an_error() {
    let src = b"GET / HTTP/1.1\r\nHost: a\r\n\r\nGET / HTTP/1.1\r\nTransfer-Encoding: gzip\r\n\r\nGET / HTTP/1.1\r\n\r\n";
    let mut requests = Requests::new_from_slice(src);
    assert!(requests.next().unwrap().is_ok());
    assert_eq!(requests.position(), 27);
    let err = requests.next().unwrap().unwrap_err();
    assert_eq!(err.kind(), ErrorKind::UnsupportedTransferCoding);
    assert_eq!(requests.position(), 27);
    // The same failure again, at the same place.
    let again = requests.next().unwrap().unwrap_err();
    assert_eq!(again, err);
    assert_eq!(requests.position(), 27);

    let mut responses = Responses::new_from_slice(b"HTTP/1.1 200 OK\r\n");
    assert_eq!(
        responses.next().unwrap().unwrap_err().kind(),
        ErrorKind::Incomplete
    );
    assert_eq!(responses.position(), 0);
}

#[test]
fn test_walk_of_nothing_has_no_message() {
    assert!(Requests::new_from_slice(b"").next().is_none());
    assert!(Responses::new(Bytes::new()).next().is_none());
}

#[test]
fn test_span_of_a_message_holds_the_bytes_at_its_positions() {
    let plain: &[u8] = b"POST /hello HTTP/1.1\r\nHost: localhost\r\nContent-Length: 14\r\n\r\nHello, world!\ntrailing";
    let req = parse_request(plain).unwrap();
    assert_eq!(gather(plain, req.span().indices()), req.span().as_bytes());
    assert_eq!(req.span().as_bytes(), &plain[..req.total_len]);

    let chunked: &[u8] = b"HTTP/1.1 200 OK\r\nTransfer-Encoding: chunked\r\n\r\n6\r\nHello \r\n6\r\nWorld!\r\n0\r\n\r\n";
    let res = parse_response(chunked).unwrap();
    assert_eq!(gather(chunked, res.span().indices()), res.span().as_bytes());
    let body = res.body.as_ref().unwrap();
    assert_eq!(gather(chunked, body.span().indices()), body.as_bytes());

    let mut both = plain[..75].to_vec();
    both.extend_from_slice(plain);
    let src = Bytes::from(both.clone());
    let second = parse_request_from_bytes(&src, 75).unwrap();
    assert_eq!(gather(&both, second.span().indices()), second.span().as_bytes());
    assert_eq!(second.span().as_bytes(), &both[75..150]);
    assert_eq!(
        gather(&both, second.headers[1].span().indices()),
        b"Content-Length: 14\r\n"
    );
}

#[test]
fn test_without_value_and_without_target() {
    let req = parse_request(b"GET /a/b HTTP/1.1\r\nHost:  example.com \r\n\r\n").unwrap();
    assert_eq!(
        req.request.without_target(),
        RangeSet::from(vec![0..4, 8..19])
    );
    assert_eq!(
        req.headers[0].without_value(),
        RangeSet::from(vec![19..26, 37..40])
    );
}

#[test]
fn test_request_without_data() {
    let src = b"POST /a HTTP/1.1\r\nHost: h\r\nContent-Length: 2\r\n\r\nhi";
    let req = parse_request(src).unwrap();
    // The method, the version and the line ends are left.
    assert_eq!(
        req.without_data(),
        RangeSet::from(vec![0..5, 7..18, 46..48])
    );
    assert_eq!(gather(src, &req.without_data()), b"POST  HTTP/1.1\r\n\r\n");
}

#[test]
fn test_response_without_data() {
    let src = b"HTTP/1.1 200 OK\r\nServer: s\r\nTransfer-Encoding: chunked\r\n\r\n2\r\nhi\r\n0\r\n\r\n";
    let res = parse_response(src).unwrap();
    assert_eq!(res.without_data(), RangeSet::from(vec![0..17, 56..58]));
    let res = parse_response(b"HTTP/1.1 204 No Content\r\n\r\n").unwrap();
    assert_eq!(res.without_data(), RangeSet::from(0..27));
}

#[test]
fn test_offset_moves_every_part_of_a_request() {
    let src = b"POST /a HTTP/1.1\r\nHost: h\r\nContent-Type: application/json\r\nContent-Length: 2\r\n\r\n{}";
    let mut req = parse_request(src).unwrap();
    let at_zero = parse_request(src).unwrap();
    req.offset(1000);
    assert_eq!(req.total_len, at_zero.total_len);
    assert_eq!(req.span().as_bytes(), src);
    assert_eq!(req.to_range_set(), RangeSet::from(1000..1000 + src.len()));
    assert_eq!(req.request.to_range_set(), RangeSet::from(1000..1018));
    assert_eq!(req.request.method.to_range_set(), RangeSet::from(1000..1004));
    assert_eq!(req.request.target.to_range_set(), RangeSet::from(1005..1007));
    assert_eq!(req.headers[0].to_range_set(), RangeSet::from(1018..1027));
    assert_eq!(req.headers[0].name.to_range_set(), RangeSet::from(1018..1022));
    assert_eq!(req.headers[0].value.to_range_set(), RangeSet::from(1024..1025));
    let body = req.body.as_ref().unwrap();
    assert_eq!(body.to_range_set(), RangeSet::from(1080..1082));
    // The content moves with the body.
    assert_eq!(body.content.to_range_set(), RangeSet::from(1080..1082));

    // Parsed in place, the message has the same positions.
    let mut shifted = vec![b' '; 1000];
    shifted.extend_from_slice(src);
    let in_place = parse_request_from_bytes(&Bytes::from(shifted), 1000).unwrap();
    assert_eq!(req, in_place);
}

#[test]
fn test_offset_moves_every_part_of_a_chunked_response() {
    let src = b"HTTP/1.1 200 OK\r\nTransfer-Encoding: chunked\r\n\r\n2\r\nhi\r\n1\r\n!\r\n0\r\n\r\n";
    let mut res = parse_response(src).unwrap();
    res.offset(10);
    assert_eq!(res.status.to_range_set(), RangeSet::from(10..27));
    assert_eq!(res.status.code.to_range_set(), RangeSet::from(19..22));
    assert_eq!(res.status.reason.to_range_set(), RangeSet::from(23..25));
    assert_eq!(res.to_range_set(), RangeSet::from(vec![10..57, 60..62, 67..68]));
    let body = res.body.as_ref().unwrap();
    assert_eq!(body.to_range_set(), RangeSet::from(vec![60..62, 67..68]));
    let BodyContent::Chunked(chunked) = &body.content else {
        panic!("body is not chunked");
    };
    assert_eq!(chunked.span.to_range_set(), RangeSet::from(vec![60..62, 67..68]));
    assert_eq!(chunked.chunks[0].span.to_range_set(), RangeSet::from(60..62));
    assert_eq!(chunked.chunks[1].span.to_range_set(), RangeSet::from(67..68));
    assert_eq!(body.as_bytes(), b"hi!");

    let mut shifted = vec![b' '; 10];
    shifted.extend_from_slice(src);
    let in_place = parse_response_from_bytes(&Bytes::from(shifted), 10).unwrap();
    assert_eq!(res, in_place);
}

#[test]
fn test_offset_of_the_parts_one_by_one() {
    let mut req = parse_request(b"GET /a HTTP/1.1\r\nHost: h\r\n\r\n").unwrap();
    req.request.method.offset(1);
    assert_eq!(req.request.method.to_range_set(), RangeSet::from(1..4));
    req.request.target.offset(2);
    assert_eq!(req.request.target.to_range_set(), RangeSet::from(6..8));
    req.headers[0].name.offset(3);
    assert_eq!(req.headers[0].name.to_range_set(), RangeSet::from(20..24));
    req.headers[0].value.offset(4);
    assert_eq!(req.headers[0].value.to_range_set(), RangeSet::from(27..28));
    req.headers[0].offset(1);
    assert_eq!(req.headers[0].to_range_set(), RangeSet::from(18..27));
    assert_eq!(req.headers[0].name.to_range_set(), RangeSet::from(21..25));
    req.request.offset(1);
    assert_eq!(req.request.to_range_set(), RangeSet::from(1..18));
    assert_eq!(req.request.method.to_range_set(), RangeSet::from(2..5));

    let mut res = parse_response(b"HTTP/1.1 200 OK\r\nContent-Length: 2\r\n\r\nhi").unwrap();
    res.status.code.offset(1);
    assert_eq!(res.status.code.to_range_set(), RangeSet::from(10..13));
    res.status.reason.offset(2);
    assert_eq!(res.status.reason.to_range_set(), RangeSet::from(15..17));
    res.status.offset(3);
    assert_eq!(res.status.to_range_set(), RangeSet::from(3..20));
    assert_eq!(res.status.code.to_range_set(), RangeSet::from(13..16));
    let body = res.body.as_mut().unwrap();
    body.offset(5);
    assert_eq!(body.to_range_set(), RangeSet::from(43..45));
    assert_eq!(body.as_bytes(), b"hi");
}

#[test]
fn test_headers_with_name_ignores_case_and_keeps_order() {
    let res = parse_response(
        b"HTTP/1.1 200 OK\r\nSet-Cookie: a\r\nX: y\r\nSET-COOKIE: b\r\nset-cookie: c\r\nContent-Length: 0\r\n\r\n",
    )
    .unwrap();
    let cookies = res.headers_with_name("sEt-cOoKiE");
    assert_eq!(
        cookies.iter().map(|h| h.value.as_bytes()).collect::<Vec<_>>(),
        vec![b"a", b"b", b"c"]
    );
    assert!(res.headers_with_name("set-cookies").is_empty());
    assert!(res.headers_with_name("").is_empty());
}

fn tokens(name: &[u8], value: &[u8]) -> HeaderTokens {
    HeaderTokens {
        name: name.to_vec(),
        value: value.to_vec(),
    }
}

#[test]
fn test_assemble_request_from_tokens() {
    let src = Bytes::from_static(b"xxGET / HTTP/1.1\r\nA: b\r\n\r\nrest");
    let outcome = Tokenized::Complete(RequestTokens {
        head_len: 24,
        method: Some(b"GET".to_vec()),
        target: Some(b"/".to_vec()),
        headers: vec![tokens(b"A", b"b")],
    });
    let req = assemble_request(&src, 2, outcome).unwrap();
    assert_eq!(req.request.span().as_str(), "GET / HTTP/1.1\r\n");
    assert_eq!(req.request.method.to_range_set(), RangeSet::from(2..5));
    assert_eq!(req.request.target.to_range_set(), RangeSet::from(6..7));
    assert_eq!(req.headers[0].to_range_set(), RangeSet::from(18..24));
    assert_eq!(req.to_range_set(), RangeSet::from(2..26));
    assert_eq!(req.total_len, 24);
    assert!(req.body.is_none());
}

#[test]
fn test_assemble_request_goes_by_the_outcome() {
    let src = Bytes::from_static(b"GET / HTTP/1.1\r\nA: b\r\n\r\n");
    let err = assemble_request(&src, 0, Tokenized::Partial).unwrap_err();
    assert_eq!(err.kind(), ErrorKind::Incomplete);
    let err = assemble_request(&src, 0, Tokenized::Rejected("no head".to_string())).unwrap_err();
    assert_eq!(err.kind(), ErrorKind::MalformedHead);
    assert_eq!(err.to_string(), "no head");

    let complete = |head_len, method: Option<&[u8]>, target: Option<&[u8]>, headers| {
        Tokenized::Complete(RequestTokens {
            head_len,
            method: method.map(|m| m.to_vec()),
            target: target.map(|t| t.to_vec()),
            headers,
        })
    };
    let malformed = [
        // No method, no target.
        complete(24, None, Some(b"/"), vec![]),
        complete(24, Some(b"GET"), None, vec![]),
        // A head of no byte, or of more than there are.
        complete(0, Some(b"GET"), Some(b"/"), vec![]),
        complete(25, Some(b"GET"), Some(b"/"), vec![]),
        // A head that ends within the request line.
        complete(15, Some(b"GET"), Some(b"/"), vec![]),
        // A method or a target that the request line does not hold.
        complete(24, Some(b"PUT"), Some(b"/"), vec![]),
        complete(24, Some(b"GET"), Some(b"/x"), vec![]),
        complete(24, Some(b"A"), Some(b"/"), vec![]),
        complete(24, Some(b"GET"), Some(b"b"), vec![]),
        // A header that the head does not hold.
        complete(24, Some(b"GET"), Some(b"/"), vec![tokens(b"B", b"b")]),
        complete(24, Some(b"GET"), Some(b"/"), vec![tokens(b"A", b"c")]),
        complete(24, Some(b"GET"), Some(b"/"), vec![tokens(b"A", b"b"), tokens(b"A", b"b")]),
        // A header whose line ends after the head.
        complete(21, Some(b"GET"), Some(b"/"), vec![tokens(b"A", b"b")]),
    ];
    for outcome in malformed {
        let err = assemble_request(&src, 0, outcome).unwrap_err();
        assert_eq!(err.kind(), ErrorKind::MalformedHead);
    }
}

#[test]
fn test_assemble_response_from_tokens() {
    let src = Bytes::from_static(b"HTTP/1.1 200 OK\r\nContent-Length: 2\r\n\r\nhi");
    let complete = |head_len, code, reason: Option<&[u8]>| {
        Tokenized::Complete(ResponseTokens {
            head_len,
            code,
            reason: reason.map(|r| r.to_vec()),
            headers: vec![tokens(b"Content-Length", b"2")],
        })
    };
    let res = assemble_response(&src, 0, complete(38, Some(200), Some(b"OK"))).unwrap();
    assert_eq!(res.status.code.to_range_set(), RangeSet::from(9..12));
    assert_eq!(res.status.reason.to_range_set(), RangeSet::from(13..15));
    assert_eq!(res.body.as_ref().unwrap().as_bytes(), b"hi");
    assert_eq!(res.total_len, 40);

    for outcome in [
        complete(38, None, Some(b"OK")),
        complete(38, Some(200), None),
        complete(38, Some(201), Some(b"OK")),
        complete(38, Some(1000), Some(b"OK")),
        complete(38, Some(200), Some(b"KO")),
        complete(0, Some(200), Some(b"OK")),
        complete(41, Some(200), Some(b"OK")),
    ] {
        let err = assemble_response(&src, 0, outcome).unwrap_err();
        assert_eq!(err.kind(), ErrorKind::MalformedHead);
    }
    let err = assemble_response(&src, 0, Tokenized::Partial).unwrap_err();
    assert_eq!(err.kind(), ErrorKind::Incomplete);
    let err = assemble_response(&src, 0, Tokenized::Rejected("bad".to_string())).unwrap_err();
    assert_eq!(err.to_string(), "bad");
}

#[test]
fn test_locate_lines_and_headers() {
    let src = Bytes::from_static(b"GET /GET HTTP/1.1\r\nGET: GET\r\nEmpty:  \r\n\r\n");
    let (line, next) = locate_request_line(&src, 0, 41, b"GET", b"/GET").unwrap();
    assert_eq!(next, 19);
    assert_eq!(line.method.to_range_set(), RangeSet::from(0..3));
    assert_eq!(line.target.to_range_set(), RangeSet::from(4..8));

    let (header, next) = from_header(&src, &tokens(b"GET", b"GET"), 19, 41).unwrap();
    assert_eq!(next, 29);
    assert_eq!(header.name.to_range_set(), RangeSet::from(19..22));
    assert_eq!(header.value.to_range_set(), RangeSet::from(24..27));
    assert_eq!(header.to_range_set(), RangeSet::from(19..29));

    let all = [tokens(b"GET", b"GET"), tokens(b"Empty", b"")];
    let headers = locate_headers(&src, &all, 19, 41).unwrap();
    assert_eq!(headers.len(), 2);
    assert_eq!(headers[1].to_range_set(), RangeSet::from(29..39));
    assert!(headers[1].value.to_range_set().is_empty());
    assert_eq!(headers[1].value.as_bytes(), b"");
    assert_eq!(
        locate_headers(&src, &all, 20, 41).unwrap_err().kind(),
        ErrorKind::MalformedHead
    );

    let src = Bytes::from_static(b"HTTP/1.1 200 200\r\n\r\n");
    let (line, next) = locate_status_line(&src, 0, 20, 200, b"200").unwrap();
    assert_eq!(next, 18);
    assert_eq!(line.code.to_range_set(), RangeSet::from(9..12));
    assert_eq!(line.reason.to_range_set(), RangeSet::from(13..16));
    let (line, _) = locate_status_line(&src, 0, 20, 200, b"").unwrap();
    assert!(line.reason.to_range_set().is_empty());
}

#[test]
fn test_read_rest() {
    let src = Bytes::from_static(b"POST / HTTP/1.1\r\nContent-Length: 2\r\n\r\nhi+");
    let (span, body, total_len) = read_rest(&src, 0, 38, false, None, 2).unwrap();
    assert_eq!(span.indices().ranges(), &[0..40]);
    assert_eq!(body.unwrap().as_bytes(), b"hi");
    assert_eq!(total_len, 40);
    let (span, body, total_len) = read_rest(&src, 0, 38, false, None, 0).unwrap();
    assert_eq!(span.indices().ranges(), &[0..38]);
    assert!(body.is_none());
    assert_eq!(total_len, 38);
    let (_, body, total_len) =
        read_rest(&src, 0, 38, false, Some(TransferCoding::Identity), 3).unwrap();
    assert_eq!(body.unwrap().as_bytes(), b"hi+");
    assert_eq!(total_len, 41);
    assert_eq!(
        read_rest(&src, 0, 38, false, None, 4).unwrap_err().kind(),
        ErrorKind::RangeOverrun
    );
    assert_eq!(
        read_rest(&src, 0, 38, true, None, 2).unwrap_err().kind(),
        ErrorKind::SubParse
    );

    let src = Bytes::from_static(b"head2\r\nhi\r\n0\r\n\r\n");
    let (span, body, total_len) =
        read_rest(&src, 0, 4, true, Some(TransferCoding::Chunked), 2).unwrap();
    assert_eq!(span.indices().ranges(), &[0..4, 7..9]);
    assert_eq!(span.as_bytes(), b"headhi");
    assert_eq!(body.unwrap().as_bytes(), b"hi");
    assert_eq!(total_len, 16);
}

#[test]
fn test_bodiless_response_ignores_its_transfer_encoding() {
    let src = b"HTTP/1.1 204 No Content\r\nTransfer-Encoding: chunked\r\n\r\n";
    let res = parse_response(src).unwrap();
    assert!(res.body.is_none());
    assert_eq!(res.total_len, src.len());
    assert_eq!(res.to_range_set(), RangeSet::from(0..src.len()));
    assert!(allows_no_body(&res));

    let mut two = src.to_vec();
    two.extend_from_slice(b"HTTP/1.1 200 OK\r\nTransfer-Encoding: chunked\r\n\r\n0\r\n\r\n");
    let mut responses = Responses::new_from_slice(&two);
    assert!(responses.next().unwrap().unwrap().body.is_none());
    assert_eq!(responses.position(), src.len());
    let second = responses.next().unwrap().unwrap();
    assert!(!allows_no_body(&second));
    assert!(second.body.is_none());
    assert_eq!(responses.position(), two.len());
}
