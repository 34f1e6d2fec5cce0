use bytes::Bytes;
use spansy::http::helpers::{
    codings_of, content_type_of, get_content_type_request, get_content_type_response,
    get_header_values_from_iter, get_header_values_request, get_header_values_response,
    get_transfer_encoding_request, get_transfer_encoding_response,
    invalid_transfer_encoding_message, invalid_transfer_encoding_message_request,
    invalid_transfer_encoding_message_response, is_accepted, is_json,
    is_valid_transfer_encoding, is_valid_transfer_encoding_request,
    is_valid_transfer_encoding_response, listed_items, split_items, texts_of,
    transfer_encoding_of, unaccepted_of,
};
use spansy::http::parse::{
    chunked_body_at, next_chunk, parse_body, parse_chunk_size, parse_chunked_body,
    parse_content_length, parse_transfer_encoding_chunked_length,
};
use spansy::http::types::{chunked_body_range_set, chunked_body_span};
use spansy::http::{
    parse_request, parse_response, BodyContent, Chunk, Request, Response, TransferCoding,
};
use spansy::range::RangeSet;
use spansy::{ErrorKind, Span};

#[test]
fn test_parse_content_length() {
    let req = parse_request(b"POST / HTTP/1.1\r\nContent-Length: 14\r\nX-Len: 1e\r\nX-No:\r\n\r\n01234567890123").unwrap();
    assert_eq!(parse_content_length(&req.headers[0]).unwrap(), 14);
    let err = parse_content_length(&req.headers[1]).unwrap_err();
    assert_eq!(err.kind(), ErrorKind::InvalidEncoding);
    let err = parse_content_length(&req.headers[2]).unwrap_err();
    assert_eq!(err.kind(), ErrorKind::InvalidEncoding);
}

#[test]
fn test_parse_chunk_size() {
    assert_eq!(parse_chunk_size(b"6"), Some(6));
    assert_eq!(parse_chunk_size(b"345"), Some(837));
    assert_eq!(parse_chunk_size(b"E"), Some(14));
    assert_eq!(parse_chunk_size(b"0"), Some(0));
    assert_eq!(parse_chunk_size(b""), None);
    assert_eq!(parse_chunk_size(b"6;name=value"), None);
    assert_eq!(parse_chunk_size(b"\xff"), None);
}

#[test]
fn test_parse_chunk_size_ignores_white_space_around_it() {
    assert_eq!(parse_chunk_size(b" 1f\t"), Some(31));
    assert_eq!(parse_chunk_size(b"\n1f\r"), Some(31));
    // U+00A0 and U+3000 are white space, U+200B is not.
    assert_eq!(parse_chunk_size("\u{a0}1f\u{3000}".as_bytes()), Some(31));
    assert_eq!(parse_chunk_size("\u{200b}1f".as_bytes()), None);
    assert_eq!(parse_chunk_size(b"1 f"), None);
    assert_eq!(parse_chunk_size(b"   "), None);
}

#[test]
fn test_next_chunk() {
    let src = b"6\r\nHello \r\n0\r\n\r\n";
    assert_eq!(next_chunk(src, 0).unwrap(), (3, 6));
    assert_eq!(next_chunk(src, 11).unwrap(), (14, 0));
    assert_eq!(
        next_chunk(src, 14).unwrap_err().kind(),
        ErrorKind::InvalidEncoding
    );
    assert_eq!(
        next_chunk(src, 100).unwrap_err().kind(),
        ErrorKind::InvalidEncoding
    );
    assert_eq!(
        next_chunk(b"6\r\nHello", 0).unwrap_err().kind(),
        ErrorKind::RangeOverrun
    );
    assert_eq!(
        next_chunk(b"6", 0).unwrap_err().kind(),
        ErrorKind::InvalidEncoding
    );
}

#[test]
fn test_chunked_length_adds_up_the_sizes() {
    let src = Bytes::from_static(b"head6\r\nHello \r\n6\r\nWorld!\r\n0\r\n\r\n");
    assert_eq!(parse_transfer_encoding_chunked_length(&src, 4).unwrap(), 12);
    let src = Bytes::from_static(b"0\r\n\r\n");
    assert_eq!(parse_transfer_encoding_chunked_length(&src, 0).unwrap(), 0);
    let src = Bytes::from_static(b"a\r\n0123456789\r\n");
    assert_eq!(
        parse_transfer_encoding_chunked_length(&src, 0)
            .unwrap_err()
            .kind(),
        ErrorKind::InvalidEncoding
    );
    let src = Bytes::from_static(b"a\r\n012345");
    assert_eq!(
        parse_transfer_encoding_chunked_length(&src, 0)
            .unwrap_err()
            .kind(),
        ErrorKind::RangeOverrun
    );
}

#[test]
fn test_parse_chunked_body_cuts_the_payloads() {
    let src = Bytes::from_static(b"head6\r\nHello \r\n6\r\nWorld!\r\n0\r\n\r\nnext");
    let (chunks, end) = parse_chunked_body(&src, 4).unwrap();
    assert_eq!(chunks.len(), 2);
    assert_eq!(chunks[0].span.as_bytes(), b"Hello ");
    assert_eq!(chunks[0].span.indices().ranges(), &[7..13]);
    assert_eq!(chunks[0].data.as_ref(), b"Hello ");
    assert!(chunks[0].extension.is_none());
    assert_eq!(chunks[1].span.as_bytes(), b"World!");
    assert_eq!(chunks[1].span.indices().ranges(), &[18..24]);
    // The chunk of size zero and the empty line after it are passed.
    assert_eq!(end, 31);
    assert_eq!(&src[end..], b"next");
}

#[test]
fn test_chunked_body_may_end_without_the_empty_line() {
    let src = Bytes::from_static(b"3\r\nabc\r\n0\r\n");
    let (chunks, end) = parse_chunked_body(&src, 0).unwrap();
    assert_eq!(chunks.len(), 1);
    assert_eq!(end, 11);

    let src = Bytes::from_static(b"3\r\nabc\r\n0\r\nGET /");
    let (_, end) = parse_chunked_body(&src, 0).unwrap();
    assert_eq!(end, 11);
}

#[test]
fn test_chunked_body_at_combines_the_chunks() {
    let src = Bytes::from_static(b"6\r\nHello \r\n6\r\nWorld!\r\n0\r\n\r\n");
    let (body, end) = chunked_body_at(&src, 0).unwrap();
    assert_eq!(end, src.len());
    assert_eq!(body.as_bytes(), b"Hello World!");
    assert_eq!(body.span().indices().ranges(), &[3..9, 14..20]);
    assert_eq!(body.to_range_set(), RangeSet::from(vec![3..9, 14..20]));
    let BodyContent::Chunked(chunked) = &body.content else {
        panic!("body is not chunked");
    };
    assert_eq!(chunked.chunks.len(), 2);
    assert_eq!(chunked.span, body.span);
    assert_eq!(body.content.span().as_bytes(), b"Hello World!");
    assert_eq!(body.content.to_range_set(), body.to_range_set());
}

#[test]
fn test_parse_body_plain_json_and_chunked() {
    let src = Bytes::from_static(b"xx{\"a\": [1, 2]}3\r\nabc\r\n0\r\n\r\n");

    let body = parse_body(&src, 2..15, false, None).unwrap();
    assert_eq!(body.as_bytes(), b"{\"a\": [1, 2]}");
    assert_eq!(body.span().indices().ranges(), &[2..15]);
    assert!(matches!(body.content, BodyContent::Unknown(_)));

    let body = parse_body(&src, 2..15, true, Some(TransferCoding::Identity)).unwrap();
    let BodyContent::Json(value) = &body.content else {
        panic!("body is not json");
    };
    assert_eq!(value.span().as_str(), "{\"a\": [1, 2]}");
    assert_eq!(value.span().indices().ranges(), &[2..15]);

    let err = parse_body(&src, 2..14, true, None).unwrap_err();
    assert_eq!(err.kind(), ErrorKind::SubParse);

    // A chunked body is not read as JSON.
    let body = parse_body(&src, 15..18, true, Some(TransferCoding::Chunked)).unwrap();
    assert_eq!(body.as_bytes(), b"abc");
    assert_eq!(body.span().indices().ranges(), &[18..21]);
    assert!(matches!(body.content, BodyContent::Chunked(_)));
}

#[test]
fn test_json_body_has_to_be_utf8() {
    let src = Bytes::from_static(b"\"\xff\"");
    let err = parse_body(&src, 0..3, true, None).unwrap_err();
    assert_eq!(err.kind(), ErrorKind::InvalidEncoding);
}

#[test]
fn test_chunks_out_of_order_keep_their_order_in_the_data() {
    let src = Bytes::from_static(b"0123456789");
    let chunks = [
        Chunk {
            span: Span::new_bytes(src.clone(), 6..8),
            data: src.slice(6..8),
            extension: None,
        },
        Chunk {
            span: Span::new_bytes(src.clone(), 1..3),
            data: src.slice(1..3),
            extension: None,
        },
        Chunk {
            span: Span::new_bytes(src.clone(), 3..4),
            data: src.slice(3..4),
            extension: None,
        },
    ];
    let span = chunked_body_span(&chunks);
    assert_eq!(span.as_bytes(), b"67123");
    assert_eq!(span.indices().ranges(), &[1..4, 6..8]);
    assert_eq!(
        chunked_body_range_set(&chunks),
        RangeSet::from(vec![1..4, 6..8])
    );
    assert_eq!(chunked_body_range_set(&[]), RangeSet::default());
    assert!(chunked_body_span(&[]).is_empty());
}

#[test]
fn test_split_items() {
    assert_eq!(split_items(b"gzip, chunked"), vec![&b"gzip"[..], &b" chunked"[..]]);
    assert_eq!(split_items(b"chunked"), vec![&b"chunked"[..]]);
    assert_eq!(split_items(b""), vec![&b""[..]]);
    assert_eq!(split_items(b",a,,"), vec![&b""[..], &b"a"[..], &b""[..], &b""[..]]);
}

#[test]
fn test_texts_of() {
    assert_eq!(
        texts_of(&[&b" a "[..], &b"b"[..], &b""[..]]),
        Some(vec!["a", "b", ""])
    );
    assert_eq!(texts_of(&[&b"a"[..], &b"\xff"[..]]), None);
    assert_eq!(texts_of(&[]), Some(vec![]));
}

#[test]
fn test_header_values_are_trimmed_texts() {
    let req = parse_request(
        b"GET / HTTP/1.1\r\nAccept: a\r\naccept:  b \r\nACCEPT: \xc2\xa0c\xe3\x80\x80\r\nHost: h\r\n\r\n",
    )
    .unwrap();
    assert_eq!(
        get_header_values_request(&req, "Accept").unwrap(),
        vec!["a", "b", "c"]
    );
    assert_eq!(get_header_values_request(&req, "host").unwrap(), vec!["h"]);
    assert!(get_header_values_request(&req, "none").unwrap().is_empty());
    let named = req.headers_with_name("accept");
    assert_eq!(
        get_header_values_from_iter("accept", &named).unwrap(),
        vec!["a", "b", "c"]
    );
}

#[test]
fn test_header_values_have_to_be_utf8() {
    let res = parse_response(
        b"HTTP/1.1 200 OK\r\nX-A: fine\r\nX-A: \xff\r\nContent-Length: 0\r\n\r\n",
    )
    .unwrap();
    let err = get_header_values_response(&res, "x-a").unwrap_err();
    assert_eq!(err.kind(), ErrorKind::InvalidEncoding);
    assert_eq!(
        err.to_string(),
        "Invalid UTF-8 when parsing x-a header value"
    );
    assert_eq!(
        get_header_values_response(&res, "content-length").unwrap(),
        vec!["0"]
    );
}

#[test]
fn test_content_type_is_the_first_one() {
    let req = parse_request(
        b"GET / HTTP/1.1\r\nContent-Type: application/json\r\nContent-Type: text/html\r\n\r\n",
    )
    .unwrap();
    assert_eq!(get_content_type_request(&req), Some("application/json"));
    assert_eq!(content_type_of(&req.headers), Some("application/json"));
    assert!(is_json(get_content_type_request(&req)));

    let res = parse_response(
        b"HTTP/1.1 200 OK\r\nContent-Type: text/html\r\nContent-Length: 0\r\n\r\n",
    )
    .unwrap();
    assert_eq!(get_content_type_response(&res), Some("text/html"));
    assert!(!is_json(get_content_type_response(&res)));

    let req = parse_request(b"GET / HTTP/1.1\r\nHost: a\r\n\r\n").unwrap();
    assert_eq!(get_content_type_request(&req), None);
    assert!(!is_json(None));
    assert!(!is_json(Some("application/json; charset=utf-8")));
    assert!(!is_json(Some("Application/JSON")));
}

/// A response that never has a body, with the given header lines: its
/// head is parsed whatever it declares.
fn head_of_response(header_lines: &[u8]) -> Response {
    let mut src = b"HTTP/1.1 204 No Content\r\n".to_vec();
    src.extend_from_slice(header_lines);
    src.extend_from_slice(b"\r\n");
    parse_response(&src).unwrap()
}

/// A request with the headers of `head_of_response`.
fn head_of_request(header_lines: &[u8]) -> Request {
    let mut req = parse_request(b"GET / HTTP/1.1\r\n\r\n").unwrap();
    req.headers = head_of_response(header_lines).headers;
    req
}

#[test]
fn test_transfer_codings_are_comma_separated_lists() {
    let req = head_of_request(
        b"Transfer-Encoding: gzip, chunked\r\nHost: a\r\ntransfer-encoding: x\r\n",
    );
    assert_eq!(
        codings_of(&req.headers),
        Some(vec!["gzip", "chunked", "x"])
    );
    assert_eq!(
        get_transfer_encoding_request(&req),
        Some(TransferCoding::Chunked)
    );
    // Two of the three are not accepted.
    assert!(!is_valid_transfer_encoding_request(&req));
    assert_eq!(unaccepted_of(&["gzip", "chunked", "x"]), vec!["gzip", "x"]);
    let named = req.headers_with_name("Transfer-Encoding");
    assert_eq!(
        listed_items(&named),
        vec![&b"gzip"[..], &b" chunked"[..], &b"x"[..]]
    );

    let req = parse_request(
        b"POST / HTTP/1.1\r\nTransfer-Encoding: identity, chunked\r\n\r\n3\r\nabc\r\n0\r\n\r\n",
    )
    .unwrap();
    assert_eq!(codings_of(&req.headers), Some(vec!["identity", "chunked"]));
    assert!(is_valid_transfer_encoding_request(&req));
    assert_eq!(req.body.unwrap().as_bytes(), b"abc");
}

#[test]
fn test_one_coding_that_is_not_accepted_is_enough() {
    for lines in [
        &b"Transfer-Encoding: gzip\r\n"[..],
        &b"Transfer-Encoding: chunked, gzip\r\n"[..],
        &b"Transfer-Encoding: gzip, chunked\r\n"[..],
        &b"Transfer-Encoding: identity\r\nTransfer-Encoding: gzip\r\nTransfer-Encoding: chunked\r\n"[..],
        &b"Transfer-Encoding: chunked,\r\n"[..],
        &b"Transfer-Encoding:\r\n"[..],
    ] {
        let res = head_of_response(lines);
        assert!(!is_valid_transfer_encoding_response(&res));
        assert!(!is_valid_transfer_encoding(&res.headers));
        assert!(!is_valid_transfer_encoding_request(&head_of_request(lines)));
    }
    for lines in [
        &b"Host: a\r\n"[..],
        &b"Transfer-Encoding: chunked\r\n"[..],
        &b"Transfer-Encoding: Identity , CHUNKED\r\n"[..],
        &b"Transfer-Encoding: identity\r\ntransfer-encoding: identity\r\n"[..],
    ] {
        let res = head_of_response(lines);
        assert!(is_valid_transfer_encoding_response(&res));
        assert!(is_valid_transfer_encoding(&res.headers));
    }
    assert!(is_accepted("chunked"));
    assert!(is_accepted("IDENTITY"));
    assert!(!is_accepted("gzip"));
    assert!(!is_accepted(""));
    assert!(unaccepted_of(&["chunked", "identity"]).is_empty());
    assert!(unaccepted_of(&[]).is_empty());
}

#[test]
fn test_chunked_comes_before_identity() {
    let res = parse_response(
        b"HTTP/1.1 200 OK\r\nTransfer-Encoding: identity\r\nTransfer-Encoding: chunked\r\n\r\n0\r\n\r\n",
    )
    .unwrap();
    assert_eq!(
        get_transfer_encoding_response(&res),
        Some(TransferCoding::Chunked)
    );
    assert!(is_valid_transfer_encoding_response(&res));

    let res = parse_response(
        b"HTTP/1.1 200 OK\r\nTransfer-Encoding: identity\r\nContent-Length: 0\r\n\r\n",
    )
    .unwrap();
    assert_eq!(
        get_transfer_encoding_response(&res),
        Some(TransferCoding::Identity)
    );
    assert_eq!(transfer_encoding_of(&res.headers), Some(TransferCoding::Identity));
}

#[test]
fn test_coding_names_ignore_case_and_white_space() {
    let req = parse_request(
        b"POST / HTTP/1.1\r\nTransfer-Encoding: \xc2\xa0CHUNKED\xc2\xa0\r\n\r\n3\r\nabc\r\n0\r\n\r\n",
    )
    .unwrap();
    assert_eq!(
        get_transfer_encoding_request(&req),
        Some(TransferCoding::Chunked)
    );
    assert_eq!(req.body.unwrap().as_bytes(), b"abc");
    assert!(TransferCoding::Chunked.is_named_by("Chunked"));
    assert!(!TransferCoding::Chunked.is_named_by("chunked "));
    assert!(TransferCoding::Identity.is_named_by("IDENTITY"));
    assert!(!TransferCoding::Identity.is_named_by("chunked"));
}

#[test]
fn test_no_coding_declared_is_valid() {
    let req = parse_request(b"GET / HTTP/1.1\r\nHost: a\r\n\r\n").unwrap();
    assert_eq!(codings_of(&req.headers), Some(vec![]));
    assert_eq!(get_transfer_encoding_request(&req), None);
    assert!(is_valid_transfer_encoding_request(&req));
    assert!(is_valid_transfer_encoding(&req.headers));
}

#[test]
fn test_codings_have_to_be_texts() {
    let res = head_of_response(b"Transfer-Encoding: chunked\r\nTransfer-Encoding: \xff\r\n");
    assert_eq!(codings_of(&res.headers), None);
    assert_eq!(get_transfer_encoding_response(&res), None);
    assert!(!is_valid_transfer_encoding_response(&res));

    let err = parse_request(
        b"POST / HTTP/1.1\r\nTransfer-Encoding: chunked\r\nTransfer-Encoding: \xff\r\nContent-Length: 3\r\n\r\nabc",
    )
    .unwrap_err();
    assert_eq!(err.kind(), ErrorKind::InvalidEncoding);
    let err = parse_response(
        b"HTTP/1.1 200 OK\r\nTransfer-Encoding: \xff, chunked\r\n\r\n0\r\n\r\n",
    )
    .unwrap_err();
    assert_eq!(err.kind(), ErrorKind::InvalidEncoding);
}

#[test]
fn test_invalid_transfer_encoding_message() {
    // The message names the codings that are not accepted, and only those.
    let req = head_of_request(
        b"Transfer-Encoding: gzip, chunked, br\r\nTransfer-Encoding: identity\r\nTransfer-Encoding: x\r\n",
    );
    assert_eq!(
        invalid_transfer_encoding_message_request(&req),
        "Transfer-Encoding other than chunked, identity not supported yet: gzip, br, x"
    );
    assert_eq!(
        invalid_transfer_encoding_message(&req.headers),
        invalid_transfer_encoding_message_request(&req)
    );
    let res = head_of_response(b"Transfer-Encoding: gzip\r\n");
    assert_eq!(
        invalid_transfer_encoding_message_response(&res),
        "Transfer-Encoding other than chunked, identity not supported yet: gzip"
    );
    let res = head_of_response(b"Transfer-Encoding: chunked\r\n");
    assert_eq!(
        invalid_transfer_encoding_message_response(&res),
        "Transfer-Encoding other than chunked, identity not supported yet: "
    );
}
