use envoy_http1::response::{canonical_reason, serialize_response, Response};
use envoy_http1::client::{
    build_request_wire, chunk_size, decode_chunked, find_crlf, finish_direct, parse_response_head, read_body,
    serialize_direct_head, serialize_direct_head_dated, ChunkedBody, DirectHead, DirectOutcome, ReadStage,
    ResponseReader, ResponseStep,
};
use envoy_http1::codec::{HttpVersion, Request};
use envoy_http1::error::Http1Error;

fn req(method: &str, path: &str, headers: &[(&str, &str)]) -> Request {
    Request {
        method: method.to_string(),
        path: path.to_string(),
        version: HttpVersion::Http11,
        headers: headers.iter().map(|(n, v)| (n.to_string(), v.to_string())).collect(),
        bytes_consumed: 0,
        body: None,
    }
}

fn wire_of(host: &str, request: &Request, strip: bool) -> String {
    let mut wire = b"stale bytes".to_vec();
    build_request_wire(&mut wire, host, request, strip);
    String::from_utf8(wire).expect("ascii wire")
}

#[test]
fn request_wire_injects_the_connect_host_and_no_empty_content_length() {
    let s = wire_of("envoy-rust.test", &req("GET", "/", &[("user-agent", "test")]), false);
    assert_eq!(s, "GET / HTTP/1.1\r\nhost: envoy-rust.test\r\nuser-agent: test\r\n\r\n");
    assert!(!s.contains("content-length: 0\r\n"));
}

#[test]
fn request_wire_keeps_the_request_host_and_lowercases_names() {
    let s = wire_of("envoy-rust.test", &req("GET", "/", &[("Host", "explicit.example")]), false);
    assert_eq!(s, "GET / HTTP/1.1\r\nhost: explicit.example\r\n\r\n");
    let host_count = s.matches("host:").count() + s.matches("Host:").count();
    assert_eq!(host_count, 1, "exactly one Host header: {s:?}");
}

#[test]
fn request_wire_synthesizes_content_length_for_a_body_only() {
    let mut r = req("POST", "/up?x=1", &[("X-A", "b")]);
    r.body = Some(b"hello".to_vec());
    assert_eq!(
        wire_of("h", &r, false),
        "POST /up?x=1 HTTP/1.1\r\nhost: h\r\nx-a: b\r\ncontent-length: 5\r\n\r\nhello"
    );
    let mut explicit = req("POST", "/", &[("Content-Length", "5")]);
    explicit.body = Some(b"hello".to_vec());
    assert_eq!(wire_of("h", &explicit, false), "POST / HTTP/1.1\r\nhost: h\r\ncontent-length: 5\r\n\r\nhello");
    let mut empty = req("POST", "/", &[]);
    empty.body = Some(Vec::new());
    assert_eq!(wire_of("h", &empty, false), "POST / HTTP/1.1\r\nhost: h\r\n\r\n");
}

#[test]
fn request_wire_strips_hop_headers_on_request() {
    let r = req("GET", "/", &[("Connection", "close"), ("Transfer-Encoding", "chunked"), ("X-Keep", "1")]);
    assert_eq!(wire_of("h", &r, true), "GET / HTTP/1.1\r\nhost: h\r\nx-keep: 1\r\n\r\n");
    assert_eq!(
        wire_of("h", &r, false),
        "GET / HTTP/1.1\r\nhost: h\r\nconnection: close\r\ntransfer-encoding: chunked\r\nx-keep: 1\r\n\r\n"
    );
}

#[test]
fn find_crlf_finds_the_first_pair() {
    assert_eq!(find_crlf(b"ab\r\ncd\r\n"), Some(2));
    assert_eq!(find_crlf(b"\r\n"), Some(0));
    assert_eq!(find_crlf(b"a\rb\nc"), None);
    assert_eq!(find_crlf(b"\r"), None);
    assert_eq!(find_crlf(b""), None);
    assert_eq!(find_crlf(b"\r\r\n"), Some(1));
}

#[test]
fn response_head_reports_framing_facts() {
    let buf = b"HTTP/1.1 201 Created\r\nContent-Length: 5\r\nX-Up: 1\r\nContent-Length: 3\r\nConnection: Close\r\n\r\nabc";
    let head = parse_response_head(buf).expect("ok").expect("complete");
    assert_eq!(head.status, 201);
    assert_eq!(head.headers_end, buf.len() - 3);
    assert!(!head.chunked);
    assert_eq!(head.cl, 5, "the first content-length row frames the body");
    assert!(head.upstream_close);
    assert_eq!(head.headers.len(), 4);
    assert_eq!(head.headers[1], ("X-Up".to_string(), "1".to_string()));
    let chunked = parse_response_head(b"HTTP/1.1 200 OK\r\nTransfer-Encoding: CHUNKED\r\n\r\n")
        .expect("ok")
        .expect("complete");
    assert!(chunked.chunked);
    assert_eq!(chunked.cl, 0);
    assert!(!chunked.upstream_close);
}

#[test]
fn response_head_errors_map_to_the_codec_errors() {
    assert!(matches!(parse_response_head(b"NOT AN HTTP RESPONSE"), Err(Http1Error::MalformedResponseLine)));
    assert!(matches!(parse_response_head(b"HTTP/1.1 200 OK\r\nBad Name: x\r\n\r\n"), Err(Http1Error::MalformedHeader)));
    assert!(matches!(
        parse_response_head(b"HTTP/1.1 200 OK\r\nX-A: \xff\xfe\r\n\r\n"),
        Err(Http1Error::MalformedResponseLine)
    ));
    assert!(parse_response_head(b"HTTP/1.1 200 OK\r\nX-A: 1\r\n").expect("ok").is_none());
    let mut big = b"HTTP/1.1 200 OK\r\nX-Long: ".to_vec();
    big.extend_from_slice(&vec![b'a'; 9000]);
    assert!(matches!(parse_response_head(&big), Err(Http1Error::HeadersTooLarge { cap: 8192 })));
}

fn complete(body: ChunkedBody) -> Vec<u8> {
    match body {
        ChunkedBody::Complete(b) => b,
        ChunkedBody::Incomplete => panic!("incomplete"),
        ChunkedBody::Malformed => panic!("malformed"),
    }
}

#[test]
fn chunked_body_decodes_chunks_and_skips_trailers() {
    let wire = b"HEAD5\r\nhello\r\n6\r\n world\r\n0\r\n\r\n";
    assert_eq!(complete(decode_chunked(wire, 4)), b"hello world".to_vec());
    let with_ext = b"5;name=v\r\nhello\r\n0\r\nX-T: 1\r\nX-U: 2\r\n\r\nleftover";
    assert_eq!(complete(decode_chunked(with_ext, 0)), b"hello".to_vec());
    assert_eq!(complete(decode_chunked(b" A \r\n0123456789\r\n0\r\n\r\n", 0)), b"0123456789".to_vec());
    assert_eq!(complete(decode_chunked(b"+3\r\nabc\r\n0\r\n\r\n", 0)), b"abc".to_vec());
}

#[test]
fn chunked_body_rejects_broken_framing() {
    assert!(matches!(decode_chunked(b"XYZ\r\nhello\r\n", 0), ChunkedBody::Malformed));
    assert!(matches!(decode_chunked(b"5\r\nhelloXX0\r\n\r\n", 0), ChunkedBody::Malformed));
    assert!(matches!(decode_chunked(b"\r\n", 0), ChunkedBody::Malformed));
    assert!(matches!(decode_chunked(b"-1\r\n", 0), ChunkedBody::Malformed));
    assert!(matches!(decode_chunked(b"\xff\r\n", 0), ChunkedBody::Malformed));
}

#[test]
fn chunked_body_waits_for_more_bytes() {
    assert!(matches!(decode_chunked(b"5\r\nhel", 0), ChunkedBody::Incomplete));
    assert!(matches!(decode_chunked(b"5", 0), ChunkedBody::Incomplete));
    assert!(matches!(decode_chunked(b"5\r\nhello\r\n0\r\n", 0), ChunkedBody::Incomplete));
    assert!(matches!(decode_chunked(b"5\r\nhello\r\n0\r\nX-T: 1\r\n", 0), ChunkedBody::Incomplete));
    assert!(matches!(decode_chunked(b"abc", 10), ChunkedBody::Incomplete));
}

#[test]
fn chunk_size_reads_the_hex_field() {
    assert_eq!(chunk_size(b"1f"), Some(31));
    assert_eq!(chunk_size(b" 1F ; ext "), Some(31));
    assert_eq!(chunk_size(b"0"), Some(0));
    assert_eq!(chunk_size(b""), None);
    assert_eq!(chunk_size(b"+"), None);
    assert_eq!(chunk_size(b"g"), None);
    assert_eq!(chunk_size(b"ffffffffffffffffff"), None);
}

#[test]
fn chunked_encoding_round_trips_through_the_decoder() {
    let chunks: Vec<Vec<u8>> = vec![b"a".to_vec(), vec![b'x'; 300], b"0123456789abcdef".to_vec()];
    let mut wire = b"HTTP/1.1 200 OK\r\n\r\n".to_vec();
    let start = wire.len();
    for c in &chunks {
        wire.extend_from_slice(format!("{:x}\r\n", c.len()).as_bytes());
        wire.extend_from_slice(c);
        wire.extend_from_slice(b"\r\n");
    }
    wire.extend_from_slice(b"0\r\n\r\nnext response");
    let expected: Vec<u8> = chunks.concat();
    assert_eq!(complete(decode_chunked(&wire, start)), expected);
}

fn read_in_steps(wire: &[u8], step: usize) -> (ResponseReader, ResponseStep, usize) {
    let mut reader = ResponseReader::new();
    let mut buf: Vec<u8> = Vec::new();
    let mut reads = 0;
    loop {
        let end = (buf.len() + step).min(wire.len());
        buf.extend_from_slice(&wire[buf.len()..end]);
        reads += 1;
        match reader.step(&buf) {
            ResponseStep::NeedMore { .. } if buf.len() < wire.len() => continue,
            other => return (reader, other, reads),
        }
    }
}

#[test]
fn reader_frames_content_length_bodies() {
    let wire = b"HTTP/1.1 200 OK\r\nContent-Length: 5\r\n\r\nhello";
    let (reader, step, _) = read_in_steps(wire, 7);
    match step {
        ResponseStep::Complete(body) => assert_eq!(body, b"hello".to_vec()),
        other => panic!("{other:?}"),
    }
    let head = reader.head.expect("head kept");
    let resp = head.into_response(b"hello".to_vec());
    assert_eq!(resp.status, 200);
    assert_eq!(resp.reason, None);
    assert_eq!(resp.headers, vec![("Content-Length".to_string(), "5".to_string())]);
}

#[test]
fn reader_asks_for_exactly_the_missing_body_bytes() {
    let mut reader = ResponseReader::new();
    let step = reader.step(b"HTTP/1.1 200 OK\r\nContent-Length: 5\r\n\r\nhel");
    assert!(matches!(step, ResponseStep::NeedMore { stage: ReadStage::Body, limit: Some(2) }), "{step:?}");
    let step = reader.step(b"HTTP/1.1 200 OK\r\nContent-Length: 5\r\n\r\nhello, and more");
    match step {
        ResponseStep::Complete(body) => assert_eq!(body, b"hello".to_vec()),
        other => panic!("{other:?}"),
    }
    let mut fresh = ResponseReader::new();
    assert!(matches!(fresh.step(b"HTTP/1.1 20"), ResponseStep::NeedMore { stage: ReadStage::Head, limit: None }));
    assert!(fresh.head.is_none());
}

#[test]
fn reader_frames_by_the_first_content_length() {
    let wire = b"HTTP/1.1 200 OK\r\nContent-Length: 2\r\nContent-Length: 4\r\n\r\nabcd";
    let (_, first, _) = read_in_steps(wire, wire.len());
    assert!(matches!(first, ResponseStep::Complete(ref b) if b == b"ab"), "{first:?}");
    let wider = b"HTTP/1.1 200 OK\r\nContent-Length: 3\r\nContent-Length: 5\r\n\r\nabc";
    let (_, three, _) = read_in_steps(wider, wider.len());
    assert!(matches!(three, ResponseStep::Complete(ref b) if b == b"abc"), "{three:?}");
    let unparsable = b"HTTP/1.1 200 OK\r\nContent-Length: x\r\n\r\nabcd";
    let (_, zero, _) = read_in_steps(unparsable, unparsable.len());
    assert!(matches!(zero, ResponseStep::Complete(ref b) if b.is_empty()), "{zero:?}");
}

#[test]
fn reader_decodes_chunked_bodies_across_reads() {
    let wire = b"HTTP/1.1 200 OK\r\nTransfer-Encoding: chunked\r\n\r\n5\r\nhello\r\n6\r\n world\r\n0\r\n\r\n";
    let (reader, step, reads) = read_in_steps(wire, 3);
    assert!(reads > 1);
    match step {
        ResponseStep::Complete(body) => assert_eq!(body, b"hello world".to_vec()),
        other => panic!("{other:?}"),
    }
    assert!(reader.head.expect("head").chunked);
    let bad = b"HTTP/1.1 200 OK\r\nTransfer-Encoding: chunked\r\n\r\nXYZ\r\nhello\r\n";
    let (_, step, _) = read_in_steps(bad, 5);
    assert!(matches!(step, ResponseStep::Failed(Http1Error::MalformedChunkedFraming)), "{step:?}");
}

#[test]
fn reader_reports_garbage_as_a_malformed_status_line() {
    let mut reader = ResponseReader::new();
    assert!(matches!(reader.step(b"NOT AN HTTP RESPONSE"), ResponseStep::Failed(Http1Error::MalformedResponseLine)));
}

#[test]
fn stalls_report_by_stage() {
    assert!(matches!(ReadStage::Head.stall_error(), Http1Error::UnexpectedEof));
    assert!(matches!(ReadStage::Body.stall_error(), Http1Error::UnexpectedEof));
    assert!(matches!(ReadStage::ChunkedBody.stall_error(), Http1Error::MalformedChunkedFraming));
}

fn head_of(wire: &[u8]) -> DirectHead {
    parse_response_head(wire).expect("ok").expect("complete")
}

#[test]
fn direct_head_rewrites_the_upstream_rows() {
    let head = head_of(
        b"HTTP/1.1 200 OK\r\nServer: upstream\r\nDate: yesterday\r\nConnection: keep-alive\r\nTransfer-Encoding: identity\r\nContent-Length: 5\r\nX-Custom: Yes\r\n\r\n",
    );
    let mut out = b"old".to_vec();
    serialize_direct_head_dated(&mut out, &head, "Thu, 01 Jan 1970 00:00:00 GMT", 5, 12, true);
    assert_eq!(
        String::from_utf8(out).unwrap(),
        "HTTP/1.1 200 OK\r\nserver: envoy-rust\r\ndate: Thu, 01 Jan 1970 00:00:00 GMT\r\ncontent-length: 5\r\nx-custom: Yes\r\nx-envoy-upstream-service-time: 12\r\nconnection: close\r\n\r\n"
    );
}

#[test]
fn direct_head_fills_in_missing_defaults() {
    let head = head_of(b"HTTP/1.1 404 Not Found\r\nX-A: 1\r\n\r\n");
    let mut out = Vec::new();
    serialize_direct_head_dated(&mut out, &head, "Thu, 01 Jan 1970 00:00:00 GMT", 7, 0, false);
    assert_eq!(
        String::from_utf8(out).unwrap(),
        "HTTP/1.1 404 Not Found\r\nx-a: 1\r\nserver: envoy-rust\r\ndate: Thu, 01 Jan 1970 00:00:00 GMT\r\ncontent-length: 7\r\nx-envoy-upstream-service-time: 0\r\nconnection: keep-alive\r\n\r\n"
    );
    let mut now = Vec::new();
    serialize_direct_head(&mut now, &head, 7, 3, false);
    let s = String::from_utf8(now).unwrap();
    assert!(s.starts_with("HTTP/1.1 404 Not Found\r\nx-a: 1\r\nserver: envoy-rust\r\ndate: "), "{s}");
    assert!(s.ends_with(" GMT\r\ncontent-length: 7\r\nx-envoy-upstream-service-time: 3\r\nconnection: keep-alive\r\n\r\n"), "{s}");
}

#[test]
fn finish_direct_falls_back_for_chunked_upstreams() {
    let chunked = head_of(b"HTTP/1.1 200 OK\r\nTransfer-Encoding: chunked\r\n\r\n");
    let mut out = b"untouched".to_vec();
    match finish_direct(chunked, b"body".to_vec(), 0, false, &mut out) {
        DirectOutcome::Fallback(resp) => {
            assert_eq!(resp.status, 200);
            assert_eq!(resp.body, b"body".to_vec());
            assert_eq!(resp.headers, vec![("Transfer-Encoding".to_string(), "chunked".to_string())]);
        },
        other => panic!("{other:?}"),
    }
    assert_eq!(out, b"untouched".to_vec());
    let plain = head_of(b"HTTP/1.1 200 OK\r\nContent-Length: 4\r\nConnection: close\r\n\r\n");
    match finish_direct(plain, b"body".to_vec(), u128::MAX, true, &mut out) {
        DirectOutcome::Direct { status, upstream_close, body } => {
            assert_eq!(status, 200);
            assert!(upstream_close);
            assert_eq!(body, b"body".to_vec());
        },
        other => panic!("{other:?}"),
    }
    let s = String::from_utf8(out).unwrap();
    assert!(s.starts_with("HTTP/1.1 200 OK\r\ncontent-length: 4\r\nserver: envoy-rust\r\ndate: "), "{s}");
    assert!(s.ends_with("\r\nx-envoy-upstream-service-time: 0\r\nconnection: close\r\n\r\n"), "{s}");
}

#[test]
fn decided_chunked_body_stays_decided() {
    let done = b"3\r\nabc\r\n0\r\n\r\n".to_vec();
    let mut longer = done.clone();
    longer.extend_from_slice(b"garbage after the body");
    assert_eq!(complete(decode_chunked(&done, 0)), b"abc".to_vec());
    assert_eq!(complete(decode_chunked(&longer, 0)), b"abc".to_vec());
    let broken = b"3\r\nabcXY".to_vec();
    let mut more = broken.clone();
    more.extend_from_slice(b"\r\n0\r\n\r\n");
    assert!(matches!(decode_chunked(&broken, 0), ChunkedBody::Malformed));
    assert!(matches!(decode_chunked(&more, 0), ChunkedBody::Malformed));
}

#[test]
fn a_complete_body_stays_complete_as_bytes_arrive() {
    let head = head_of(b"HTTP/1.1 200 OK\r\nContent-Length: 2\r\n\r\n");
    let end = head.headers_end;
    let mut buf = b"HTTP/1.1 200 OK\r\nContent-Length: 2\r\n\r\nok".to_vec();
    assert_eq!(end, buf.len() - 2);
    let first = read_body(&buf, &head);
    buf.extend_from_slice(b"HTTP/1.1 200 OK\r\n");
    let second = read_body(&buf, &head);
    match (first, second) {
        (ResponseStep::Complete(a), ResponseStep::Complete(b)) => {
            assert_eq!(a, b"ok".to_vec());
            assert_eq!(a, b);
        },
        other => panic!("{other:?}"),
    }
}

#[test]
fn direct_head_carries_the_canonical_reason_phrase() {
    let line = |wire: &[u8]| {
        let head = head_of(wire);
        let mut out = Vec::new();
        serialize_direct_head_dated(&mut out, &head, "Thu, 01 Jan 1970 00:00:00 GMT", 0, 0, false);
        let s = String::from_utf8(out).unwrap();
        s[..s.find("\r\n").unwrap()].to_string()
    };
    assert_eq!(line(b"HTTP/1.1 303 whatever\r\n\r\n"), "HTTP/1.1 303 See Other");
    assert_eq!(line(b"HTTP/1.1 500 Oops\r\n\r\n"), "HTTP/1.1 500 Internal Server Error");
    assert_eq!(line(b"HTTP/1.1 503 x\r\n\r\n"), "HTTP/1.1 503 Service Unavailable");
    assert_eq!(line(b"HTTP/1.1 418 teapot\r\n\r\n"), "HTTP/1.1 418 I'm a teapot");
    assert_eq!(line(b"HTTP/1.1 502 x\r\n\r\n"), "HTTP/1.1 502 Bad Gateway");
    assert_eq!(line(b"HTTP/1.1 599 x\r\n\r\n"), "HTTP/1.1 599 OK");
}

#[test]
fn canonical_reason_table() {
    assert_eq!(canonical_reason(200), "OK");
    assert_eq!(canonical_reason(301), "Moved Permanently");
    assert_eq!(canonical_reason(302), "Found");
    assert_eq!(canonical_reason(303), "See Other");
    assert_eq!(canonical_reason(307), "Temporary Redirect");
    assert_eq!(canonical_reason(308), "Permanent Redirect");
    assert_eq!(canonical_reason(400), "Bad Request");
    assert_eq!(canonical_reason(404), "Not Found");
    assert_eq!(canonical_reason(500), "Internal Server Error");
    assert_eq!(canonical_reason(501), "Not Implemented");
    assert_eq!(canonical_reason(503), "Service Unavailable");
    assert_eq!(canonical_reason(418), "I'm a teapot");
    assert_eq!(canonical_reason(429), "Too Many Requests");
    assert_eq!(canonical_reason(502), "Bad Gateway");
    assert_eq!(canonical_reason(504), "Gateway Timeout");
    assert_eq!(canonical_reason(599), "OK");
}

#[test]
fn local_replies_serialize_with_their_phrase_rows_and_body() {
    let resp = Response {
        status: 404,
        reason: None,
        headers: vec![("server".to_string(), "envoy-rust".to_string()), ("content-length".to_string(), "3".to_string())],
        body: b"abc".to_vec(),
    };
    let mut out = b"stale".to_vec();
    serialize_response(&mut out, &resp);
    assert_eq!(out, b"HTTP/1.1 404 Not Found\r\nserver: envoy-rust\r\ncontent-length: 3\r\n\r\nabc".to_vec());
    let own = Response { status: 429, reason: Some("Too Many Requests"), headers: vec![], body: vec![] };
    serialize_response(&mut out, &own);
    assert_eq!(out, b"HTTP/1.1 429 Too Many Requests\r\n\r\n".to_vec());
}

#[test]
fn both_send_paths_give_the_same_status_and_body() {
    let wire = b"HTTP/1.1 201 Created\r\nContent-Length: 3\r\nX-A: b\r\n\r\nabc";
    let owned = head_of(wire).into_response(b"abc".to_vec());
    let mut out = Vec::new();
    match finish_direct(head_of(wire), b"abc".to_vec(), 0, false, &mut out) {
        DirectOutcome::Direct { status, body, .. } => {
            assert_eq!(status, owned.status);
            assert_eq!(body, owned.body);
        },
        other => panic!("{other:?}"),
    }
    let chunked = b"HTTP/1.1 200 OK\r\nTransfer-Encoding: chunked\r\n\r\n";
    let owned = head_of(chunked).into_response(b"hi".to_vec());
    match finish_direct(head_of(chunked), b"hi".to_vec(), 0, false, &mut out) {
        DirectOutcome::Fallback(resp) => {
            assert_eq!(resp.status, owned.status);
            assert_eq!(resp.reason, owned.reason);
            assert_eq!(resp.headers, owned.headers);
            assert_eq!(resp.body, owned.body);
        },
        other => panic!("{other:?}"),
    }
}
