use envoy_http1::codec::{Http1Codec, HttpVersion, Request};
use envoy_http1::error::Http1Error;

#[test]
fn parses_get_root_with_host() {
    let buf = b"GET /healthz HTTP/1.1\r\nHost: x\r\n\r\n";
    let req = Http1Codec::parse_request(buf).expect("ok").expect("complete");
    assert_eq!(req.method, "GET");
    assert_eq!(req.path, "/healthz");
    assert_eq!(req.version, HttpVersion::Http11);
    assert_eq!(req.bytes_consumed, buf.len());
    assert_eq!(req.headers.len(), 1);
    assert_eq!(req.headers[0].0, "Host");
    assert_eq!(req.headers[0].1, "x");
}

#[test]
fn returns_none_on_partial_request_line() {
    let buf = b"GET /healthz HTTP/";
    assert_eq!(Http1Codec::parse_request(buf).expect("no err"), None);
}

#[test]
fn returns_err_on_malformed_request_line() {
    let buf = b"GET\r\n\r\n";
    let err = Http1Codec::parse_request(buf).expect_err("malformed");
    assert!(
        matches!(err, Http1Error::MalformedRequestLine | Http1Error::MalformedHeader),
        "got: {:?}",
        err
    );
}

#[test]
fn enforces_headers_cap() {
    let mut buf = b"GET / HTTP/1.1\r\nHost: x\r\n".to_vec();
    for i in 0..200 {
        buf.extend_from_slice(format!("X-Pad-{i}: {}\r\n", "a".repeat(40)).as_bytes());
    }
    let err = Http1Codec::parse_request(&buf).expect_err("too large");
    assert!(matches!(err, Http1Error::HeadersTooLarge { cap: 8192 }), "got: {:?}", err);
}

#[test]
fn preserves_header_emission_order_and_case() {
    let buf = b"GET / HTTP/1.1\r\nHost: x\r\nX-Foo: 1\r\nX-Bar: 2\r\nX-Foo: 3\r\n\r\n";
    let req = Http1Codec::parse_request(buf).expect("ok").expect("complete");
    let names: Vec<&str> = req.headers.iter().map(|(n, _)| n.as_str()).collect();
    assert_eq!(names, vec!["Host", "X-Foo", "X-Bar", "X-Foo"]);
    let values: Vec<&str> = req.headers.iter().map(|(_, v)| v.as_str()).collect();
    assert_eq!(values, vec!["x", "1", "2", "3"]);
}

#[test]
fn codec_rejects_obs_fold_and_smuggling_shaped_headers() {
    assert!(Http1Codec::parse_request(b"GET / HTTP/1.1\r\nHost: x\r\nX-A: 1\r\n 2\r\n\r\n").is_err());
    assert!(Http1Codec::parse_request(b"GET / HTTP/1.1\r\nHost: x\r\nFoo Bar: 1\r\n\r\n").is_err());
    assert!(Http1Codec::parse_request(b"GET / HTTP/1.1\r\nHost: x\r\nX-A: a\x00b\r\n\r\n").is_err());
}

#[test]
fn parses_http10_and_reports_head_length_before_the_body() {
    let buf = b"POST /up HTTP/1.0\r\nContent-Length: 3\r\n\r\nabc";
    let req = Http1Codec::parse_request(buf).expect("ok").expect("complete");
    assert_eq!(req.version, HttpVersion::Http10);
    assert_eq!(req.method, "POST");
    assert_eq!(req.bytes_consumed, buf.len() - 3);
    assert_eq!(req.body, None);
}

#[test]
fn partial_head_past_the_cap_is_too_large() {
    let mut buf = b"GET / HTTP/1.1\r\nX-Long: ".to_vec();
    buf.extend_from_slice(&vec![b'a'; 9000]);
    let err = Http1Codec::parse_request(&buf).expect_err("too large");
    assert!(matches!(err, Http1Error::HeadersTooLarge { cap: 8192 }), "got: {:?}", err);
}

#[test]
fn body_helpers_treat_no_body_as_empty() {
    let mut req = Request {
        method: "POST".to_string(),
        path: "/".to_string(),
        version: HttpVersion::Http11,
        headers: vec![],
        bytes_consumed: 0,
        body: None,
    };
    assert_eq!(req.body_len_estimate(), 0);
    assert_eq!(req.body_len_string(), "0");
    assert_eq!(req.body_bytes(), None);
    req.body = Some(b"hello world".to_vec());
    assert_eq!(req.body_len_estimate(), 11);
    assert_eq!(req.body_len_string(), "11");
    assert_eq!(req.body_bytes(), Some(&b"hello world"[..]));
}
