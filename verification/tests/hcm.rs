use envoy_http1::codec::{HttpVersion, Request};
use envoy_http1::error::Http1Error;
use envoy_http1::headers;
use envoy_http1::hcm::{
    access_log_header_value, body_read, body_split, connection_step, decorate_filter_synth_response, decorate_with_date,
    ConnEvent, ConnStep, ReadEvent,
    extract_upstream_service_time, has_chunked_transfer_encoding, parse_content_length, peer_closed,
    plan_redirect, request_framing, request_wants_close, response_class, response_flags, strip_port, synth_400, synth_404,
    synth_501, synth_direct_response, synth_no_healthy_upstream, synth_overflow, synth_redirect,
    synth_with_date, upstream_service_time_ms, x_envoy_original_path_or_path,
};
use envoy_http1::response::Response;
use envoy_http1::route::{DirectResponse, RedirectAction, RedirectResponseCode};
use std::time::Duration;

fn cl_headers(values: &[&str]) -> Vec<(String, String)> {
    values.iter().map(|v| ("Content-Length".to_string(), v.to_string())).collect()
}

fn te_headers(values: &[&str]) -> Vec<(String, String)> {
    values.iter().map(|v| ("Transfer-Encoding".to_string(), v.to_string())).collect()
}

fn row(n: &str, v: &str) -> (String, String) {
    (n.to_string(), v.to_string())
}

fn req_with(version: HttpVersion, path: &str, headers: Vec<(String, String)>) -> Request {
    Request {
        method: "GET".to_string(),
        path: path.to_string(),
        version,
        headers,
        bytes_consumed: 0,
        body: None,
    }
}

#[test]
fn parse_content_length_absent_is_zero() {
    assert_eq!(parse_content_length(&[]).unwrap(), 0);
    let other = vec![("Host".to_string(), "x".to_string())];
    assert_eq!(parse_content_length(&other).unwrap(), 0);
}

#[test]
fn parse_content_length_single_value() {
    assert_eq!(parse_content_length(&cl_headers(&["42"])).unwrap(), 42);
}

#[test]
fn parse_content_length_non_numeric_rejected() {
    assert!(matches!(
        parse_content_length(&cl_headers(&["not-a-number"])),
        Err(Http1Error::MalformedHeader)
    ));
}

#[test]
fn parse_content_length_identical_duplicates_tolerated() {
    assert_eq!(parse_content_length(&cl_headers(&["7", "7", "7"])).unwrap(), 7);
}

#[test]
fn parse_content_length_conflicting_duplicates_rejected() {
    assert!(matches!(parse_content_length(&cl_headers(&["5", "6"])), Err(Http1Error::MalformedHeader)));
    assert!(matches!(parse_content_length(&cl_headers(&["6", "5"])), Err(Http1Error::MalformedHeader)));
}

#[test]
fn parse_content_length_takes_a_plus_but_no_whitespace() {
    assert!(matches!(parse_content_length(&cl_headers(&[" 12 "])), Err(Http1Error::MalformedHeader)));
    assert_eq!(parse_content_length(&cl_headers(&["+12"])).unwrap(), 12);
    assert!(matches!(parse_content_length(&cl_headers(&["-1"])), Err(Http1Error::MalformedHeader)));
    assert!(matches!(parse_content_length(&cl_headers(&[""])), Err(Http1Error::MalformedHeader)));
}

#[test]
fn chunked_detection_covers_multi_token_and_multi_row() {
    assert!(has_chunked_transfer_encoding(&te_headers(&["chunked"])));
    assert!(has_chunked_transfer_encoding(&te_headers(&["Chunked"])));
    assert!(has_chunked_transfer_encoding(&te_headers(&["chunked, gzip"])));
    assert!(has_chunked_transfer_encoding(&te_headers(&["gzip, chunked"])));
    assert!(has_chunked_transfer_encoding(&te_headers(&["gzip ,  chunked "])));
    assert!(has_chunked_transfer_encoding(&te_headers(&["gzip", "chunked"])));
    assert!(!has_chunked_transfer_encoding(&te_headers(&["gzip"])));
    assert!(!has_chunked_transfer_encoding(&[]));
}

#[test]
fn decorate_adds_all_five_standard_headers_when_filter_provides_none() {
    let mut resp = Response {
        status: 429,
        reason: Some("Too Many Requests"),
        headers: Vec::new(),
        body: b"local_rate_limited".to_vec(),
    };
    decorate_filter_synth_response(&mut resp, Some("close"));
    let name = |n: &str| -> Option<&str> {
        resp.headers.iter().find(|(k, _)| k.eq_ignore_ascii_case(n)).map(|(_, v)| v.as_str())
    };
    assert_eq!(name(headers::CONTENT_LENGTH), Some("18"));
    assert_eq!(name(headers::SERVER), Some("envoy-rust"));
    assert_eq!(name(headers::CONTENT_TYPE), Some("text/plain"));
    assert_eq!(name(headers::CONNECTION), Some("close"));
    let date = name(headers::DATE).expect("date header added");
    assert!(!date.is_empty(), "date header empty: {date:?}");
    assert_eq!(resp.headers.len(), 5, "headers: {:?}", resp.headers);
}

#[test]
fn decorate_preserves_filter_provided_headers_and_always_overwrites_content_length() {
    let mut resp = Response {
        status: 429,
        reason: Some("Too Many Requests"),
        headers: vec![
            ("server".to_string(), "my-proxy".to_string()),
            ("content-length".to_string(), "10".to_string()),
            ("x-rate-limit-policy".to_string(), "phase-09".to_string()),
        ],
        body: b"local_rate_limited".to_vec(),
    };
    decorate_filter_synth_response(&mut resp, Some("keep-alive"));
    let name = |n: &str| -> Option<String> {
        resp.headers.iter().find(|(k, _)| k.eq_ignore_ascii_case(n)).map(|(_, v)| v.clone())
    };
    assert_eq!(name("server").as_deref(), Some("my-proxy"));
    assert_eq!(name("content-length").as_deref(), Some("18"));
    assert_eq!(name("content-type").as_deref(), Some("text/plain"));
    assert_eq!(name("connection").as_deref(), Some("keep-alive"));
    assert_eq!(name("x-rate-limit-policy").as_deref(), Some("phase-09"));
    assert!(name("date").is_some(), "date header added");
    assert_eq!(resp.headers.len(), 6, "headers: {:?}", resp.headers);
}

#[test]
fn decorate_omits_content_type_when_body_is_empty() {
    let mut resp = Response { status: 200, reason: Some("OK"), headers: Vec::new(), body: Vec::new() };
    decorate_filter_synth_response(&mut resp, Some("keep-alive"));
    let name = |n: &str| -> Option<&str> {
        resp.headers.iter().find(|(k, _)| k.eq_ignore_ascii_case(n)).map(|(_, v)| v.as_str())
    };
    assert_eq!(name(headers::CONTENT_LENGTH), Some("0"));
    assert!(name(headers::SERVER).is_some(), "server header missing");
    let date = name(headers::DATE).expect("date header added");
    assert!(!date.is_empty(), "date header empty: {date:?}");
    assert_eq!(name(headers::CONNECTION), Some("keep-alive"));
    assert!(
        name(headers::CONTENT_TYPE).is_none(),
        "content-type must NOT be added for empty body; headers: {:?}",
        resp.headers
    );
}

#[test]
fn decorating_twice_changes_nothing_more() {
    let mut resp = Response {
        status: 403,
        reason: None,
        headers: vec![row("Content-Length", "1"), row("x-a", "b")],
        body: b"denied".to_vec(),
    };
    decorate_with_date(&mut resp, Some("close"), "Thu, 01 Jan 1970 00:00:00 GMT".to_string());
    let once = resp.headers.clone();
    assert_eq!(
        once,
        vec![
            row("Content-Length", "6"),
            row("x-a", "b"),
            row("content-type", "text/plain"),
            row("server", "envoy-rust"),
            row("date", "Thu, 01 Jan 1970 00:00:00 GMT"),
            row("connection", "close"),
        ]
    );
    decorate_with_date(&mut resp, Some("close"), "Fri, 02 Jan 1970 00:00:00 GMT".to_string());
    assert_eq!(resp.headers, once);
    decorate_filter_synth_response(&mut resp, Some("close"));
    assert_eq!(resp.headers, once);
}

#[test]
fn decorate_without_connection_adds_no_connection_row() {
    let mut resp = Response { status: 200, reason: None, headers: vec![], body: vec![] };
    decorate_with_date(&mut resp, None, "Thu, 01 Jan 1970 00:00:00 GMT".to_string());
    assert_eq!(
        resp.headers,
        vec![
            row("content-length", "0"),
            row("server", "envoy-rust"),
            row("date", "Thu, 01 Jan 1970 00:00:00 GMT"),
        ]
    );
}

#[test]
fn synth_no_healthy_upstream_emits_19_byte_body_and_5_headers() {
    let resp = synth_no_healthy_upstream(true);
    assert_eq!(resp.status, 503);
    assert_eq!(resp.body.as_slice(), b"no healthy upstream");
    assert_eq!(resp.body.len(), 19, "exact byte count");
    let header_names: Vec<&str> = resp.headers.iter().map(|(n, _)| n.as_str()).collect();
    assert_eq!(
        header_names,
        vec![headers::SERVER, headers::DATE, headers::CONTENT_LENGTH, headers::CONTENT_TYPE, headers::CONNECTION],
        "5 standard HTTP/1.1 headers in canonical order"
    );
    let cl = resp
        .headers
        .iter()
        .find(|(n, _)| n == headers::CONTENT_LENGTH)
        .map(|(_, v)| v.as_str())
        .expect("content-length present");
    assert_eq!(cl, "19", "content-length matches body length");
}

#[test]
fn synth_overflow_emits_81_byte_body_and_x_envoy_overloaded() {
    let r = synth_overflow(true);
    assert_eq!(r.status, 503);
    assert_eq!(
        r.body.as_slice(),
        b"upstream connect error or disconnect/reset before headers. reset reason: overflow"
    );
    assert_eq!(r.body.len(), 81, "exact byte count");
    let names: Vec<&str> = r.headers.iter().map(|(k, _)| k.as_str()).collect();
    assert!(names.iter().any(|n| n.eq_ignore_ascii_case("x-envoy-overloaded")), "x-envoy-overloaded header present: {names:?}");
    assert!(
        r.headers.iter().any(|(k, v)| k.eq_ignore_ascii_case("x-envoy-overloaded") && v == "true"),
        "x-envoy-overloaded: true"
    );
    assert!(names.iter().any(|n| n.eq_ignore_ascii_case("content-length")), "content-length header present: {names:?}");
}

#[test]
fn synth_redirect_emits_five_names_and_no_content_type() {
    let resp = synth_redirect(301, "http://example.com/a".to_string(), true);
    let names: Vec<&str> = resp.headers.iter().map(|(n, _)| n.as_str()).collect();
    assert_eq!(
        names,
        vec!["location", "date", "server", "connection", "content-length"],
        "measured upstream wire order for a redirect response"
    );
    assert!(!names.contains(&"content-type"), "a redirect MUST NOT carry content-type");
    assert!(resp.body.is_empty(), "redirect body is empty");
    assert_eq!(
        resp.headers.iter().find(|(n, _)| n == "content-length").map(|(_, v)| v.as_str()),
        Some("0"),
        "content-length is compared value-exact"
    );
    assert_eq!(
        resp.headers.iter().find(|(n, _)| n == "location").map(|(_, v)| v.as_str()),
        Some("http://example.com/a"),
    );
    assert_eq!(resp.status, 301);
    assert_eq!(resp.reason, None, "reason must be unset so the canonical phrase applies");
}

#[test]
fn local_reply_builders_carry_the_standard_rows() {
    let r = synth_with_date(418, b"teapot\n".to_vec(), false, "Thu, 01 Jan 1970 00:00:00 GMT".to_string());
    assert_eq!(
        r.headers,
        vec![
            row("server", "envoy-rust"),
            row("date", "Thu, 01 Jan 1970 00:00:00 GMT"),
            row("content-length", "7"),
            row("content-type", "text/plain"),
            row("connection", "keep-alive"),
        ]
    );
    assert_eq!(synth_400(true).status, 400);
    assert_eq!(synth_404(true).status, 404);
    let r501 = synth_501(true);
    assert_eq!(r501.status, 501);
    assert!(r501.body.is_empty());
    assert_eq!(r501.headers[4], row("connection", "close"));
    let dr = synth_direct_response(&DirectResponse { status: 200, body: Some("ok\n".to_string()) }, false);
    assert_eq!(dr.status, 200);
    assert_eq!(dr.body, b"ok\n".to_vec());
    assert_eq!(dr.headers[2], row("content-length", "3"));
    let empty = synth_direct_response(&DirectResponse { status: 204, body: None }, false);
    assert!(empty.body.is_empty());
    assert_eq!(empty.headers[2], row("content-length", "0"));
}

#[test]
fn plan_redirect_matches_every_measured_location_cell() {
    struct Cell {
        label: &'static str,
        host: &'static str,
        prefix: Option<&'static str>,
        target: &'static str,
        rd: RedirectAction,
        status: u16,
        location: &'static str,
    }
    fn rd(f: impl FnOnce(&mut RedirectAction)) -> RedirectAction {
        let mut r = RedirectAction::default();
        f(&mut r);
        r
    }
    fn cell(
        label: &'static str,
        host: &'static str,
        prefix: &'static str,
        target: &'static str,
        rd: RedirectAction,
        status: u16,
        location: &'static str,
    ) -> Cell {
        Cell { label, host, prefix: Some(prefix), target, rd, status, location }
    }
    let cells = vec![
        cell("R1 host_redirect replaces the authority", "envoy-rust.test", "/a-host", "/a-host",
            rd(|r| r.host_redirect = Some("example.com".into())), 301, "http://example.com/a-host"),
        cell("R2 the query is preserved by default", "envoy-rust.test", "/b-query", "/b-query/deep?a=b",
            rd(|r| r.host_redirect = Some("example.com".into())), 301, "http://example.com/b-query/deep?a=b"),
        cell("R3 path_redirect replaces the path wholesale", "envoy-rust.test", "/c-pathr", "/c-pathr/sub",
            rd(|r| r.path_redirect = Some("/newpath".into())), 301, "http://envoy-rust.test/newpath"),
        cell("R4 path_redirect STILL keeps the query", "envoy-rust.test", "/d-pathq", "/d-pathq/x?k=v",
            rd(|r| r.path_redirect = Some("/newpath".into())), 301, "http://envoy-rust.test/newpath?k=v"),
        cell("R5 prefix_rewrite replaces only the matched span", "envoy-rust.test", "/e-pfx", "/e-pfx/sub",
            rd(|r| r.prefix_rewrite = Some("/replaced".into())), 301, "http://envoy-rust.test/replaced/sub"),
        cell("R6 https_redirect forces the scheme", "envoy-rust.test", "/f-https", "/f-https/x",
            rd(|r| r.https_redirect = Some(true)), 301, "https://envoy-rust.test/f-https/x"),
        cell("R7 response_code TEMPORARY_REDIRECT", "envoy-rust.test", "/g-c307", "/g-c307",
            rd(|r| {
                r.host_redirect = Some("example.com".into());
                r.response_code = RedirectResponseCode::TemporaryRedirect;
            }),
            307, "http://example.com/g-c307"),
        cell("R8 strip_query drops the query", "envoy-rust.test", "/h-strip", "/h-strip/a?q=1&z=2",
            rd(|r| {
                r.host_redirect = Some("example.com".into());
                r.strip_query = true;
            }),
            301, "http://example.com/h-strip/a"),
        cell("R9 port_redirect alongside host_redirect", "envoy-rust.test", "/i-port", "/i-port",
            rd(|r| {
                r.host_redirect = Some("example.com".into());
                r.port_redirect = Some(8443);
            }),
            301, "http://example.com:8443/i-port"),
        cell("R10 a bare redirect{} echoes the request", "envoy-rust.test", "/j-bare", "/j-bare/deep",
            RedirectAction::default(), 301, "http://envoy-rust.test/j-bare/deep"),
        cell("R11 scheme_redirect is NOT allow-listed", "envoy-rust.test", "/k-scheme", "/k-scheme/x",
            rd(|r| r.scheme_redirect = Some("ftp".into())), 301, "ftp://envoy-rust.test/k-scheme/x"),
        cell("R12 scheme_redirect + host_redirect together", "envoy-rust.test", "/l-both", "/l-both/y",
            rd(|r| {
                r.scheme_redirect = Some("https".into());
                r.host_redirect = Some("e.com".into());
            }),
            301, "https://e.com/l-both/y"),
        cell("R13 response_code SEE_OTHER + strip_query", "envoy-rust.test", "/m-see", "/m-see/y?q=1",
            rd(|r| {
                r.host_redirect = Some("e.com".into());
                r.strip_query = true;
                r.response_code = RedirectResponseCode::SeeOther;
            }),
            303, "http://e.com/m-see/y"),
        cell("R14 a scheme change does NOT normalise a redundant :443", "envoy-rust.test", "/n-hport", "/n-hport/y",
            rd(|r| {
                r.https_redirect = Some(true);
                r.port_redirect = Some(443);
            }),
            301, "https://envoy-rust.test:443/n-hport/y"),
        cell("R15 response_code FOUND", "envoy-rust.test", "/o-found", "/o-found",
            rd(|r| {
                r.host_redirect = Some("example.com".into());
                r.response_code = RedirectResponseCode::Found;
            }),
            302, "http://example.com/o-found"),
        cell("R16 response_code PERMANENT_REDIRECT", "envoy-rust.test", "/p-perm", "/p-perm",
            rd(|r| {
                r.host_redirect = Some("example.com".into());
                r.response_code = RedirectResponseCode::PermanentRedirect;
            }),
            308, "http://example.com/p-perm"),
        cell("Q1 host_redirect UNSET preserves the request's port", "envoy-rust.test:1234", "/q1-hostport",
            "/q1-hostport/x", rd(|r| r.https_redirect = Some(true)), 301, "https://envoy-rust.test:1234/q1-hostport/x"),
        cell("Q2 host_redirect SET DROPS the request's port", "envoy-rust.test:1234", "/a-host", "/a-host",
            rd(|r| r.host_redirect = Some("example.com".into())), 301, "http://example.com/a-host"),
        cell("Q3 a bare redirect{} preserves the request's port", "envoy-rust.test:1234", "/q3-hostport",
            "/q3-hostport/d", RedirectAction::default(), 301, "http://envoy-rust.test:1234/q3-hostport/d"),
        cell("Q4 port_redirect OVERRIDES the request's port", "envoy-rust.test:1234", "/n-hport", "/n-hport/y",
            rd(|r| {
                r.https_redirect = Some(true);
                r.port_redirect = Some(443);
            }),
            301, "https://envoy-rust.test:443/n-hport/y"),
        cell("E1 an explicit https_redirect:false is the DEFAULT scheme", "envoy-rust.test", "/y-hfalse",
            "/y-hfalse/z", rd(|r| r.https_redirect = Some(false)), 301, "http://envoy-rust.test/y-hfalse/z"),
        cell("E2 an EMPTY path_redirect performs NO rewrite", "envoy-rust.test", "/x-emptypath", "/x-emptypath/z",
            rd(|r| r.path_redirect = Some(String::new())), 301, "http://envoy-rust.test/x-emptypath/z"),
    ];
    assert_eq!(cells.len(), 22, "all 22 measured cells must be present");
    for c in &cells {
        let plan = plan_redirect(c.host, c.target, c.prefix, &c.rd);
        assert_eq!(plan.location, c.location, "cell {}: location", c.label);
        assert_eq!(plan.status, c.status, "cell {}: status", c.label);
    }
}

#[test]
fn plan_redirect_reports_a_rewritten_path_only_for_prefix_rewrite() {
    let pfx = RedirectAction { prefix_rewrite: Some("/replaced".into()), ..Default::default() };
    assert_eq!(
        plan_redirect("h.test", "/e-pfx/sub", Some("/e-pfx"), &pfx).rewritten_path,
        Some("/replaced/sub".to_string()),
    );
    let pathr = RedirectAction { path_redirect: Some("/newpath".into()), ..Default::default() };
    assert_eq!(
        plan_redirect("h.test", "/c-pathr/sub", Some("/c-pathr"), &pathr).rewritten_path,
        None,
        "path_redirect must NOT rewrite the request's own :path"
    );
    assert_eq!(
        plan_redirect("h.test", "/j-bare/x", Some("/j-bare"), &RedirectAction::default()).rewritten_path,
        None,
        "a bare redirect{{}} rewrites nothing"
    );
}

#[test]
fn plan_redirect_is_total_on_degenerate_spans() {
    let rd = RedirectAction { prefix_rewrite: Some("/r".into()), ..Default::default() };
    assert_eq!(plan_redirect("h.test", "/ab", Some("/abcdefgh"), &rd).location, "http://h.test/r");
    assert_eq!(plan_redirect("h.test", "/\u{e9}", Some("ab"), &rd).location, "http://h.test/r");
}

#[test]
fn plan_redirect_pins_the_two_invented_cells_contract_f_items_7_and_8() {
    let rd = RedirectAction { prefix_rewrite: Some("/replaced".into()), ..Default::default() };
    assert_eq!(
        plan_redirect("h.test", "/exact/path", None, &rd).location,
        "http://h.test/replaced",
        "matched_prefix == None means the WHOLE path is the matched span"
    );
    let plan = plan_redirect("h.test", "/e-pfx/sub?k=v", Some("/e-pfx"), &rd);
    assert_eq!(plan.rewritten_path, Some("/replaced/sub?k=v".to_string()), "the query rides along on the rewritten :path");
    assert_eq!(plan.location, "http://h.test/replaced/sub?k=v", "and the location keeps it too (strip_query defaults false)");
}

#[test]
fn empty_path_redirect_plans_like_an_unset_one() {
    let empty = RedirectAction {
        path_redirect: Some(String::new()),
        prefix_rewrite: Some("/p".into()),
        ..Default::default()
    };
    let unset = RedirectAction { path_redirect: None, ..empty.clone() };
    let a = plan_redirect("h:80", "/x/y?q", Some("/x"), &empty);
    let b = plan_redirect("h:80", "/x/y?q", Some("/x"), &unset);
    assert_eq!(a, b);
    assert_eq!(a.location, "http://h:80/p/y?q");
}

#[test]
fn close_follows_connection_close_or_http10() {
    assert!(request_wants_close(&req_with(HttpVersion::Http11, "/", vec![row("Connection", "Close")])));
    assert!(!request_wants_close(&req_with(HttpVersion::Http11, "/", vec![row("Connection", "keep-alive")])));
    assert!(request_wants_close(&req_with(HttpVersion::Http10, "/", vec![])));
    assert!(!request_wants_close(&req_with(HttpVersion::Http11, "/", vec![row("X-Connection", "close")])));
}

#[test]
fn strip_port_drops_everything_from_the_last_colon() {
    assert_eq!(strip_port("envoy-rust.test:1234"), "envoy-rust.test");
    assert_eq!(strip_port("example.com"), "example.com");
    assert_eq!(strip_port("[::1]:8080"), "[::1]");
    assert_eq!(strip_port(":"), "");
}

#[test]
fn access_log_fields_read_the_first_matching_row() {
    let h = vec![row("X-Trace", "a"), row("x-trace", "b"), row("X-Envoy-Upstream-Service-Time", "17")];
    assert_eq!(access_log_header_value(&h, "x-TRACE"), Some("a".to_string()));
    assert_eq!(access_log_header_value(&h, "x-missing"), None);
    assert_eq!(upstream_service_time_ms(&h), Some(17));
    assert_eq!(extract_upstream_service_time(&h), Some(Duration::from_millis(17)));
    let bad = vec![row("x-envoy-upstream-service-time", "soon")];
    assert_eq!(extract_upstream_service_time(&bad), None);
    assert_eq!(extract_upstream_service_time(&[]), None);
    let req = req_with(HttpVersion::Http11, "/now", vec![row("X-Envoy-Original-Path", "/before")]);
    assert_eq!(x_envoy_original_path_or_path(&req), "/before");
    let plain = req_with(HttpVersion::Http11, "/now", vec![]);
    assert_eq!(x_envoy_original_path_or_path(&plain), "/now");
}

#[test]
fn response_flags_prefer_urx_then_uf_then_details() {
    assert_eq!(response_flags(true, true, Some("route_not_found")), "URX");
    assert_eq!(response_flags(false, true, Some("route_not_found")), "UF");
    assert_eq!(response_flags(false, false, Some("route_not_found")), "NR");
    assert_eq!(response_flags(false, false, Some("no_healthy_upstream")), "UH");
    assert_eq!(response_flags(false, false, Some("upstream_reset_before_response_started{overflow}")), "UO");
    assert_eq!(
        response_flags(false, false, Some("upstream_reset_before_response_started{connection_termination}")),
        "UC"
    );
    assert_eq!(response_flags(false, false, Some("via_upstream")), "-");
    assert_eq!(response_flags(false, false, None), "-");
}

#[test]
fn response_class_covers_200_to_599_only() {
    assert_eq!(response_class(199), None);
    assert_eq!(response_class(200), Some(2));
    assert_eq!(response_class(404), Some(4));
    assert_eq!(response_class(599), Some(5));
    assert_eq!(response_class(600), None);
}

#[test]
fn downstream_reads_end_cleanly_only_between_requests() {
    assert!(peer_closed(0).is_ok());
    assert!(matches!(peer_closed(3), Err(Http1Error::UnexpectedEof)));
    assert_eq!(body_split(10, 4), (4, 0));
    assert_eq!(body_split(2, 5), (2, 3));
    assert_eq!(body_split(0, 0), (0, 0));
    assert_eq!(body_read(3, 2).unwrap(), 1);
    assert!(matches!(body_read(3, 0), Err(Http1Error::UnexpectedEof)));
}

#[test]
fn content_length_verdict_ignores_row_order() {
    let a = vec![row("Content-Length", "9"), row("Host", "h"), row("content-length", "9")];
    let b = vec![row("content-length", "9"), row("Content-Length", "9"), row("Host", "h")];
    assert_eq!(parse_content_length(&a).unwrap(), 9);
    assert_eq!(parse_content_length(&b).unwrap(), 9);
    let c = vec![row("Content-Length", "9"), row("Content-Length", "x")];
    let d = vec![row("Content-Length", "x"), row("Content-Length", "9")];
    assert!(parse_content_length(&c).is_err());
    assert!(parse_content_length(&d).is_err());
}

#[test]
fn request_framing_gathers_the_entry_decisions() {
    let r = req_with(HttpVersion::Http10, "/", vec![row("Content-Length", "3"), row("Transfer-Encoding", "gzip")]);
    let f = request_framing(&r).unwrap();
    assert!(f.close);
    assert_eq!(f.body_len, 3);
    assert!(!f.chunked);
    let chunked = req_with(HttpVersion::Http11, "/", vec![row("Transfer-Encoding", "chunked, gzip")]);
    let f = request_framing(&chunked).unwrap();
    assert!(!f.close && f.chunked);
    assert_eq!(f.body_len, 0);
    let smuggled = req_with(HttpVersion::Http11, "/", vec![row("Content-Length", "3"), row("Content-Length", "4")]);
    assert!(matches!(request_framing(&smuggled), Err(Http1Error::MalformedHeader)));
}

#[test]
fn strip_query_removes_only_the_query() {
    let strip = RedirectAction { host_redirect: Some("e.com".into()), strip_query: true, ..Default::default() };
    let keep = RedirectAction { strip_query: false, ..strip.clone() };
    let a = plan_redirect("h", "/p?x=1&y=2", Some("/p"), &strip).location;
    let b = plan_redirect("h", "/p?x=1&y=2", Some("/p"), &keep).location;
    assert_eq!(a, "http://e.com/p");
    assert_eq!(format!("{a}?x=1&y=2"), b);
}

#[test]
fn decorate_overwrites_every_content_length_row() {
    let mut resp = Response {
        status: 429,
        reason: Some("Too Many Requests"),
        headers: vec![row("content-length", "10"), row("Content-Length", "11")],
        body: b"local_rate_limited".to_vec(),
    };
    decorate_with_date(&mut resp, Some("close"), "Thu, 01 Jan 1970 00:00:00 GMT".to_string());
    assert_eq!(
        resp.headers,
        vec![
            row("content-length", "18"),
            row("Content-Length", "18"),
            row("content-type", "text/plain"),
            row("server", "envoy-rust"),
            row("date", "Thu, 01 Jan 1970 00:00:00 GMT"),
            row("connection", "close"),
        ]
    );
    let mut live = Response {
        status: 429,
        reason: None,
        headers: vec![row("content-length", "10"), row("Content-Length", "11")],
        body: b"local_rate_limited".to_vec(),
    };
    decorate_filter_synth_response(&mut live, Some("close"));
    let lengths: Vec<&str> = live
        .headers
        .iter()
        .filter(|(k, _)| k.eq_ignore_ascii_case("content-length"))
        .map(|(_, v)| v.as_str())
        .collect();
    assert_eq!(lengths, vec!["18", "18"]);
}

#[test]
fn decorate_keeps_the_filter_rows_first_and_appends_only_new_names() {
    let mut resp = Response {
        status: 200,
        reason: None,
        headers: vec![row("Date", "earlier"), row("x-b", "c"), row("content-length", "99")],
        body: b"ab".to_vec(),
    };
    decorate_with_date(&mut resp, None, "Thu, 01 Jan 1970 00:00:00 GMT".to_string());
    assert_eq!(
        resp.headers,
        vec![
            row("Date", "earlier"),
            row("x-b", "c"),
            row("content-length", "2"),
            row("content-type", "text/plain"),
            row("server", "envoy-rust"),
        ]
    );
}

#[test]
fn the_connection_loop_parses_reads_and_ends_as_decided() {
    let req = b"GET / HTTP/1.1\r\nHost: a\r\n\r\nGET /next HTTP/1.1\r\n";
    match connection_step(req, ConnEvent::Ready) {
        ConnStep::Handle(r) => {
            assert_eq!(r.path, "/");
            assert_eq!(r.bytes_consumed, 27);
        },
        other => panic!("{other:?}"),
    }
    assert!(matches!(connection_step(b"GET / HTTP/1.1\r\nHost", ConnEvent::Ready), ConnStep::Read));
    assert!(matches!(connection_step(b"", ConnEvent::Ready), ConnStep::Read));
    assert!(matches!(
        connection_step(b"\x01\x02 / HTTP/1.1\r\n\r\n", ConnEvent::Ready),
        ConnStep::End(Err(Http1Error::MalformedRequestLine))
    ));
    assert!(matches!(connection_step(b"GE", ConnEvent::Read(ReadEvent::Data)), ConnStep::Parse));
    assert!(matches!(connection_step(b"", ConnEvent::Read(ReadEvent::Closed)), ConnStep::End(Ok(()))));
    assert!(matches!(
        connection_step(b"GE", ConnEvent::Read(ReadEvent::Closed)),
        ConnStep::End(Err(Http1Error::UnexpectedEof))
    ));
    assert!(matches!(connection_step(b"GE", ConnEvent::Read(ReadEvent::IdleTimeout)), ConnStep::End(Ok(()))));
    let failed = std::io::Error::new(std::io::ErrorKind::ConnectionReset, "reset");
    assert!(matches!(
        connection_step(b"", ConnEvent::Read(ReadEvent::Failed(failed))),
        ConnStep::End(Err(Http1Error::Io { .. }))
    ));
    assert!(matches!(connection_step(b"", ConnEvent::Responded { close: true }), ConnStep::End(Ok(()))));
    assert!(matches!(connection_step(b"GET", ConnEvent::Responded { close: false }), ConnStep::Parse));
}
