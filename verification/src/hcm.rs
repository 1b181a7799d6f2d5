//! HTTP connection manager decisions: request framing checks, access-log
//! field derivations and the local-reply builders.

use crate::codec::{httparse_request, request_outcome, request_result_view, Http1Codec, HttpVersion, Request, RequestView, MAX_HEADERS};
use crate::date::{imf_fixdate, now_imf_fixdate, reading_secs};
use crate::response::Response;
use crate::route::{DirectResponse, RedirectAction};
use crate::error::Http1Error;
use crate::headers::{
    contains_header, find_header, find_header_index, has_header, headers_view,
    lookup, name_matches, CONNECTION, CONTENT_LENGTH,
    CONTENT_TYPE, DATE, LOCATION, SERVER, TRANSFER_ENCODING,
};
use crate::text::{
    ascii_lower, bytes_of, contains_trimmed_piece, decimal_string, decimal_text, has_trimmed_piece, parse_unsigned,
    append_str, decimal, find_byte, find_byte_exec, lemma_decimal_text_bytes, lemma_find_byte_bounds, push_str, skip_ascii_byte, split_at_ascii,
    str_eq_ignore_ascii_case, unsigned_parse,
};
use vstd::utf8::is_char_boundary;
use vstd::prelude::*;

verus! {

// ---------------------------------------------------------------------------
// Request framing.
// ---------------------------------------------------------------------------

/// Whether a `Transfer-Encoding` value names `chunked` among its
/// comma-separated, whitespace-trimmed tokens (ASCII case-insensitive).
pub open spec fn names_chunked(v: Seq<char>) -> bool {
    has_trimmed_piece(v, ',', "chunked"@)
}

/// Some `Transfer-Encoding` row names `chunked`.
pub open spec fn has_chunked_row(h: Seq<(Seq<char>, Seq<char>)>) -> bool {
    exists|i: int| 0 <= i < h.len() && name_matches(#[trigger] h[i].0, TRANSFER_ENCODING@) && names_chunked(h[i].1)
}

/// True if any `Transfer-Encoding` header names `chunked` as one of its
/// comma-separated tokens (case-insensitive, whitespace-trimmed), in any
/// position and in any row.
pub fn has_chunked_transfer_encoding(headers: &[(String, String)]) -> (r: bool)
    ensures
        r == has_chunked_row(headers_view(headers@)),
{
    let ghost h = headers_view(headers@);
    let mut i: usize = 0;
    while i < headers.len()
        invariant
            0 <= i <= headers@.len(),
            h == headers_view(headers@),
            forall|j: int|
                0 <= j < i ==> !(name_matches(#[trigger] h[j].0, TRANSFER_ENCODING@) && names_chunked(h[j].1)),
        decreases headers@.len() - i,
    {
        assert(h[i as int] == (headers@[i as int].0@, headers@[i as int].1@));
        if str_eq_ignore_ascii_case(headers[i].0.as_str(), TRANSFER_ENCODING)
            && contains_trimmed_piece(headers[i].1.as_str(), ',', "chunked") {
            assert(name_matches(h[i as int].0, TRANSFER_ENCODING@) && names_chunked(h[i as int].1));
            return true;
        }
        i += 1;
    }
    false
}

/// The `Content-Length` value of row `v`, if it parses as a `usize`.
#[verifier::opaque]
pub open spec fn content_length_value(v: Seq<char>) -> Option<nat> {
    unsigned_parse(bytes_of(v), usize::MAX as nat)
}

/// Every `Content-Length` row of `h` carries the value `v`.
pub open spec fn content_lengths_are(h: Seq<(Seq<char>, Seq<char>)>, v: nat) -> bool {
    forall|i: int|
        0 <= i < h.len() && name_matches(#[trigger] h[i].0, CONTENT_LENGTH@) ==> content_length_value(h[i].1)
            == Some(v)
}

/// Every `Content-Length` row parses, and all of them carry the same value.
pub open spec fn content_lengths_agree(h: Seq<(Seq<char>, Seq<char>)>) -> bool {
    exists|v: nat| #[trigger] content_lengths_are(h, v)
}

/// Resolve the request body length from `Content-Length`, rejecting the
/// request-smuggling shapes RFC 7230 §3.3.3 forbids: every `Content-Length`
/// row is read; a non-numeric value or two differing values is
/// `MalformedHeader`; identical repeats are tolerated; no row means 0.
pub fn parse_content_length(headers: &[(String, String)]) -> (r: Result<usize, Http1Error>)
    ensures
        r is Ok <==> content_lengths_agree(headers_view(headers@)),
        r matches Ok(n) ==> content_lengths_are(headers_view(headers@), n as nat),
        r matches Ok(n) ==> (!has_header(headers_view(headers@), CONTENT_LENGTH@) ==> n == 0),
        r matches Err(e) ==> e is MalformedHeader,
{
    let ghost h = headers_view(headers@);
    let mut seen: Option<usize> = None;
    let ghost mut witness: int = 0;
    let mut i: usize = 0;
    while i < headers.len()
        invariant
            0 <= i <= headers@.len(),
            h == headers_view(headers@),
            seen is None ==> forall|j: int| 0 <= j < i ==> !name_matches(#[trigger] h[j].0, CONTENT_LENGTH@),
            seen is Some ==> {
                &&& 0 <= witness < i
                &&& name_matches(h[witness].0, CONTENT_LENGTH@)
                &&& forall|j: int| 0 <= j < i && name_matches(#[trigger] h[j].0, CONTENT_LENGTH@)
                    ==> content_length_value(h[j].1) == Some(seen->0 as nat)
            },
        decreases headers@.len() - i,
    {
        assert(h[i as int] == (headers@[i as int].0@, headers@[i as int].1@));
        if str_eq_ignore_ascii_case(headers[i].0.as_str(), CONTENT_LENGTH) {
            assert(name_matches(h[i as int].0, CONTENT_LENGTH@));
            let parsed_u64 = parse_unsigned(headers[i].1.as_str().as_bytes(), usize::MAX as u64);
            proof {
                reveal(content_length_value);
            }
            let parsed = match parsed_u64 {
                Some(v) => v as usize,
                None => {
                    proof {
                        assert forall|v: nat| !#[trigger] content_lengths_are(h, v) by {
                            assert(content_length_value(h[i as int].1) is None);
                        }
                    }
                    return Err(Http1Error::MalformedHeader);
                },
            };
            assert(content_length_value(h[i as int].1) == Some(parsed as nat));
            match seen {
                Some(prev) => {
                    if prev != parsed {
                        proof {
                            assert forall|v: nat| !#[trigger] content_lengths_are(h, v) by {
                                if content_lengths_are(h, v) {
                                    assert(content_length_value(h[witness].1) == Some(v));
                                    assert(content_length_value(h[i as int].1) == Some(v));
                                }
                            }
                        }
                        return Err(Http1Error::MalformedHeader);
                    }
                },
                None => {
                    seen = Some(parsed);
                    proof {
                        witness = i as int;
                    }
                },
            }
        }
        i += 1;
    }
    match seen {
        Some(n) => {
            proof {
                assert(content_lengths_are(h, n as nat));
            }
            Ok(n)
        },
        None => {
            proof {
                assert(content_lengths_are(h, 0));
                if has_header(h, CONTENT_LENGTH@) {
                    let w = choose|w: int| 0 <= w < h.len() && name_matches(#[trigger] h[w].0, CONTENT_LENGTH@);
                }
            }
            Ok(0)
        },
    }
}

/// Some row is `Connection: close` (name and value ASCII case-insensitive).
pub open spec fn has_close_row(headers: Seq<(Seq<char>, Seq<char>)>) -> bool {
    exists|i: int|
        0 <= i < headers.len() && name_matches(#[trigger] headers[i].0, CONNECTION@)
            && name_matches(headers[i].1, "close"@)
}

/// Whether some row is `Connection: close`.
pub fn rows_say_close(headers: &[(String, String)]) -> (r: bool)
    ensures
        r == has_close_row(headers_view(headers@)),
{
    let ghost view = headers_view(headers@);
    let mut i: usize = 0;
    while i < headers.len()
        invariant
            0 <= i <= headers@.len(),
            view == headers_view(headers@),
            forall|j: int|
                0 <= j < i ==> !(name_matches(#[trigger] view[j].0, CONNECTION@) && name_matches(view[j].1, "close"@)),
        decreases headers@.len() - i,
    {
        assert(view[i as int] == (headers@[i as int].0@, headers@[i as int].1@));
        if str_eq_ignore_ascii_case(headers[i].0.as_str(), CONNECTION)
            && str_eq_ignore_ascii_case(headers[i].1.as_str(), "close") {
            assert(name_matches(view[i as int].0, CONNECTION@) && name_matches(view[i as int].1, "close"@));
            return true;
        }
        i += 1;
    }
    false
}

/// Whether the request asks for the connection to close after the
/// response: a `Connection: close` row (both ASCII case-insensitive), or
/// HTTP/1.0.
pub open spec fn wants_close(req: crate::codec::RequestView) -> bool {
    has_close_row(req.headers) || req.version == HttpVersion::Http10
}

/// The close/keep-alive decision for a parsed request.
pub fn request_wants_close(req: &Request) -> (r: bool)
    ensures
        r == wants_close(req@),
{
    rows_say_close(req.headers.as_slice()) || req.version == HttpVersion::Http10
}

} // verus!

verus! {

// ---------------------------------------------------------------------------
// Access-log field derivations.
// ---------------------------------------------------------------------------

/// Case-insensitive header-value lookup returning an owned `String`: the
/// value of the first row whose name matches.
pub fn access_log_header_value(headers: &[(String, String)], name: &str) -> (r: Option<String>)
    ensures
        match r {
            Some(v) => lookup(headers_view(headers@), name@) == Some(v@),
            None => lookup(headers_view(headers@), name@) is None,
        },
{
    match find_header(headers, name) {
        Some(v) => Some(v.to_owned()),
        None => None,
    }
}

pub const UPSTREAM_SERVICE_TIME: &'static str = "x-envoy-upstream-service-time";

/// The upstream service time in milliseconds: the first
/// `x-envoy-upstream-service-time` row, when it parses as a `u64`.
pub open spec fn service_time_ms(headers: Seq<(Seq<char>, Seq<char>)>) -> Option<nat> {
    match lookup(headers, UPSTREAM_SERVICE_TIME@) {
        Some(v) => unsigned_parse(bytes_of(v), u64::MAX as nat),
        None => None,
    }
}

/// The `x-envoy-upstream-service-time` response header as milliseconds;
/// `None` when absent or not a `u64`.
pub fn upstream_service_time_ms(headers: &[(String, String)]) -> (r: Option<u64>)
    ensures
        match r {
            Some(ms) => service_time_ms(headers_view(headers@)) == Some(ms as nat),
            None => service_time_ms(headers_view(headers@)) is None,
        },
{
    match find_header(headers, UPSTREAM_SERVICE_TIME) {
        Some(v) => parse_unsigned(v.as_bytes(), u64::MAX),
        None => None,
    }
}

/// What `Duration::from_millis` gives for `ms`: the duration of that many
/// milliseconds.
pub uninterp spec fn millis_duration(ms: u64) -> std::time::Duration;

/// `Duration::from_millis`, its result named as a function of `ms` alone.
#[verifier::external_body]
fn duration_from_millis(ms: u64) -> (r: std::time::Duration)
    ensures
        r == millis_duration(ms),
{
    std::time::Duration::from_millis(ms)
}

/// Parse the upstream's `x-envoy-upstream-service-time` response header
/// (integer milliseconds) into a `Duration`; `None` when the header is
/// absent or its value is not a `u64`.
pub fn extract_upstream_service_time(headers: &[(String, String)]) -> (r: Option<std::time::Duration>)
    ensures
        r is Some <==> service_time_ms(headers_view(headers@)) is Some,
        r matches Some(d) ==> d == millis_duration(service_time_ms(headers_view(headers@))->0 as u64),
{
    match upstream_service_time_ms(headers) {
        Some(ms) => Some(duration_from_millis(ms)),
        None => None,
    }
}

pub const X_ENVOY_ORIGINAL_PATH: &'static str = "x-envoy-original-path";

/// `%REQ(X-ENVOY-ORIGINAL-PATH?:PATH)%`: the first `x-envoy-original-path`
/// header (case-insensitive) if present, else the request path.
pub fn x_envoy_original_path_or_path(req: &Request) -> (r: &str)
    ensures
        r@ == match lookup(req@.headers, X_ENVOY_ORIGINAL_PATH@) {
            Some(v) => v,
            None => req@.path,
        },
{
    match find_header(&req.headers, X_ENVOY_ORIGINAL_PATH) {
        Some(v) => v,
        None => req.path.as_str(),
    }
}

/// `%RESPONSE_FLAGS%`: `URX` when the retry limit was exceeded, else `UF`
/// on a final connect failure, else derived from the response-code
/// details (`NR`, `UH`, `UO`, `UC`), else `-`.
pub open spec fn response_flags_of(
    retry_limit_exceeded: bool,
    connect_failure: bool,
    details: Option<Seq<char>>,
) -> Seq<char> {
    if retry_limit_exceeded {
        "URX"@
    } else if connect_failure {
        "UF"@
    } else {
        match details {
            Some(d) => if d == "route_not_found"@ {
                "NR"@
            } else if d == "no_healthy_upstream"@ {
                "UH"@
            } else if d == "upstream_reset_before_response_started{overflow}"@ {
                "UO"@
            } else if d == "upstream_reset_before_response_started{connection_termination}"@ {
                "UC"@
            } else {
                "-"@
            },
            None => "-"@,
        }
    }
}

fn str_eq(a: &str, b: &str) -> (r: bool)
    ensures
        r == (a@ == b@),
{
    let r = crate::text::bytes_eq(a.as_bytes(), b.as_bytes());
    proof {
        vstd::utf8::encode_utf8_decode_utf8(a@);
        vstd::utf8::encode_utf8_decode_utf8(b@);
    }
    r
}

/// The `%RESPONSE_FLAGS%` access-log field.
pub fn response_flags(retry_limit_exceeded: bool, connect_failure: bool, details: Option<&str>) -> (r: &'static str)
    ensures
        r@ == response_flags_of(
            retry_limit_exceeded,
            connect_failure,
            match details {
                Some(d) => Some(d@),
                None => None,
            },
        ),
{
    if retry_limit_exceeded {
        "URX"
    } else if connect_failure {
        "UF"
    } else {
        match details {
            Some(d) => if str_eq(d, "route_not_found") {
                "NR"
            } else if str_eq(d, "no_healthy_upstream") {
                "UH"
            } else if str_eq(d, "upstream_reset_before_response_started{overflow}") {
                "UO"
            } else if str_eq(d, "upstream_reset_before_response_started{connection_termination}") {
                "UC"
            } else {
                "-"
            },
            None => "-",
        }
    }
}

/// The per-class downstream counter a response status ticks: `2`..`5` for
/// the 2xx..5xx classes, `None` outside `[200, 600)`.
pub fn response_class(status: u16) -> (r: Option<u16>)
    ensures
        r == (if 200 <= status < 600 { Some((status / 100) as u16) } else { None::<u16> }),
{
    match status / 100 {
        2 | 3 | 4 | 5 => Some(status / 100),
        _ => None,
    }
}

// ---------------------------------------------------------------------------
// Host matching.
// ---------------------------------------------------------------------------

/// `host` without its `:port` suffix: everything before the last `:`.
pub open spec fn strip_port_bytes(host: Seq<u8>) -> Seq<u8> {
    match crate::text::rfind_byte(host, 58u8) {
        Some(i) => host.take(i),
        None => host,
    }
}

/// Strips a trailing `:port` (everything from the last `:`).
pub fn strip_port(host: &str) -> (r: &str)
    ensures
        bytes_of(r@) == strip_port_bytes(bytes_of(host@)),
{
    let bytes = host.as_bytes();
    match crate::text::rfind_byte_exec(bytes, 58u8) {
        Some(i) => {
            proof {
                crate::text::lemma_rfind_byte_bounds(bytes@, 58u8);
            }
            crate::text::split_at_ascii(host, i).0
        },
        None => host,
    }
}

/// The `connection:` value for a reply: `close` or `keep-alive`.
pub fn connection_value(close: bool) -> (r: &'static str)
    ensures
        r@ == (if close { "close"@ } else { "keep-alive"@ }),
{
    if close {
        "close"
    } else {
        "keep-alive"
    }
}

} // verus!

verus! {

// ---------------------------------------------------------------------------
// Local replies.
// ---------------------------------------------------------------------------

pub const DEFAULT_SERVER_NAME: &'static str = "envoy-rust";

pub const DEFAULT_CONTENT_TYPE: &'static str = "text/plain";

/// An HTTP-date value: the IMF-fixdate of some instant.
pub open spec fn is_http_date(v: Seq<char>) -> bool {
    exists|secs: u64| bytes_of(v) == #[trigger] imf_fixdate(secs as nat)
}

pub open spec fn connection_text(close: bool) -> Seq<char> {
    if close { "close"@ } else { "keep-alive"@ }
}

/// The five standard HTTP/1.1 reply headers, in wire order:
/// `server, date, content-length, content-type, connection`.
pub open spec fn standard_headers(body_len: nat, close: bool, date: Seq<char>) -> Seq<(Seq<char>, Seq<char>)> {
    seq![
        (SERVER@, DEFAULT_SERVER_NAME@),
        (DATE@, date),
        (CONTENT_LENGTH@, decimal_text(body_len)),
        (CONTENT_TYPE@, DEFAULT_CONTENT_TYPE@),
        (CONNECTION@, connection_text(close)),
    ]
}

fn owned(s: &str) -> (r: String)
    ensures
        r@ == s@,
{
    s.to_owned()
}

/// The current date as an HTTP-date string.
fn now_http_date() -> (r: String)
    ensures
        is_http_date(r@),
{
    let d = now_imf_fixdate();
    proof {
        let tv_sec = choose|tv_sec: i64| bytes_of(d@) == #[trigger] imf_fixdate(reading_secs(tv_sec));
        assert(bytes_of(d@) == imf_fixdate((reading_secs(tv_sec) as u64) as nat));
    }
    d
}

/// A local reply of `status` and `body` carrying exactly the five standard
/// headers, with `date` as the `date:` value.
pub fn synth_with_date(status: u16, body: Vec<u8>, close: bool, date: String) -> (r: Response)
    ensures
        r.status == status,
        r.reason is None,
        r.body@ == body@,
        r.header_rows() == standard_headers(body@.len(), close, date@),
{
    let len = body.len();
    let mut headers: Vec<(String, String)> = Vec::new();
    headers.push((owned(SERVER), owned(DEFAULT_SERVER_NAME)));
    headers.push((owned(DATE), date));
    headers.push((owned(CONTENT_LENGTH), decimal_string(len as u128)));
    headers.push((owned(CONTENT_TYPE), owned(DEFAULT_CONTENT_TYPE)));
    headers.push((owned(CONNECTION), owned(connection_value(close))));
    let r = Response { status, reason: None, headers, body };
    proof {
        assert(r.header_rows() =~= standard_headers(body@.len(), close, date@));
    }
    r
}

/// Shared skeleton behind every synth-response builder: `status` + `body`
/// with exactly the five standard HTTP/1.1 headers in canonical order
/// `[server, date, content-length, content-type, connection]`, the date
/// being the current one.
pub fn synth_with(status: u16, body: Vec<u8>, close: bool) -> (r: Response)
    ensures
        r.status == status,
        r.reason is None,
        r.body@ == body@,
        r.header_rows().len() == 5,
        is_http_date(r.header_rows()[1].1),
        r.header_rows() == standard_headers(body@.len(), close, r.header_rows()[1].1),
{
    let date = now_http_date();
    synth_with_date(status, body, close, date)
}

/// A `direct_response` reply: its status, its inline body (empty when
/// absent), and the standard headers.
pub fn synth_direct_response(dr: &DirectResponse, close: bool) -> (r: Response)
    ensures
        r.status == dr.status,
        r.reason is None,
        r.body@ == match dr.body {
            Some(b) => bytes_of(b@),
            None => Seq::empty(),
        },
        r.header_rows().len() == 5,
        is_http_date(r.header_rows()[1].1),
        r.header_rows() == standard_headers(r.body@.len(), close, r.header_rows()[1].1),
{
    let mut body: Vec<u8> = Vec::new();
    match &dr.body {
        Some(s) => push_str(&mut body, s.as_str()),
        None => {},
    }
    proof {
        assert(body@ =~= match dr.body {
            Some(b) => bytes_of(b@),
            None => Seq::empty(),
        });
    }
    synth_with(dr.status, body, close)
}

/// An empty-bodied local reply of `status`.
pub fn synth_status(status: u16, close: bool) -> (r: Response)
    ensures
        r.status == status,
        r.reason is None,
        r.body@.len() == 0,
        r.header_rows().len() == 5,
        is_http_date(r.header_rows()[1].1),
        r.header_rows() == standard_headers(0, close, r.header_rows()[1].1),
{
    synth_with(status, Vec::new(), close)
}

pub fn synth_400(close: bool) -> (r: Response)
    ensures
        r.status == 400,
        r.reason is None,
        r.body@.len() == 0,
        r.header_rows().len() == 5,
        is_http_date(r.header_rows()[1].1),
        r.header_rows() == standard_headers(0, close, r.header_rows()[1].1),
{
    synth_status(400, close)
}

pub fn synth_404(close: bool) -> (r: Response)
    ensures
        r.status == 404,
        r.reason is None,
        r.body@.len() == 0,
        r.header_rows().len() == 5,
        is_http_date(r.header_rows()[1].1),
        r.header_rows() == standard_headers(0, close, r.header_rows()[1].1),
{
    synth_status(404, close)
}

pub fn synth_501(close: bool) -> (r: Response)
    ensures
        r.status == 501,
        r.reason is None,
        r.body@.len() == 0,
        r.header_rows().len() == 5,
        is_http_date(r.header_rows()[1].1),
        r.header_rows() == standard_headers(0, close, r.header_rows()[1].1),
{
    synth_status(501, close)
}

pub const NO_HEALTHY_UPSTREAM_BODY: &'static str = "no healthy upstream";

pub const OVERFLOW_BODY: &'static str =
    "upstream connect error or disconnect/reset before headers. reset reason: overflow";

/// The no-healthy-upstream 503: body `no healthy upstream` and the five
/// standard headers.
pub fn synth_no_healthy_upstream(close: bool) -> (r: Response)
    ensures
        r.status == 503,
        r.reason is None,
        r.body@ == bytes_of(NO_HEALTHY_UPSTREAM_BODY@),
        r.header_rows().len() == 5,
        is_http_date(r.header_rows()[1].1),
        r.header_rows() == standard_headers(r.body@.len(), close, r.header_rows()[1].1),
{
    let mut body: Vec<u8> = Vec::new();
    push_str(&mut body, NO_HEALTHY_UPSTREAM_BODY);
    synth_with(503, body, close)
}

/// The connection-pool / request-budget overflow 503: the overflow body,
/// the five standard headers, then `x-envoy-overloaded: true`.
pub fn synth_overflow(close: bool) -> (r: Response)
    ensures
        r.status == 503,
        r.reason is None,
        r.body@ == bytes_of(OVERFLOW_BODY@),
        r.header_rows().len() == 6,
        is_http_date(r.header_rows()[1].1),
        r.header_rows() == standard_headers(r.body@.len(), close, r.header_rows()[1].1).push(
            ("x-envoy-overloaded"@, "true"@),
        ),
{
    let mut body: Vec<u8> = Vec::new();
    push_str(&mut body, OVERFLOW_BODY);
    let mut resp = synth_with(503, body, close);
    let ghost before = resp.header_rows();
    resp.headers.push((owned("x-envoy-overloaded"), owned("true")));
    proof {
        assert(resp.header_rows() =~= before.push(("x-envoy-overloaded"@, "true"@)));
    }
    resp
}

/// The redirect reply's headers, in the measured wire order:
/// `location, date, server, connection, content-length: 0` and no
/// `content-type`.
pub open spec fn redirect_headers(location: Seq<char>, close: bool, date: Seq<char>) -> Seq<(Seq<char>, Seq<char>)> {
    seq![
        (LOCATION@, location),
        (DATE@, date),
        (SERVER@, DEFAULT_SERVER_NAME@),
        (CONNECTION@, connection_text(close)),
        (CONTENT_LENGTH@, "0"@),
    ]
}

/// The redirect response builder: empty body, unset reason phrase.
pub fn synth_redirect(status: u16, location: String, close: bool) -> (r: Response)
    ensures
        r.status == status,
        r.reason is None,
        r.body@.len() == 0,
        r.header_rows().len() == 5,
        is_http_date(r.header_rows()[1].1),
        r.header_rows() == redirect_headers(location@, close, r.header_rows()[1].1),
{
    let date = now_http_date();
    let ghost loc = location@;
    let ghost d = date@;
    let mut headers: Vec<(String, String)> = Vec::new();
    headers.push((owned(LOCATION), location));
    headers.push((owned(DATE), date));
    headers.push((owned(SERVER), owned(DEFAULT_SERVER_NAME)));
    headers.push((owned(CONNECTION), owned(connection_value(close))));
    headers.push((owned(CONTENT_LENGTH), owned("0")));
    let r = Response { status, reason: None, headers, body: Vec::new() };
    proof {
        assert(r.header_rows() =~= redirect_headers(loc, close, d));
    }
    r
}

} // verus!

verus! {

pub open spec fn opt_str_view(c: Option<&str>) -> Option<Seq<char>> {
    match c {
        Some(s) => Some(s@),
        None => None,
    }
}

/// `h` with `(name, value)` appended unless some row already has that name
/// (ASCII case-insensitive).
pub open spec fn add_if_missing(h: Seq<(Seq<char>, Seq<char>)>, name: Seq<char>, value: Seq<char>) -> Seq<(Seq<char>, Seq<char>)> {
    if has_header(h, name) { h } else { h.push((name, value)) }
}

/// `r` with its value replaced by `value` when it is a `content-length`
/// row (ASCII case-insensitive); any other row unchanged.
pub open spec fn with_length_value(r: (Seq<char>, Seq<char>), value: Seq<char>) -> (Seq<char>, Seq<char>) {
    if name_matches(r.0, CONTENT_LENGTH@) {
        (r.0, value)
    } else {
        r
    }
}

/// Every `content-length` row of `h` (ASCII case-insensitive) with its
/// value set to the body length; other rows unchanged.
pub open spec fn set_content_lengths(h: Seq<(Seq<char>, Seq<char>)>, body_len: nat) -> Seq<(Seq<char>, Seq<char>)> {
    h.map_values(|r: (Seq<char>, Seq<char>)| with_length_value(r, decimal_text(body_len)))
}

/// Step one of decoration: every `content-length` row set to the body
/// length, or one appended when there is none.
pub open spec fn with_content_length(h: Seq<(Seq<char>, Seq<char>)>, body_len: nat) -> Seq<(Seq<char>, Seq<char>)> {
    if has_header(h, CONTENT_LENGTH@) {
        set_content_lengths(h, body_len)
    } else {
        h.push((CONTENT_LENGTH@, decimal_text(body_len)))
    }
}

/// The remaining steps of decoration: the rows added only if missing.
pub open spec fn with_defaults(
    h1: Seq<(Seq<char>, Seq<char>)>,
    body_len: nat,
    date: Seq<char>,
    connection: Option<Seq<char>>,
) -> Seq<(Seq<char>, Seq<char>)> {
    let h2 = if !has_header(h1, CONTENT_TYPE@) && body_len > 0 {
        h1.push((CONTENT_TYPE@, DEFAULT_CONTENT_TYPE@))
    } else {
        h1
    };
    let h3 = add_if_missing(h2, SERVER@, DEFAULT_SERVER_NAME@);
    let h4 = add_if_missing(h3, DATE@, date);
    match connection {
        Some(c) => add_if_missing(h4, CONNECTION@, c),
        None => h4,
    }
}

/// The header rows of a filter-synthesized reply after decoration:
/// `content-length` always set from the body length (every such row
/// overwritten in place, else one appended); `content-type: text/plain`
/// appended when absent and the body is non-empty; then `server`, `date`
/// and (when requested) `connection` appended each only if missing.
pub open spec fn decorated_headers(
    h: Seq<(Seq<char>, Seq<char>)>,
    body_len: nat,
    date: Seq<char>,
    connection: Option<Seq<char>>,
) -> Seq<(Seq<char>, Seq<char>)> {
    with_defaults(with_content_length(h, body_len), body_len, date, connection)
}

/// Sets every `content-length` row to `value`; whether there was one.
fn set_content_length_rows(headers: &mut Vec<(String, String)>, value: &String) -> (found: bool)
    ensures
        found == has_header(headers_view(old(headers)@), CONTENT_LENGTH@),
        headers_view(final(headers)@) == headers_view(old(headers)@).map_values(
            |r: (Seq<char>, Seq<char>)| with_length_value(r, value@),
        ),
{
    let ghost h = headers_view(headers@);
    let mut found = false;
    let mut i: usize = 0;
    while i < headers.len()
        invariant
            0 <= i <= headers@.len(),
            headers@.len() == h.len(),
            h == headers_view(old(headers)@),
            forall|j: int| 0 <= j < i ==> (#[trigger] headers@[j]).0@ == with_length_value(h[j], value@).0
                && headers@[j].1@ == with_length_value(h[j], value@).1,
            forall|j: int| i <= j < h.len() ==> (#[trigger] headers@[j]).0@ == h[j].0 && headers@[j].1@ == h[j].1,
            found == exists|j: int| 0 <= j < i && name_matches(#[trigger] h[j].0, CONTENT_LENGTH@),
        decreases h.len() - i,
    {
        let ghost before = headers@;
        let ghost row = h[i as int];
        assert(row.0 == headers@[i as int].0@);
        if str_eq_ignore_ascii_case(headers[i].0.as_str(), CONTENT_LENGTH) {
            let name = headers[i].0.clone();
            headers.set(i, (name, value.clone()));
            assert(name_matches(row.0, CONTENT_LENGTH@));
            found = true;
        } else {
            assert(!name_matches(row.0, CONTENT_LENGTH@));
        }
        assert(headers@[i as int].0@ == with_length_value(row, value@).0);
        assert(headers@[i as int].1@ == with_length_value(row, value@).1);
        assert forall|j: int| 0 <= j < h.len() && j != i implies #[trigger] headers@[j] == before[j] by {}
        i += 1;
    }
    assert forall|j: int| 0 <= j < h.len() implies #[trigger] headers_view(headers@)[j] == h.map_values(
        |r: (Seq<char>, Seq<char>)| with_length_value(r, value@),
    )[j] by {
        assert(headers@[j].0@ == with_length_value(h[j], value@).0);
    }
    assert(headers_view(headers@) =~= h.map_values(|r: (Seq<char>, Seq<char>)| with_length_value(r, value@)));
    found
}

fn push_if_missing(headers: &mut Vec<(String, String)>, name: &str, value: String)
    ensures
        headers_view(final(headers)@) == add_if_missing(headers_view(old(headers)@), name@, value@),
{
    if !contains_header(headers.as_slice(), name) {
        let ghost before = headers_view(headers@);
        headers.push((owned(name), value));
        proof {
            assert(headers_view(headers@) =~= before.push((name@, value@)));
        }
    }
}

/// Decorate a filter-synth response with the standard response headers,
/// using `date` for a missing `date:` row.
pub fn decorate_with_date(resp: &mut Response, connection: Option<&str>, date: String)
    ensures
        final(resp).status == old(resp).status,
        final(resp).reason == old(resp).reason,
        final(resp).body@ == old(resp).body@,
        final(resp).header_rows() == decorated_headers(
            old(resp).header_rows(),
            old(resp).body@.len(),
            date@,
            opt_str_view(connection),
        ),
{
    let ghost h = resp.header_rows();
    let cl_value = decimal_string(resp.body.len() as u128);
    let found = set_content_length_rows(&mut resp.headers, &cl_value);
    if found {
        assert(resp.header_rows() =~= set_content_lengths(h, resp.body@.len()));
    } else {
        resp.headers.push((owned(CONTENT_LENGTH), cl_value));
        proof {
            assert(h.map_values(
                |r: (Seq<char>, Seq<char>)| with_length_value(r, cl_value@),
            ) =~= h);
            assert(resp.header_rows() =~= h.push((CONTENT_LENGTH@, decimal_text(resp.body@.len()))));
        }
    }
    let has_content_type = contains_header(resp.headers.as_slice(), CONTENT_TYPE);
    if !has_content_type && resp.body.len() != 0 {
        let ghost before = resp.header_rows();
        resp.headers.push((owned(CONTENT_TYPE), owned(DEFAULT_CONTENT_TYPE)));
        proof {
            assert(resp.header_rows() =~= before.push((CONTENT_TYPE@, DEFAULT_CONTENT_TYPE@)));
        }
    }
    push_if_missing(&mut resp.headers, SERVER, owned(DEFAULT_SERVER_NAME));
    push_if_missing(&mut resp.headers, DATE, date);
    match connection {
        Some(c) => push_if_missing(&mut resp.headers, CONNECTION, owned(c)),
        None => {},
    }
}

/// Decorate a filter-synth response with the standard response headers
/// (`server`, `date`, `content-length`, `content-type`, and — when
/// `connection` is given — `connection`): `content-length` is always set
/// from the body length; `server`, `date`, `connection` are added only if
/// missing; `content-type` only if missing and the body is non-empty. The
/// `date` added is the current one.
pub fn decorate_filter_synth_response(resp: &mut Response, connection: Option<&str>)
    ensures
        final(resp).status == old(resp).status,
        final(resp).reason == old(resp).reason,
        final(resp).body@ == old(resp).body@,
        exists|date: Seq<char>|
            is_http_date(date) && final(resp).header_rows() == #[trigger] decorated_headers(
                old(resp).header_rows(),
                old(resp).body@.len(),
                date,
                opt_str_view(connection),
            ),
{
    let date = now_http_date();
    let ghost d = date@;
    decorate_with_date(resp, connection, date);
    proof {
        assert(is_http_date(d));
    }
}

} // verus!

verus! {

// ---------------------------------------------------------------------------
// Redirects.
// ---------------------------------------------------------------------------

/// The pure outcome of applying a `RedirectAction` to one request.
#[derive(Debug, PartialEq, Eq)]
pub struct RedirectPlan {
    /// The `location:` header value.
    pub location: String,
    /// The wire status.
    pub status: u16,
    /// `Some(new_path)` exactly when `prefix_rewrite` applied; the request's
    /// own query rides along on it.
    pub rewritten_path: Option<String>,
}

/// A request target split at its first `?` into path and query.
pub open spec fn split_query(target: Seq<u8>) -> (Seq<u8>, Option<Seq<u8>>) {
    match find_byte(target, 63u8) {
        Some(i) => (target.take(i), Some(target.skip(i + 1))),
        None => (target, None),
    }
}

/// `(a) Scheme`: `scheme_redirect` verbatim, else `https` when
/// `https_redirect` is `true`, else `http`.
pub open spec fn redirect_scheme(rd: RedirectAction) -> Seq<u8> {
    match rd.scheme_redirect {
        Some(s) => bytes_of(s@),
        None => if rd.https_redirect == Some(true) { bytes_of("https"@) } else { bytes_of("http"@) },
    }
}

/// `(b) Authority`: `host_redirect` replaces the request's authority (and
/// drops its port); unset, the request's authority is kept, port included.
/// `port_redirect` then replaces the port in both cases, verbatim.
pub open spec fn redirect_authority(authority: Seq<u8>, rd: RedirectAction) -> Seq<u8> {
    let host = match rd.host_redirect {
        Some(h) => bytes_of(h@),
        None => authority,
    };
    match rd.port_redirect {
        Some(p) => strip_port_bytes(host) + bytes_of(":"@) + decimal(p as nat),
        None => host,
    }
}

/// The path after byte `k` (`str::get(k..)`), empty when `k` is past the end
/// or not on a character boundary.
pub open spec fn path_tail(path: Seq<u8>, k: int) -> Seq<u8> {
    if is_char_boundary(path, k) { path.skip(k) } else { Seq::empty() }
}

/// A non-empty `path_redirect`, if any.
pub open spec fn effective_path_redirect(rd: RedirectAction) -> Option<Seq<u8>> {
    match rd.path_redirect {
        Some(p) => if p@.len() > 0 { Some(bytes_of(p@)) } else { None },
        None => None,
    }
}

/// `(c) Path`, the `prefix_rewrite` arm: the rewrite followed by the part of
/// the path after the matched span (the whole path when `matched_prefix` is
/// `None`).
pub open spec fn prefix_rewritten(path: Seq<u8>, matched_prefix: Option<Seq<u8>>, rd: RedirectAction) -> Option<Seq<u8>> {
    match effective_path_redirect(rd) {
        Some(_) => None,
        None => match rd.prefix_rewrite {
            Some(pr) => {
                let matched_len = match matched_prefix {
                    Some(m) => m.len() as int,
                    None => path.len() as int,
                };
                Some(bytes_of(pr@) + path_tail(path, matched_len))
            },
            None => None,
        },
    }
}

pub open spec fn query_suffix(query: Option<Seq<u8>>) -> Seq<u8> {
    match query {
        Some(q) => bytes_of("?"@) + q,
        None => Seq::empty(),
    }
}

/// The redirect `location`: scheme, `://`, authority, the new path, and the
/// request's query unless `strip_query`.
pub open spec fn redirect_location(
    authority: Seq<u8>,
    target: Seq<u8>,
    matched_prefix: Option<Seq<u8>>,
    rd: RedirectAction,
) -> Seq<u8> {
    let (path, query) = split_query(target);
    let new_path = match effective_path_redirect(rd) {
        Some(p) => p,
        None => match prefix_rewritten(path, matched_prefix, rd) {
            Some(r) => r,
            None => path,
        },
    };
    redirect_scheme(rd) + bytes_of("://"@) + redirect_authority(authority, rd) + new_path
        + if rd.strip_query { Seq::empty() } else { query_suffix(query) }
}

/// The request path after a `prefix_rewrite`, query included.
pub open spec fn redirect_rewritten_path(
    target: Seq<u8>,
    matched_prefix: Option<Seq<u8>>,
    rd: RedirectAction,
) -> Option<Seq<u8>> {
    let (path, query) = split_query(target);
    match prefix_rewritten(path, matched_prefix, rd) {
        Some(r) => Some(r + query_suffix(query)),
        None => None,
    }
}

pub open spec fn opt_str_bytes(s: Option<&str>) -> Option<Seq<u8>> {
    match s {
        Some(x) => Some(bytes_of(x@)),
        None => None,
    }
}

/// `target.split_once('?')`, or the whole target with no query.
fn split_target(target: &str) -> (r: (&str, Option<&str>))
    ensures
        (bytes_of(r.0@), opt_str_bytes(r.1)) == split_query(bytes_of(target@)),
{
    let tb = target.as_bytes();
    match find_byte_exec(tb, 63u8) {
        Some(i) => {
            proof {
                lemma_find_byte_bounds(tb@, 63u8);
            }
            let (p, rest) = split_at_ascii(target, i);
            assert(bytes_of(rest@)[0] == 63u8);
            let q = skip_ascii_byte(rest);
            proof {
                assert(bytes_of(target@).skip(i as int).skip(1) =~= bytes_of(target@).skip(i + 1));
            }
            (p, Some(q))
        },
        None => (target, None),
    }
}

/// Appends the redirect scheme and `://`.
fn push_redirect_scheme(location: &mut String, rd: &RedirectAction)
    ensures
        bytes_of(final(location)@) == bytes_of(old(location)@) + redirect_scheme(*rd) + bytes_of("://"@),
{
    match &rd.scheme_redirect {
        Some(s) => append_str(location, s.as_str()),
        None => {
            if rd.https_redirect == Some(true) {
                append_str(location, "https");
            } else {
                append_str(location, "http");
            }
        },
    }
    append_str(location, "://");
}

/// Appends the redirect authority.
fn push_redirect_authority(location: &mut String, authority: &str, rd: &RedirectAction)
    ensures
        bytes_of(final(location)@) == bytes_of(old(location)@) + redirect_authority(bytes_of(authority@), *rd),
{
    let host_part: &str = match &rd.host_redirect {
        Some(h) => h.as_str(),
        None => authority,
    };
    match rd.port_redirect {
        Some(port) => {
            append_str(location, strip_port(host_part));
            append_str(location, ":");
            let digits = decimal_string(port as u128);
            proof {
                lemma_decimal_text_bytes(port as nat);
            }
            append_str(location, digits.as_str());
        },
        None => append_str(location, host_part),
    }
}

/// The non-empty `path_redirect`, if any.
fn nonempty_path_redirect(rd: &RedirectAction) -> (r: Option<&str>)
    ensures
        opt_str_bytes(r) == effective_path_redirect(*rd),
{
    proof {
        if rd.path_redirect is Some {
            let p = rd.path_redirect->0;
            if p@.len() == 0 {
                assert(bytes_of(p@).len() == 0);
            } else {
                assert(bytes_of(p@).len() > 0) by {
                    reveal_with_fuel(vstd::utf8::encode_utf8, 1);
                }
            }
        }
    }
    match &rd.path_redirect {
        Some(p) => if p.as_str().as_bytes().len() != 0 { Some(p.as_str()) } else { None },
        None => None,
    }
}

/// `prefix_rewrite` followed by the path after the matched span.
fn rewrite_prefix(path: &str, matched_prefix: Option<&str>, prefix_rewrite: &str) -> (r: String)
    ensures
        bytes_of(r@) == bytes_of(prefix_rewrite@) + path_tail(
            bytes_of(path@),
            match matched_prefix {
                Some(m) => bytes_of(m@).len() as int,
                None => bytes_of(path@).len() as int,
            },
        ),
{
    let matched_len: usize = match matched_prefix {
        Some(m) => m.as_bytes().len(),
        None => path.as_bytes().len(),
    };
    let tail: &str = if path.is_char_boundary(matched_len) {
        path.split_at(matched_len).1
    } else {
        ""
    };
    proof {
        if !path.is_char_boundary(matched_len) {
            assert(bytes_of(""@) =~= Seq::<u8>::empty()) by {
                reveal_strlit("");
            }
        } else {
            assert(bytes_of(path@).subrange(matched_len as int, bytes_of(path@).len() as int)
                =~= bytes_of(path@).skip(matched_len as int));
        }
    }
    let mut rewritten = String::new();
    proof {
        assert(bytes_of(rewritten@) =~= Seq::<u8>::empty());
    }
    append_str(&mut rewritten, prefix_rewrite);
    append_str(&mut rewritten, tail);
    rewritten
}

/// Appends `?query` when there is a query.
fn push_query(s: &mut String, query: Option<&str>)
    ensures
        bytes_of(final(s)@) == bytes_of(old(s)@) + query_suffix(opt_str_bytes(query)),
{
    match query {
        Some(q) => {
            append_str(s, "?");
            append_str(s, q);
        },
        None => {
            assert(bytes_of(old(s)@) + Seq::<u8>::empty() =~= bytes_of(old(s)@));
        },
    }
}

/// Build the redirect plan. Pure and total: it never panics.
///
/// `authority` is the request's `Host:` header verbatim, `target` the raw
/// request target (query included), `matched_prefix` the matched route's
/// `match.prefix` (`None` when the route matched on the whole path).
pub fn plan_redirect(
    authority: &str,
    target: &str,
    matched_prefix: Option<&str>,
    rd: &RedirectAction,
) -> (r: RedirectPlan)
    ensures
        bytes_of(r.location@) == redirect_location(bytes_of(authority@), bytes_of(target@), opt_str_bytes(matched_prefix), *rd),
        r.status == rd.response_code.status_of(),
        match r.rewritten_path {
            Some(p) => redirect_rewritten_path(bytes_of(target@), opt_str_bytes(matched_prefix), *rd)
                == Some(bytes_of(p@)),
            None => redirect_rewritten_path(bytes_of(target@), opt_str_bytes(matched_prefix), *rd) is None,
        },
{
    let (path, query) = split_target(target);
    let mut location = String::new();
    proof {
        assert(bytes_of(location@) =~= Seq::<u8>::empty());
    }
    // (a) Scheme.
    push_redirect_scheme(&mut location, rd);
    // (b) Authority.
    push_redirect_authority(&mut location, authority, rd);
    // (c) Path.
    let mut rewritten_path: Option<String> = None;
    match nonempty_path_redirect(rd) {
        Some(p) => append_str(&mut location, p),
        None => match &rd.prefix_rewrite {
            Some(pr) => {
                let rewritten = rewrite_prefix(path, matched_prefix, pr.as_str());
                let mut with_query = rewritten.clone();
                push_query(&mut with_query, query);
                rewritten_path = Some(with_query);
                append_str(&mut location, rewritten.as_str());
            },
            None => append_str(&mut location, path),
        },
    }
    // (d) Query.
    if !rd.strip_query {
        push_query(&mut location, query);
    }
    proof {
        assert(bytes_of(location@) =~= redirect_location(bytes_of(authority@), bytes_of(target@), opt_str_bytes(matched_prefix), *rd));
    }
    // (e) Status.
    RedirectPlan { location, status: rd.response_code.status(), rewritten_path }
}

} // verus!

verus! {

// ---------------------------------------------------------------------------
// The downstream connection.
// ---------------------------------------------------------------------------

/// What a read of the downstream socket gave.
#[derive(Debug)]
pub enum ReadEvent {
    /// Some bytes were appended to the read buffer.
    Data,
    /// The peer closed its side (a read of nothing).
    Closed,
    /// The idle timer fired before any byte arrived.
    IdleTimeout,
    /// The read failed.
    Failed(std::io::Error),
}

/// What happened on a downstream connection since its last step.
#[derive(Debug)]
pub enum ConnEvent {
    /// The connection opened, or bytes may be waiting in the read buffer.
    Ready,
    /// A read of the socket finished.
    Read(ReadEvent),
    /// The response to the last request was written; `close` is its
    /// connection verdict.
    Responded { close: bool },
}

/// What the connection does next.
#[derive(Debug)]
pub enum ConnStep {
    /// A complete request head is at the front of the read buffer: handle
    /// this request.
    Handle(Request),
    /// Look at the read buffer again (pipelined bytes may already hold the
    /// next request).
    Parse,
    /// No complete request is buffered: read more, with the idle timer
    /// armed afresh.
    Read,
    /// End the connection: cleanly, or with this error.
    End(Result<(), Http1Error>),
}

/// The step for what the parser made of the buffer: handle a complete
/// request, read for an incomplete one, end with the parser's error.
pub open spec fn takes_parse_outcome(r: ConnStep, outcome: Result<Option<RequestView>, Http1Error>) -> bool {
    match outcome {
        Ok(Some(v)) => r matches ConnStep::Handle(req) && req@ == v,
        Ok(None) => r is Read,
        Err(e) => r == ConnStep::End(Err(e)),
    }
}

fn parse_step(buf: &[u8]) -> (r: ConnStep)
    ensures
        takes_parse_outcome(r, request_outcome(buf@.len(), httparse_request(buf@, MAX_HEADERS as nat))),
{
    let parsed = Http1Codec::parse_request(buf);
    let ghost outcome = request_outcome(buf@.len(), httparse_request(buf@, MAX_HEADERS as nat));
    assert(request_result_view(parsed) == outcome);
    match parsed {
        Ok(Some(req)) => {
            assert(outcome == Ok::<Option<RequestView>, Http1Error>(Some(req@)));
            ConnStep::Handle(req)
        },
        Ok(None) => ConnStep::Read,
        Err(e) => ConnStep::End(Err(e)),
    }
}

/// The per-connection loop's decision for `event`, given the read buffer
/// `buf`: with bytes possibly waiting, a complete request head is handled,
/// an incomplete one is read for, and a rejected one ends the connection
/// with the parser's error; new bytes send the loop back to the buffer; the
/// peer's close ends the connection (cleanly only with nothing buffered);
/// the idle timer ends it cleanly; a failed read ends it with the I/O error;
/// and after a response the connection ends cleanly when the verdict was
/// `close`, and otherwise goes back to the buffer for the next request.
pub fn connection_step(buf: &[u8], event: ConnEvent) -> (r: ConnStep)
    ensures
        event is Ready ==> takes_parse_outcome(
            r,
            request_outcome(buf@.len(), httparse_request(buf@, MAX_HEADERS as nat)),
        ),
        event matches ConnEvent::Read(ReadEvent::Data) ==> r is Parse,
        event matches ConnEvent::Read(ReadEvent::Closed) ==> r == ConnStep::End(
            if buf@.len() == 0 { Ok(()) } else { Err(Http1Error::UnexpectedEof) },
        ),
        event matches ConnEvent::Read(ReadEvent::IdleTimeout) ==> r == ConnStep::End(Ok(())),
        event matches ConnEvent::Read(ReadEvent::Failed(source)) ==> r == ConnStep::End(
            Err(Http1Error::Io { source }),
        ),
        event matches ConnEvent::Responded { close } ==> r == if close {
            ConnStep::End(Ok(()))
        } else {
            ConnStep::Parse
        },
{
    match event {
        ConnEvent::Ready => parse_step(buf),
        ConnEvent::Read(ReadEvent::Data) => ConnStep::Parse,
        ConnEvent::Read(ReadEvent::Closed) => ConnStep::End(peer_closed(buf.len())),
        ConnEvent::Read(ReadEvent::IdleTimeout) => ConnStep::End(Ok(())),
        ConnEvent::Read(ReadEvent::Failed(source)) => ConnStep::End(Err(Http1Error::Io { source })),
        ConnEvent::Responded { close } => if close {
            ConnStep::End(Ok(()))
        } else {
            ConnStep::Parse
        },
    }
}

/// The verdict when the downstream peer closes while no complete request is
/// buffered: a clean end of the connection with nothing buffered, an
/// unexpected end of stream mid-request.
pub fn peer_closed(buffered: usize) -> (r: Result<(), Http1Error>)
    ensures
        r == if buffered == 0 { Ok(()) } else { Err(Http1Error::UnexpectedEof) },
{
    if buffered == 0 {
        Ok(())
    } else {
        Err(Http1Error::UnexpectedEof)
    }
}

/// How a `Content-Length` request body of `body_len` bytes is taken when
/// `buffered` bytes follow the head in the read buffer: the first part from
/// the buffer, the rest (exactly) from the socket.
pub fn body_split(buffered: usize, body_len: usize) -> (r: (usize, usize))
    ensures
        r.0 == if buffered < body_len { buffered } else { body_len },
        r.0 + r.1 == body_len,
{
    let from_buf = if buffered < body_len { buffered } else { body_len };
    (from_buf, body_len - from_buf)
}

/// The body bytes still owed after a socket read of `n` bytes (a read is
/// capped at what is owed): a read of nothing means the peer closed
/// mid-body.
pub fn body_read(remaining: usize, n: usize) -> (r: Result<usize, Http1Error>)
    requires
        n <= remaining,
    ensures
        n == 0 ==> r matches Err(Http1Error::UnexpectedEof),
        n > 0 ==> r == Ok::<usize, Http1Error>((remaining - n) as usize),
{
    if n == 0 {
        Err(Http1Error::UnexpectedEof)
    } else {
        Ok(remaining - n)
    }
}

} // verus!

verus! {

// ---------------------------------------------------------------------------
// Decoration is idempotent.
// ---------------------------------------------------------------------------

proof fn lemma_has_own_name(h: Seq<(Seq<char>, Seq<char>)>, row: (Seq<char>, Seq<char>))
    ensures
        has_header(h.push(row), row.0),
{
    assert(h.push(row)[h.len() as int] == row);
    assert(name_matches(row.0, row.0));
}

proof fn lemma_add_if_missing_has(h: Seq<(Seq<char>, Seq<char>)>, name: Seq<char>, value: Seq<char>)
    ensures
        has_header(add_if_missing(h, name, value), name),
        h.is_prefix_of(add_if_missing(h, name, value)),
{
    if !has_header(h, name) {
        lemma_has_own_name(h, (name, value));
    }
}

proof fn lemma_has_header_prefix(h: Seq<(Seq<char>, Seq<char>)>, g: Seq<(Seq<char>, Seq<char>)>, name: Seq<char>)
    requires
        h.is_prefix_of(g),
        has_header(h, name),
    ensures
        has_header(g, name),
{
    let i = choose|i: int| 0 <= i < h.len() && name_matches(#[trigger] h[i].0, name);
    assert(g.subrange(0, h.len() as int)[i] == g[i]);
}

proof fn lemma_prefix_trans(a: Seq<(Seq<char>, Seq<char>)>, b: Seq<(Seq<char>, Seq<char>)>, c: Seq<(Seq<char>, Seq<char>)>)
    requires
        a.is_prefix_of(b),
        b.is_prefix_of(c),
    ensures
        a.is_prefix_of(c),
{
    assert forall|i: int| 0 <= i < a.len() implies #[trigger] c.subrange(0, a.len() as int)[i] == a[i] by {
        assert(b.subrange(0, a.len() as int)[i] == b[i]);
        assert(c.subrange(0, b.len() as int)[i] == c[i]);
    }
    assert(c.subrange(0, a.len() as int) =~= a);
}

/// Whether `g` keeps `h` as its first rows and appends only rows whose
/// names `h` lacks (ASCII case-insensitive).
spec fn adds_only_new_names(h: Seq<(Seq<char>, Seq<char>)>, g: Seq<(Seq<char>, Seq<char>)>) -> bool {
    &&& h.is_prefix_of(g)
    &&& forall|i: int| h.len() <= i < g.len() ==> !has_header(h, #[trigger] g[i].0)
}

proof fn lemma_name_matches_trans(a: Seq<char>, b: Seq<char>, c: Seq<char>)
    requires
        name_matches(a, c),
        name_matches(b, c),
    ensures
        name_matches(a, b),
{
    let (x, y, z) = (bytes_of(a), bytes_of(b), bytes_of(c));
    assert forall|i: int| 0 <= i < x.len() implies ascii_lower(#[trigger] x[i]) == ascii_lower(y[i]) by {
        assert(ascii_lower(x[i]) == ascii_lower(z[i]));
        assert(ascii_lower(y[i]) == ascii_lower(z[i]));
    }
}

proof fn lemma_adds_refl(h: Seq<(Seq<char>, Seq<char>)>)
    ensures
        adds_only_new_names(h, h),
{
    assert(h.subrange(0, h.len() as int) =~= h);
}

proof fn lemma_adds_push(h: Seq<(Seq<char>, Seq<char>)>, g: Seq<(Seq<char>, Seq<char>)>, row: (Seq<char>, Seq<char>))
    requires
        adds_only_new_names(h, g),
        !has_header(g, row.0),
    ensures
        adds_only_new_names(h, g.push(row)),
{
    let g2 = g.push(row);
    assert forall|i: int| 0 <= i < h.len() implies #[trigger] g2.subrange(0, h.len() as int)[i] == h[i] by {
        assert(g.subrange(0, h.len() as int)[i] == h[i]);
        assert(g2[i] == g[i]);
    }
    assert(g2.subrange(0, h.len() as int) =~= h);
    if has_header(h, row.0) {
        lemma_has_header_prefix(h, g, row.0);
    }
    assert forall|i: int| h.len() <= i < g2.len() implies !has_header(h, #[trigger] g2[i].0) by {
        if i < g.len() {
            assert(g2[i] == g[i]);
        }
    }
}

proof fn lemma_adds_trans(a: Seq<(Seq<char>, Seq<char>)>, b: Seq<(Seq<char>, Seq<char>)>, c: Seq<(Seq<char>, Seq<char>)>)
    requires
        adds_only_new_names(a, b),
        adds_only_new_names(b, c),
    ensures
        adds_only_new_names(a, c),
{
    lemma_prefix_trans(a, b, c);
    assert forall|i: int| a.len() <= i < c.len() implies !has_header(a, #[trigger] c[i].0) by {
        if i < b.len() {
            assert(c.subrange(0, b.len() as int)[i] == c[i]);
            assert(b[i] == c[i]);
        } else if has_header(a, c[i].0) {
            lemma_has_header_prefix(a, b, c[i].0);
        }
    }
}

proof fn lemma_add_if_missing_adds(h: Seq<(Seq<char>, Seq<char>)>, g: Seq<(Seq<char>, Seq<char>)>, name: Seq<char>, value: Seq<char>)
    requires
        adds_only_new_names(h, g),
    ensures
        adds_only_new_names(h, add_if_missing(g, name, value)),
        has_header(add_if_missing(g, name, value), name),
{
    lemma_add_if_missing_has(g, name, value);
    if !has_header(g, name) {
        lemma_adds_push(h, g, (name, value));
    }
}

/// Setting the `content-length` values keeps every name, so the same names
/// are present; with no such row nothing changes; afterwards every such row
/// carries the body length.
proof fn lemma_set_lengths(h: Seq<(Seq<char>, Seq<char>)>, body_len: nat)
    ensures
        set_content_lengths(h, body_len).len() == h.len(),
        forall|j: int| 0 <= j < h.len() ==> #[trigger] set_content_lengths(h, body_len)[j].0 == h[j].0,
        forall|n: Seq<char>| #[trigger] has_header(set_content_lengths(h, body_len), n) == has_header(h, n),
        !has_header(h, CONTENT_LENGTH@) ==> set_content_lengths(h, body_len) == h,
        forall|j: int|
            0 <= j < h.len() && name_matches(#[trigger] set_content_lengths(h, body_len)[j].0, CONTENT_LENGTH@)
                ==> set_content_lengths(h, body_len)[j].1 == decimal_text(body_len),
{
    let h0 = set_content_lengths(h, body_len);
    assert forall|n: Seq<char>| #[trigger] has_header(h0, n) == has_header(h, n) by {
        if has_header(h, n) {
            let i = choose|i: int| 0 <= i < h.len() && name_matches(#[trigger] h[i].0, n);
            assert(h0[i].0 == h[i].0);
        }
        if has_header(h0, n) {
            let i = choose|i: int| 0 <= i < h0.len() && name_matches(#[trigger] h0[i].0, n);
            assert(h0[i].0 == h[i].0);
        }
    }
    if !has_header(h, CONTENT_LENGTH@) {
        assert forall|j: int| 0 <= j < h.len() implies #[trigger] h0[j] == h[j] by {
            assert(!name_matches(h[j].0, CONTENT_LENGTH@));
        }
        assert(h0 =~= h);
    }
}

/// Step one: the rows set in place stay first, a row is appended only when
/// no `content-length` row was there, and afterwards there is one and every
/// such row carries the body length.
proof fn lemma_length_step(h: Seq<(Seq<char>, Seq<char>)>, body_len: nat)
    ensures
        adds_only_new_names(set_content_lengths(h, body_len), with_content_length(h, body_len)),
        has_header(with_content_length(h, body_len), CONTENT_LENGTH@),
        forall|j: int|
            0 <= j < with_content_length(h, body_len).len() && name_matches(
                #[trigger] with_content_length(h, body_len)[j].0,
                CONTENT_LENGTH@,
            ) ==> with_content_length(h, body_len)[j].1 == decimal_text(body_len),
{
    let h0 = set_content_lengths(h, body_len);
    lemma_set_lengths(h, body_len);
    if has_header(h, CONTENT_LENGTH@) {
        lemma_adds_refl(h0);
        assert(has_header(h0, CONTENT_LENGTH@));
    } else {
        let row = (CONTENT_LENGTH@, decimal_text(body_len));
        lemma_adds_refl(h);
        lemma_adds_push(h, h, row);
        lemma_has_own_name(h, row);
        assert forall|j: int| 0 <= j < h.len() + 1 && name_matches(#[trigger] h.push(row)[j].0, CONTENT_LENGTH@)
            implies h.push(row)[j].1 == decimal_text(body_len) by {
            if j < h.len() {
                assert(h.push(row)[j] == h[j]);
                assert(has_header(h, CONTENT_LENGTH@));
            }
        }
    }
}

/// Step two appends only rows whose names were missing, and leaves every
/// default row present.
proof fn lemma_defaults_added(h1: Seq<(Seq<char>, Seq<char>)>, body_len: nat, date: Seq<char>, connection: Option<Seq<char>>)
    ensures
        adds_only_new_names(h1, with_defaults(h1, body_len, date, connection)),
        body_len > 0 ==> has_header(with_defaults(h1, body_len, date, connection), CONTENT_TYPE@),
        has_header(with_defaults(h1, body_len, date, connection), SERVER@),
        has_header(with_defaults(h1, body_len, date, connection), DATE@),
        connection is Some ==> has_header(with_defaults(h1, body_len, date, connection), CONNECTION@),
{
    lemma_adds_refl(h1);
    let h2 = if !has_header(h1, CONTENT_TYPE@) && body_len > 0 {
        let row = (CONTENT_TYPE@, DEFAULT_CONTENT_TYPE@);
        lemma_adds_push(h1, h1, row);
        lemma_has_own_name(h1, row);
        h1.push(row)
    } else {
        h1
    };
    let h3 = add_if_missing(h2, SERVER@, DEFAULT_SERVER_NAME@);
    lemma_add_if_missing_adds(h1, h2, SERVER@, DEFAULT_SERVER_NAME@);
    let h4 = add_if_missing(h3, DATE@, date);
    lemma_add_if_missing_adds(h1, h3, DATE@, date);
    let g = with_defaults(h1, body_len, date, connection);
    match connection {
        Some(c) => {
            lemma_add_if_missing_adds(h1, h4, CONNECTION@, c);
        },
        None => {},
    }
    lemma_adds_trans(h2, h3, h4);
    lemma_add_if_missing_has(h3, DATE@, date);
    if body_len > 0 {
        lemma_has_header_prefix(h2, h3, CONTENT_TYPE@);
        lemma_has_header_prefix(h3, h4, CONTENT_TYPE@);
    }
    lemma_add_if_missing_has(h2, SERVER@, DEFAULT_SERVER_NAME@);
    lemma_has_header_prefix(h3, h4, SERVER@);
    if connection is Some {
        lemma_add_if_missing_has(h4, CONNECTION@, connection->0);
        assert(h4.is_prefix_of(g));
        if body_len > 0 {
            lemma_has_header_prefix(h4, g, CONTENT_TYPE@);
        }
        lemma_has_header_prefix(h4, g, SERVER@);
        lemma_has_header_prefix(h4, g, DATE@);
    }
}

/// Step two adds nothing to rows that already have every default.
proof fn lemma_defaults_present(g: Seq<(Seq<char>, Seq<char>)>, body_len: nat, date: Seq<char>, connection: Option<Seq<char>>)
    requires
        body_len > 0 ==> has_header(g, CONTENT_TYPE@),
        has_header(g, SERVER@),
        has_header(g, DATE@),
        connection is Some ==> has_header(g, CONNECTION@),
    ensures
        with_defaults(g, body_len, date, connection) == g,
{
}

/// What decoration does to the rows of a filter-synthesized reply: the
/// reply's own rows stay first, in order, with only their `content-length`
/// values changed; every row after them has a name the reply lacked; and
/// there is a `content-length` row, every one of which carries the body
/// length, whatever value a filter had put there.
pub proof fn law_decorated_rows(
    h: Seq<(Seq<char>, Seq<char>)>,
    body_len: nat,
    date: Seq<char>,
    connection: Option<Seq<char>>,
)
    ensures
        set_content_lengths(h, body_len).is_prefix_of(decorated_headers(h, body_len, date, connection)),
        forall|i: int|
            h.len() <= i < decorated_headers(h, body_len, date, connection).len() ==> !has_header(
                h,
                #[trigger] decorated_headers(h, body_len, date, connection)[i].0,
            ),
        has_header(decorated_headers(h, body_len, date, connection), CONTENT_LENGTH@),
        forall|i: int|
            0 <= i < decorated_headers(h, body_len, date, connection).len() && name_matches(
                #[trigger] decorated_headers(h, body_len, date, connection)[i].0,
                CONTENT_LENGTH@,
            ) ==> decorated_headers(h, body_len, date, connection)[i].1 == decimal_text(body_len),
{
    let h0 = set_content_lengths(h, body_len);
    let h1 = with_content_length(h, body_len);
    let g = decorated_headers(h, body_len, date, connection);
    lemma_set_lengths(h, body_len);
    lemma_length_step(h, body_len);
    lemma_defaults_added(h1, body_len, date, connection);
    lemma_adds_trans(h0, h1, g);
    lemma_has_header_prefix(h1, g, CONTENT_LENGTH@);
    assert forall|i: int| h.len() <= i < g.len() implies !has_header(h, #[trigger] g[i].0) by {
        assert(has_header(h0, g[i].0) == has_header(h, g[i].0));
    }
    assert forall|i: int| 0 <= i < g.len() && name_matches(#[trigger] g[i].0, CONTENT_LENGTH@)
        implies g[i].1 == decimal_text(body_len) by {
        if i < h1.len() {
            assert(g.subrange(0, h1.len() as int)[i] == g[i]);
            assert(h1[i] == g[i]);
        } else {
            let k = choose|k: int| 0 <= k < h1.len() && name_matches(#[trigger] h1[k].0, CONTENT_LENGTH@);
            lemma_name_matches_trans(h1[k].0, g[i].0, CONTENT_LENGTH@);
            assert(!has_header(h1, g[i].0));
        }
    }
}

/// Decorating a filter-synthesized reply twice is the same as decorating it
/// once: the second pass finds `content-length` already right and every
/// other standard row already present (whatever date it would add).
pub proof fn law_decoration_is_idempotent(
    h: Seq<(Seq<char>, Seq<char>)>,
    body_len: nat,
    date: Seq<char>,
    later_date: Seq<char>,
    connection: Option<Seq<char>>,
)
    ensures
        decorated_headers(decorated_headers(h, body_len, date, connection), body_len, later_date, connection)
            == decorated_headers(h, body_len, date, connection),
{
    let h1 = with_content_length(h, body_len);
    let g = decorated_headers(h, body_len, date, connection);
    law_decorated_rows(h, body_len, date, connection);
    lemma_defaults_added(h1, body_len, date, connection);
    assert forall|j: int| 0 <= j < g.len() implies #[trigger] set_content_lengths(g, body_len)[j] == g[j] by {
        if name_matches(g[j].0, CONTENT_LENGTH@) {
            assert(g[j].1 == decimal_text(body_len));
        }
    }
    assert(set_content_lengths(g, body_len) =~= g);
    assert(with_content_length(g, body_len) == g);
    lemma_defaults_present(g, body_len, later_date, connection);
}

} // verus!

verus! {

/// An empty `path_redirect` performs no rewrite: the redirect is planned
/// exactly as if it were unset.
pub proof fn law_empty_path_redirect_is_unset(
    authority: Seq<u8>,
    target: Seq<u8>,
    matched_prefix: Option<Seq<u8>>,
    rd: RedirectAction,
    unset: RedirectAction,
)
    requires
        rd.path_redirect matches Some(p) && p@.len() == 0,
        unset == (RedirectAction { path_redirect: None, ..rd }),
    ensures
        redirect_location(authority, target, matched_prefix, rd) == redirect_location(
            authority,
            target,
            matched_prefix,
            unset,
        ),
        redirect_rewritten_path(target, matched_prefix, rd) == redirect_rewritten_path(target, matched_prefix, unset),
{
    assert(effective_path_redirect(rd) == effective_path_redirect(unset));
}

} // verus!

verus! {

/// The `Content-Length` verdict does not depend on the order of the rows:
/// any reordering of the same rows is accepted or rejected alike and frames
/// the same length (a conflict is caught whichever value comes first).
pub proof fn law_content_length_ignores_row_order(h: Seq<(Seq<char>, Seq<char>)>, g: Seq<(Seq<char>, Seq<char>)>)
    requires
        h.to_multiset() == g.to_multiset(),
    ensures
        content_lengths_agree(h) == content_lengths_agree(g),
        forall|v: nat| content_lengths_are(h, v) == content_lengths_are(g, v),
        has_header(h, CONTENT_LENGTH@) == has_header(g, CONTENT_LENGTH@),
{
    h.to_multiset_ensures();
    g.to_multiset_ensures();
    assert forall|x: (Seq<char>, Seq<char>)| h.contains(x) <==> g.contains(x) by {
        assert(h.contains(x) <==> h.to_multiset().count(x) > 0);
        assert(g.contains(x) <==> g.to_multiset().count(x) > 0);
    }
    assert forall|v: nat| content_lengths_are(h, v) implies content_lengths_are(g, v) by {
        assert forall|i: int| 0 <= i < g.len() && name_matches(#[trigger] g[i].0, CONTENT_LENGTH@) implies content_length_value(
            g[i].1,
        ) == Some(v) by {
            assert(g.contains(g[i]));
            let j = choose|j: int| 0 <= j < h.len() && h[j] == g[i];
            assert(name_matches(h[j].0, CONTENT_LENGTH@));
        }
    }
    assert forall|v: nat| content_lengths_are(g, v) implies content_lengths_are(h, v) by {
        assert forall|i: int| 0 <= i < h.len() && name_matches(#[trigger] h[i].0, CONTENT_LENGTH@) implies content_length_value(
            h[i].1,
        ) == Some(v) by {
            assert(h.contains(h[i]));
            let j = choose|j: int| 0 <= j < g.len() && g[j] == h[i];
            assert(name_matches(g[j].0, CONTENT_LENGTH@));
        }
    }
    if content_lengths_agree(h) {
        let v = choose|v: nat| #[trigger] content_lengths_are(h, v);
        assert(content_lengths_are(g, v));
    }
    if content_lengths_agree(g) {
        let v = choose|v: nat| #[trigger] content_lengths_are(g, v);
        assert(content_lengths_are(h, v));
    }
    if has_header(h, CONTENT_LENGTH@) {
        let i = choose|i: int| 0 <= i < h.len() && name_matches(#[trigger] h[i].0, CONTENT_LENGTH@);
        assert(h.contains(h[i]));
        let j = choose|j: int| 0 <= j < g.len() && g[j] == h[i];
        assert(name_matches(g[j].0, CONTENT_LENGTH@));
    }
    if has_header(g, CONTENT_LENGTH@) {
        let i = choose|i: int| 0 <= i < g.len() && name_matches(#[trigger] g[i].0, CONTENT_LENGTH@);
        assert(g.contains(g[i]));
        let j = choose|j: int| 0 <= j < h.len() && h[j] == g[i];
        assert(name_matches(h[j].0, CONTENT_LENGTH@));
    }
}

} // verus!

verus! {

/// The framing decisions taken for a parsed request before anything else:
/// whether the connection closes after the response, the body length, and
/// whether the body is chunked (which is answered 501).
#[derive(Debug, Clone, Copy, PartialEq, Eq, Structural)]
pub struct RequestFraming {
    pub close: bool,
    pub body_len: usize,
    pub chunked: bool,
}

/// The framing of `req`, or `MalformedHeader` when its `Content-Length`
/// rows do not agree on one valid length (the connection is then dropped
/// without a response).
pub fn request_framing(req: &Request) -> (r: Result<RequestFraming, Http1Error>)
    ensures
        r is Ok <==> content_lengths_agree(req@.headers),
        r matches Err(e) ==> e is MalformedHeader,
        r matches Ok(f) ==> {
            &&& f.close == wants_close(req@)
            &&& content_lengths_are(req@.headers, f.body_len as nat)
            &&& !has_header(req@.headers, CONTENT_LENGTH@) ==> f.body_len == 0
            &&& f.chunked == has_chunked_row(req@.headers)
        },
{
    let close = request_wants_close(req);
    let body_len = match parse_content_length(req.headers.as_slice()) {
        Ok(n) => n,
        Err(e) => return Err(e),
    };
    let chunked = has_chunked_transfer_encoding(req.headers.as_slice());
    Ok(RequestFraming { close, body_len, chunked })
}

} // verus!

verus! {

/// `strip_query` drops the request's query from the redirect location, and
/// nothing else: the stripped location followed by `?query` (when the
/// target has one) is the location without stripping.
pub proof fn law_strip_query_drops_only_the_query(
    authority: Seq<u8>,
    target: Seq<u8>,
    matched_prefix: Option<Seq<u8>>,
    rd: RedirectAction,
    kept: RedirectAction,
)
    requires
        rd.strip_query,
        kept == (RedirectAction { strip_query: false, ..rd }),
    ensures
        redirect_location(authority, target, matched_prefix, rd) + query_suffix(split_query(target).1)
            == redirect_location(authority, target, matched_prefix, kept),
{
    assert(redirect_location(authority, target, matched_prefix, rd) + Seq::<u8>::empty() =~= redirect_location(
        authority,
        target,
        matched_prefix,
        rd,
    ));
}

} // verus!
