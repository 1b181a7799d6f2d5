//! Plaintext HTTP/1.1 upstream client: the request wire format, the
//! response head and body framing, and the proxied-response head
//! serializer. The socket work itself is driven from outside; every
//! decision about the bytes is made here.

use crate::codec::{
    parse_status, raw_headers_view, ParseErrorKind, ParseStatus, Request, RequestView,
};
use crate::error::Http1Error;
use crate::headers::{
    contains_header, find_header, has_header, headers_view, lookup, name_matches, CONNECTION,
    CONTENT_LENGTH, DATE, HOST, SERVER, TRANSFER_ENCODING,
};
use crate::date::{coarse_monotonic_ms, imf_fixdate, now_imf_fixdate, reading_secs};
use crate::hcm::is_http_date;
use crate::response::{canonical_reason, canonical_reason_of, Response};
use crate::text::{
    bytes_of, decimal, eq_ignore_ascii_case, lowercase_bytes, parse_unsigned, push_decimal, push_lowercase, push_slice,
    push_str, str_eq_ignore_ascii_case, unsigned_parse, utf8_str, chars_of, trim_span, trim,
    parse_hex_usize, hex_usize_parse, hex_digits_value,
};
use vstd::utf8::{decode_utf8, valid_utf8};
use vstd::prelude::*;

verus! {

/// Cap on the bytes buffered while a response head is incomplete.
pub const RESPONSE_HEADERS_CAP: usize = 8192;

/// Number of header slots offered to the response-head parser.
pub const RESPONSE_MAX_HEADERS: usize = 64;

/// Per-connection plaintext HTTP/1.1 client. Stateless; the per-stream
/// state lives with whoever owns the socket.
pub struct Client;

// ---------------------------------------------------------------------------
// CRLF search.
// ---------------------------------------------------------------------------

/// Whether `s[i..i + 2]` is `\r\n`.
pub open spec fn crlf_at(s: Seq<u8>, i: int) -> bool {
    0 <= i && i + 1 < s.len() && s[i] == 13u8 && s[i + 1] == 10u8
}

/// `i` is the position of the first `\r\n` in `s`.
pub open spec fn is_first_crlf(s: Seq<u8>, i: int) -> bool {
    crlf_at(s, i) && forall|j: int| 0 <= j < i ==> !#[trigger] crlf_at(s, j)
}

/// The position of the first `\r\n` in `s`, if any.
pub open spec fn first_crlf(s: Seq<u8>) -> Option<int> {
    if exists|i: int| is_first_crlf(s, i) {
        Some(choose|i: int| is_first_crlf(s, i))
    } else {
        None
    }
}

proof fn lemma_first_crlf_exists(s: Seq<u8>, i: int)
    requires
        crlf_at(s, i),
    ensures
        exists|k: int| #[trigger] is_first_crlf(s, k),
    decreases i,
{
    if exists|j: int| 0 <= j < i && #[trigger] crlf_at(s, j) {
        let j = choose|j: int| 0 <= j < i && #[trigger] crlf_at(s, j);
        lemma_first_crlf_exists(s, j);
    } else {
        assert(is_first_crlf(s, i));
    }
}

/// `first_crlf` names the first `\r\n`, and is `None` exactly when there is
/// none.
pub proof fn lemma_first_crlf(s: Seq<u8>)
    ensures
        first_crlf(s) matches Some(i) ==> is_first_crlf(s, i),
        first_crlf(s) is None <==> forall|j: int| !#[trigger] crlf_at(s, j),
        forall|i: int| #[trigger] is_first_crlf(s, i) ==> first_crlf(s) == Some(i),
{
    assert forall|i: int| #[trigger] is_first_crlf(s, i) implies first_crlf(s) == Some(i) by {
        let k = choose|k: int| is_first_crlf(s, k);
        if k < i {
            assert(crlf_at(s, k));
        } else if i < k {
            assert(crlf_at(s, i));
        }
    }
    if exists|j: int| #[trigger] crlf_at(s, j) {
        let j = choose|j: int| #[trigger] crlf_at(s, j);
        lemma_first_crlf_exists(s, j);
    }
}

/// The offset of the first `\r\n` in `buf`.
pub fn find_crlf(buf: &[u8]) -> (r: Option<usize>)
    ensures
        match r {
            Some(i) => first_crlf(buf@) == Some(i as int) && is_first_crlf(buf@, i as int),
            None => first_crlf(buf@) is None,
        },
{
    proof {
        lemma_first_crlf(buf@);
    }
    let mut i: usize = 0;
    while buf.len() - i >= 2
        invariant
            i <= buf@.len(),
            forall|j: int| 0 <= j < i ==> !#[trigger] crlf_at(buf@, j),
        decreases buf@.len() - i,
    {
        if buf[i] == 13u8 && buf[i + 1] == 10u8 {
            assert(is_first_crlf(buf@, i as int));
            return Some(i);
        }
        i += 1;
    }
    assert forall|j: int| !#[trigger] crlf_at(buf@, j) by {
        if 0 <= j && j >= i {
            assert(j + 1 >= buf@.len());
        }
    }
    None
}

// ---------------------------------------------------------------------------
// The request wire.
// ---------------------------------------------------------------------------

/// Whether the header `name` is dropped when hop-by-hop headers are
/// stripped.
pub open spec fn is_hop_header(name: Seq<char>) -> bool {
    name_matches(name, CONNECTION@) || name_matches(name, TRANSFER_ENCODING@)
}

/// One header line on the wire: the name lowercased, `: `, the value, CRLF.
pub open spec fn header_line(name: Seq<char>, value: Seq<char>) -> Seq<u8> {
    lowercase_bytes(bytes_of(name)) + bytes_of(": "@) + bytes_of(value) + bytes_of("\r\n"@)
}

/// The header lines of `headers`, in order, skipping the hop-by-hop ones
/// when `strip` is set.
pub open spec fn header_lines(headers: Seq<(Seq<char>, Seq<char>)>, strip: bool) -> Seq<u8>
    decreases headers.len(),
{
    if headers.len() == 0 {
        Seq::empty()
    } else {
        let last = headers.last();
        header_lines(headers.drop_last(), strip) + if strip && is_hop_header(last.0) {
            Seq::empty()
        } else {
            header_line(last.0, last.1)
        }
    }
}

/// The `host:` line injected from the connect-time host unless the request
/// carries its own `Host` (in any case).
pub open spec fn host_line(host: Seq<char>, req: RequestView) -> Seq<u8> {
    if has_header(req.headers, HOST@) {
        Seq::empty()
    } else {
        bytes_of("host: "@) + bytes_of(host) + bytes_of("\r\n"@)
    }
}

/// The synthetic `content-length:` line: only for a non-empty body whose
/// request carries no `Content-Length` of its own.
pub open spec fn content_length_line(req: RequestView) -> Seq<u8> {
    if !has_header(req.headers, CONTENT_LENGTH@) && req.body_len() > 0 {
        bytes_of("content-length: "@) + decimal(req.body_len()) + bytes_of("\r\n"@)
    } else {
        Seq::empty()
    }
}

pub open spec fn body_view(req: RequestView) -> Seq<u8> {
    match req.body {
        Some(b) => b,
        None => Seq::empty(),
    }
}

/// The full request on the wire: request line, headers, blank line, body.
pub open spec fn request_wire(host: Seq<char>, req: RequestView, strip_hop_headers: bool) -> Seq<u8> {
    bytes_of(req.method) + bytes_of(" "@) + bytes_of(req.path) + bytes_of(" HTTP/1.1\r\n"@)
        + host_line(host, req) + header_lines(req.headers, strip_hop_headers)
        + content_length_line(req) + bytes_of("\r\n"@) + body_view(req)
}

fn push_header_lines(wire: &mut Vec<u8>, headers: &[(String, String)], strip_hop_headers: bool)
    ensures
        final(wire)@ == old(wire)@ + header_lines(headers_view(headers@), strip_hop_headers),
{
    let ghost before = wire@;
    let ghost view = headers_view(headers@);
    let mut i: usize = 0;
    while i < headers.len()
        invariant
            0 <= i <= headers@.len(),
            view == headers_view(headers@),
            wire@ == before + header_lines(view.take(i as int), strip_hop_headers),
        decreases headers@.len() - i,
    {
        let name = headers[i].0.as_str();
        let value = headers[i].1.as_str();
        proof {
            assert(view.take(i + 1).drop_last() =~= view.take(i as int));
            assert(view.take(i + 1).last() == (name@, value@));
        }
        let skip = strip_hop_headers && (str_eq_ignore_ascii_case(name, CONNECTION)
            || str_eq_ignore_ascii_case(name, TRANSFER_ENCODING));
        if !skip {
            push_lowercase(wire, name.as_bytes());
            push_str(wire, ": ");
            push_str(wire, value);
            push_str(wire, "\r\n");
            proof {
                assert(wire@ =~= before + header_lines(view.take(i + 1), strip_hop_headers));
            }
        } else {
            proof {
                assert(wire@ =~= before + header_lines(view.take(i + 1), strip_hop_headers));
            }
        }
        i += 1;
    }
    proof {
        assert(view.take(headers@.len() as int) =~= view);
    }
}

/// Serialize `request` into `wire` (cleared first): request line, the
/// `host:` header from `host` unless the request carries a `Host` (any
/// case), the request's headers in order with names lowercased (minus
/// `Connection`/`Transfer-Encoding` when `strip_hop_headers`), a synthetic
/// `content-length:` for a non-empty body without one, a blank line, and
/// the body.
pub fn build_request_wire(wire: &mut Vec<u8>, host: &str, request: &Request, strip_hop_headers: bool)
    ensures
        final(wire)@ == request_wire(host@, request@, strip_hop_headers),
{
    wire.clear();
    push_str(wire, request.method.as_str());
    push_str(wire, " ");
    push_str(wire, request.path.as_str());
    push_str(wire, " HTTP/1.1\r\n");
    let ghost line = wire@;
    if !contains_header(request.headers.as_slice(), HOST) {
        push_str(wire, "host: ");
        push_str(wire, host);
        push_str(wire, "\r\n");
    }
    let ghost with_host = wire@;
    assert(with_host =~= line + host_line(host@, request@));
    push_header_lines(wire, request.headers.as_slice(), strip_hop_headers);
    let ghost with_headers = wire@;
    let has_cl = contains_header(request.headers.as_slice(), CONTENT_LENGTH);
    let body_len = request.body_len_estimate();
    if !has_cl && body_len > 0 {
        push_str(wire, "content-length: ");
        push_decimal(wire, body_len as u128);
        push_str(wire, "\r\n");
    }
    assert(wire@ =~= with_headers + content_length_line(request@));
    push_str(wire, "\r\n");
    let ghost before_body = wire@;
    match request.body_bytes() {
        Some(body) => push_slice(wire, body),
        None => {},
    }
    assert(wire@ =~= before_body + body_view(request@));
    assert(wire@ =~= request_wire(host@, request@, strip_hop_headers));
}

// ---------------------------------------------------------------------------
// The response head.
// ---------------------------------------------------------------------------

/// A response head as the parser left it: the status, the status code it
/// reached, and the header rows (name, raw value bytes).
pub struct ParsedResponseHead {
    pub status: ParseStatus,
    pub code: Option<u16>,
    pub headers: Vec<(String, Vec<u8>)>,
}

pub struct ParsedResponseHeadView {
    pub status: ParseStatus,
    pub code: Option<u16>,
    pub headers: Seq<(Seq<char>, Seq<u8>)>,
}

impl View for ParsedResponseHead {
    type V = ParsedResponseHeadView;

    open spec fn view(&self) -> ParsedResponseHeadView {
        ParsedResponseHeadView { status: self.status, code: self.code, headers: raw_headers_view(self.headers@) }
    }
}

/// What `httparse::Response::parse` makes of `buf` with room for
/// `max_headers` header rows.
pub uninterp spec fn httparse_response(buf: Seq<u8>, max_headers: nat) -> ParsedResponseHeadView;

/// `httparse::Response::parse` on `buf` with `max_headers` header slots;
/// the result is copied out as owned values. A complete head ends within
/// `buf`: the parser reports the count of bytes it consumed from it.
#[verifier::external_body]
pub(crate) fn parse_response_bytes(buf: &[u8], max_headers: usize) -> (r: ParsedResponseHead)
    ensures
        r@ == httparse_response(buf@, max_headers as nat),
        r@.status matches ParseStatus::Complete(n) ==> n <= buf@.len(),
{
    let mut storage = vec![httparse::EMPTY_HEADER; max_headers];
    let mut parsed = httparse::Response::new(&mut storage);
    let status = parse_status(parsed.parse(buf));
    ParsedResponseHead {
        status,
        code: parsed.code,
        headers: parsed.headers.iter().map(|h| (h.name.to_string(), h.value.to_vec())).collect(),
    }
}

/// Parsed facts about an upstream response head: the status, where the
/// head ends in the buffer, the header rows (names as received, values as
/// text), and the framing facts derived from them.
#[derive(Debug)]
pub struct DirectHead {
    pub status: u16,
    pub headers_end: usize,
    pub headers: Vec<(String, String)>,
    /// Some `Transfer-Encoding: chunked` row is present.
    pub chunked: bool,
    /// The value of the first `Content-Length` row (0 when there is none
    /// or it does not parse): the body length both read paths frame by.
    pub cl: usize,
    /// Some `Connection: close` row is present.
    pub upstream_close: bool,
}

pub struct DirectHeadView {
    pub status: u16,
    pub headers_end: usize,
    pub headers: Seq<(Seq<char>, Seq<char>)>,
    pub chunked: bool,
    pub cl: usize,
    pub upstream_close: bool,
}

impl View for DirectHead {
    type V = DirectHeadView;

    open spec fn view(&self) -> DirectHeadView {
        DirectHeadView {
            status: self.status,
            headers_end: self.headers_end,
            headers: headers_view(self.headers@),
            chunked: self.chunked,
            cl: self.cl,
            upstream_close: self.upstream_close,
        }
    }
}

/// The header rows kept from a parsed response head: rows with an empty
/// name are dropped; `None` when a kept row's value is not UTF-8.
pub open spec fn response_rows(h: Seq<(Seq<char>, Seq<u8>)>) -> Option<Seq<(Seq<char>, Seq<char>)>>
    decreases h.len(),
{
    if h.len() == 0 {
        Some(Seq::empty())
    } else {
        match response_rows(h.drop_last()) {
            None => None,
            Some(rest) => {
                let last = h.last();
                if last.0.len() == 0 {
                    Some(rest)
                } else if valid_utf8(last.1) {
                    Some(rest.push((last.0, decode_utf8(last.1))))
                } else {
                    None
                }
            },
        }
    }
}

/// `str::parse::<usize>` with 0 for anything it rejects.
pub open spec fn usize_or_zero(v: Seq<char>) -> usize {
    match unsigned_parse(bytes_of(v), usize::MAX as nat) {
        Some(n) => n as usize,
        None => 0,
    }
}

/// The framing flags `(chunked, close)` read off the rows: whether some
/// `Transfer-Encoding: chunked` row, and some `Connection: close` row, is
/// present. Names and values compare ignoring ASCII case.
pub open spec fn direct_facts(h: Seq<(Seq<char>, Seq<char>)>) -> (bool, bool)
    decreases h.len(),
{
    if h.len() == 0 {
        (false, false)
    } else {
        let (c, k) = direct_facts(h.drop_last());
        let (n, v) = h.last();
        if name_matches(n, TRANSFER_ENCODING@) && name_matches(v, "chunked"@) {
            (true, k)
        } else if name_matches(n, CONNECTION@) && name_matches(v, "close"@) {
            (c, true)
        } else {
            (c, k)
        }
    }
}

/// The body length a response is framed by, on either read path: the value
/// of the first `Content-Length` row, 0 when there is none or it does not
/// parse.
pub open spec fn first_content_length(rows: Seq<(Seq<char>, Seq<char>)>) -> usize {
    match lookup(rows, CONTENT_LENGTH@) {
        Some(v) => usize_or_zero(v),
        None => 0,
    }
}

/// The error a response-head rejection by the parser is reported as.
pub open spec fn response_error(kind: ParseErrorKind) -> Http1Error {
    match kind {
        ParseErrorKind::Token | ParseErrorKind::Version | ParseErrorKind::Status => Http1Error::MalformedResponseLine,
        ParseErrorKind::HeaderName | ParseErrorKind::HeaderValue | ParseErrorKind::NewLine => Http1Error::MalformedHeader,
        ParseErrorKind::TooManyHeaders => Http1Error::HeadersTooLarge { cap: RESPONSE_HEADERS_CAP },
    }
}

/// The verdict on a buffer of `buf_len` bytes whose head the parser
/// reported as `p`: incomplete (`Ok(None)`, while within the cap), an
/// error, or the head.
pub open spec fn response_head_outcome(buf_len: nat, p: ParsedResponseHeadView) -> Result<Option<DirectHeadView>, Http1Error> {
    match p.status {
        ParseStatus::Partial => if buf_len > RESPONSE_HEADERS_CAP {
            Err(Http1Error::HeadersTooLarge { cap: RESPONSE_HEADERS_CAP })
        } else {
            Ok(None)
        },
        ParseStatus::Invalid(kind) => Err(response_error(kind)),
        ParseStatus::Complete(n) => match p.code {
            None => Err(Http1Error::MalformedResponseLine),
            Some(code) => match response_rows(p.headers) {
                None => Err(Http1Error::MalformedResponseLine),
                Some(rows) => {
                    let (c, k) = direct_facts(rows);
                    Ok(Some(DirectHeadView {
                        status: code,
                        headers_end: n,
                        headers: rows,
                        chunked: c,
                        cl: first_content_length(rows),
                        upstream_close: k,
                    }))
                },
            },
        },
    }
}

pub open spec fn head_result_view(r: Result<Option<DirectHead>, Http1Error>) -> Result<Option<DirectHeadView>, Http1Error> {
    match r {
        Ok(Some(h)) => Ok(Some(h@)),
        Ok(None) => Ok(None),
        Err(e) => Err(e),
    }
}

/// Reads the header rows off a complete parse, in order, with the framing
/// flags.
fn collect_rows(raw: &Vec<(String, Vec<u8>)>) -> (r: Option<(Vec<(String, String)>, bool, bool)>)
    ensures
        match r {
            Some((rows, c, k)) => response_rows(raw_headers_view(raw@)) == Some(headers_view(rows@))
                && direct_facts(headers_view(rows@)) == (c, k),
            None => response_rows(raw_headers_view(raw@)) is None,
        },
{
    let ghost rv = raw_headers_view(raw@);
    let mut rows: Vec<(String, String)> = Vec::new();
    let mut chunked = false;
    let mut close = false;
    let mut i: usize = 0;
    while i < raw.len()
        invariant
            0 <= i <= raw@.len(),
            rv == raw_headers_view(raw@),
            response_rows(rv.take(i as int)) == Some(headers_view(rows@)),
            direct_facts(headers_view(rows@)) == (chunked, close),
        decreases raw@.len() - i,
    {
        proof {
            assert(rv.take(i + 1).drop_last() =~= rv.take(i as int));
        }
        let name: &String = &raw[i].0;
        if name.as_str().as_bytes().len() == 0 {
            proof {
                assert(name@.len() == 0) by {
                    if name@.len() != 0 {
                        assert(bytes_of(name@).len() > 0) by {
                            reveal_with_fuel(vstd::utf8::encode_utf8, 1);
                        }
                    }
                }
            }
        } else {
            let value = match utf8_str(raw[i].1.as_slice()) {
                Some(v) => v,
                None => {
                    proof {
                        lemma_rows_none_stays(rv, i as int + 1);
                    }
                    return None;
                },
            };
            proof {
                vstd::utf8::encode_utf8_decode_utf8(value@);
            }
            let ghost before = headers_view(rows@);
            if str_eq_ignore_ascii_case(name.as_str(), TRANSFER_ENCODING) && str_eq_ignore_ascii_case(value, "chunked") {
                chunked = true;
            } else if str_eq_ignore_ascii_case(name.as_str(), CONNECTION) && str_eq_ignore_ascii_case(value, "close") {
                close = true;
            }
            rows.push((name.clone(), value.to_owned()));
            proof {
                assert(headers_view(rows@) =~= before.push((name@, value@)));
                assert(headers_view(rows@).drop_last() =~= before);
            }
        }
        i += 1;
    }
    proof {
        assert(rv.take(raw@.len() as int) =~= rv);
    }
    Some((rows, chunked, close))
}

proof fn lemma_rows_none_stays(h: Seq<(Seq<char>, Seq<u8>)>, i: int)
    requires
        0 <= i <= h.len(),
        response_rows(h.take(i)) is None,
    ensures
        response_rows(h) is None,
    decreases h.len() - i,
{
    if i < h.len() {
        assert(h.take(i + 1).drop_last() =~= h.take(i));
        lemma_rows_none_stays(h, i + 1);
    } else {
        assert(h.take(i) =~= h);
    }
}

impl DirectHead {
    /// The head (or the verdict) from what the parser reported for a buffer
    /// of `buf_len` bytes.
    pub fn from_parsed(buf_len: usize, parsed: &ParsedResponseHead) -> (r: Result<Option<DirectHead>, Http1Error>)
        ensures
            head_result_view(r) == response_head_outcome(buf_len as nat, parsed@),
    {
        let headers_end = match parsed.status {
            ParseStatus::Complete(n) => n,
            ParseStatus::Partial => {
                if buf_len > RESPONSE_HEADERS_CAP {
                    return Err(Http1Error::HeadersTooLarge { cap: RESPONSE_HEADERS_CAP });
                }
                return Ok(None);
            },
            ParseStatus::Invalid(ParseErrorKind::Token)
            | ParseStatus::Invalid(ParseErrorKind::Version)
            | ParseStatus::Invalid(ParseErrorKind::Status) => {
                return Err(Http1Error::MalformedResponseLine);
            },
            ParseStatus::Invalid(ParseErrorKind::HeaderName)
            | ParseStatus::Invalid(ParseErrorKind::HeaderValue)
            | ParseStatus::Invalid(ParseErrorKind::NewLine) => {
                return Err(Http1Error::MalformedHeader);
            },
            ParseStatus::Invalid(ParseErrorKind::TooManyHeaders) => {
                return Err(Http1Error::HeadersTooLarge { cap: RESPONSE_HEADERS_CAP });
            },
        };
        let status = match parsed.code {
            Some(c) => c,
            None => return Err(Http1Error::MalformedResponseLine),
        };
        match collect_rows(&parsed.headers) {
            None => Err(Http1Error::MalformedResponseLine),
            Some((headers, chunked, upstream_close)) => {
                let cl = first_content_length_of(headers.as_slice());
                Ok(Some(DirectHead { status, headers_end, headers, chunked, cl, upstream_close }))
            },
        }
    }
}

/// Parse an upstream response head out of `buf`: `Ok(None)` while the
/// buffer does not yet hold a complete head (within `RESPONSE_HEADERS_CAP`
/// bytes), the head with its framing facts once it does, or the error.
pub fn parse_response_head(buf: &[u8]) -> (r: Result<Option<DirectHead>, Http1Error>)
    ensures
        head_result_view(r) == response_head_outcome(
            buf@.len(),
            httparse_response(buf@, RESPONSE_MAX_HEADERS as nat),
        ),
        r matches Ok(Some(h)) ==> h.headers_end <= buf@.len(),
{
    let parsed = parse_response_bytes(buf, RESPONSE_MAX_HEADERS);
    DirectHead::from_parsed(buf.len(), &parsed)
}

// ---------------------------------------------------------------------------
// Chunked transfer-coding.
// ---------------------------------------------------------------------------

/// `s.split(c).next()`: the characters before the first `c` (all of `s`
/// when there is none).
pub open spec fn before_char(s: Seq<char>, c: char) -> Seq<char>
    decreases s.len(),
{
    if s.len() == 0 {
        s
    } else if s[0] == c {
        Seq::empty()
    } else {
        seq![s[0]] + before_char(s.drop_first(), c)
    }
}

proof fn lemma_before_char(s: Seq<char>, c: char, k: int)
    requires
        0 <= k <= s.len(),
        forall|j: int| 0 <= j < k ==> s[j] != c,
        k == s.len() || s[k] == c,
    ensures
        before_char(s, c) == s.take(k),
    decreases s.len(),
{
    if s.len() > 0 && k > 0 {
        lemma_before_char(s.drop_first(), c, k - 1);
        assert(seq![s[0]] + s.drop_first().take(k - 1) =~= s.take(k));
    } else if s.len() > 0 {
        assert(s.take(k) =~= Seq::<char>::empty());
    }
}

/// The chunk size a size line announces: the line must be UTF-8; it is
/// trimmed, cut at the first `;` (dropping chunk extensions), trimmed
/// again, and read by `usize::from_str_radix(.., 16)`.
pub open spec fn chunk_size_of(line: Seq<u8>) -> Option<nat> {
    if valid_utf8(line) {
        hex_usize_parse(trim(before_char(trim(decode_utf8(line)), ';')))
    } else {
        None
    }
}

/// The chunk size announced by a size line.
pub fn chunk_size(line: &[u8]) -> (r: Option<usize>)
    ensures
        match r {
            Some(n) => chunk_size_of(line@) == Some(n as nat),
            None => chunk_size_of(line@) is None,
        },
{
    let text = match utf8_str(line) {
        Some(t) => t,
        None => return None,
    };
    proof {
        vstd::utf8::encode_utf8_decode_utf8(text@);
    }
    let cs = chars_of(text);
    let (a, b) = trim_span(&cs, 0, cs.len());
    proof {
        assert(cs@.subrange(0, cs@.len() as int) =~= cs@);
    }
    let mut e = a;
    while e < b && cs[e] != ';'
        invariant
            a <= e <= b <= cs@.len(),
            forall|j: int| a <= j < e ==> cs@[j] != ';',
        decreases b - e,
    {
        e += 1;
    }
    proof {
        let t = cs@.subrange(a as int, b as int);
        assert forall|j: int| 0 <= j < e - a implies t[j] != ';' by {
            assert(t[j] == cs@[a + j]);
        }
        lemma_before_char(t, ';', e - a);
        assert(t.take(e - a) =~= cs@.subrange(a as int, e as int));
    }
    let (c, d) = trim_span(&cs, a, e);
    parse_hex_usize(&cs, c, d)
}

/// How far a chunked body has been decoded.
pub enum ChunkedBody {
    /// The framing is not complete yet.
    Incomplete,
    /// The framing is broken.
    Malformed,
    /// The decoded body: the chunks' data, concatenated.
    Complete(Vec<u8>),
}

pub enum ChunkedView {
    Incomplete,
    Malformed,
    Complete(Seq<u8>),
}

impl View for ChunkedBody {
    type V = ChunkedView;

    open spec fn view(&self) -> ChunkedView {
        match self {
            ChunkedBody::Incomplete => ChunkedView::Incomplete,
            ChunkedBody::Malformed => ChunkedView::Malformed,
            ChunkedBody::Complete(b) => ChunkedView::Complete(b@),
        }
    }
}

/// The trailer section from `p`: lines are skipped up to and including the
/// first empty one; the body decoded so far, `acc`, is then complete.
pub open spec fn chunked_trailers(buf: Seq<u8>, p: int, acc: Seq<u8>) -> ChunkedView
    decreases buf.len() - p,
{
    if p < 0 || p > buf.len() {
        ChunkedView::Incomplete
    } else {
        match first_crlf(buf.subrange(p, buf.len() as int)) {
            None => ChunkedView::Incomplete,
            Some(k) => if k == 0 {
                ChunkedView::Complete(acc)
            } else if k < 0 || p + k + 2 > buf.len() {
                ChunkedView::Incomplete
            } else {
                chunked_trailers(buf, p + k + 2, acc)
            },
        }
    }
}

/// Decoding `buf` as chunked framing from `pos`, having decoded `acc` so
/// far (RFC 7230 §4.1): `chunk-size [; ext] CRLF chunk-data CRLF`, repeated,
/// until a zero size, then the trailer section.
pub open spec fn chunked_from(buf: Seq<u8>, pos: int, acc: Seq<u8>) -> ChunkedView
    decreases buf.len() - pos,
{
    if pos < 0 || pos > buf.len() {
        ChunkedView::Incomplete
    } else {
        match first_crlf(buf.subrange(pos, buf.len() as int)) {
            None => ChunkedView::Incomplete,
            Some(off) => if off < 0 || pos + off + 2 > buf.len() {
                ChunkedView::Incomplete
            } else {
                match chunk_size_of(buf.subrange(pos, pos + off)) {
                    None => ChunkedView::Malformed,
                    Some(size) => {
                        let data = pos + off + 2;
                        if size == 0 {
                            chunked_trailers(buf, data, acc)
                        } else if buf.len() < data + size + 2 {
                            ChunkedView::Incomplete
                        } else if !crlf_at(buf, data + size) {
                            ChunkedView::Malformed
                        } else {
                            chunked_from(buf, data + size + 2, acc + buf.subrange(data, data + size))
                        }
                    },
                }
            },
        }
    }
}

/// The offset of the first `\r\n` in `buf[from..]`.
fn crlf_after(buf: &[u8], from: usize) -> (r: Option<usize>)
    requires
        from <= buf@.len(),
    ensures
        match r {
            Some(i) => first_crlf(buf@.subrange(from as int, buf@.len() as int)) == Some(i as int)
                && from + i + 2 <= buf@.len(),
            None => first_crlf(buf@.subrange(from as int, buf@.len() as int)) is None,
        },
{
    let tail = &buf[from..buf.len()];
    proof {
        assert(tail@ =~= buf@.subrange(from as int, buf@.len() as int));
    }
    find_crlf(tail)
}

/// Skips the trailer section from `p`.
fn skip_trailers(buf: &[u8], start: usize, out: Vec<u8>) -> (r: ChunkedBody)
    requires
        start <= buf@.len(),
    ensures
        r@ == chunked_trailers(buf@, start as int, out@),
{
    let mut p = start;
    let ghost n = buf.len();
    loop
        invariant
            p <= buf@.len() == n,
            chunked_trailers(buf@, p as int, out@) == chunked_trailers(buf@, start as int, out@),
        decreases buf@.len() - p,
    {
        match crlf_after(buf, p) {
            None => return ChunkedBody::Incomplete,
            Some(0) => return ChunkedBody::Complete(out),
            Some(k) => {
                p = p + k + 2;
            },
        }
    }
}

/// Decode the chunked body that starts at `start` in `buf`: the
/// concatenated chunk data once the framing (trailers included) is
/// complete, `Malformed` on a framing violation, `Incomplete` while more
/// bytes are needed. Trailers are discarded.
pub fn decode_chunked(buf: &[u8], start: usize) -> (r: ChunkedBody)
    ensures
        r@ == chunked_from(buf@, start as int, Seq::empty()),
{
    if start > buf.len() {
        return ChunkedBody::Incomplete;
    }
    let mut out: Vec<u8> = Vec::new();
    let mut pos = start;
    let ghost n = buf.len();
    loop
        invariant
            pos <= buf@.len() == n,
            chunked_from(buf@, start as int, Seq::empty()) == chunked_from(buf@, pos as int, out@),
        decreases buf@.len() - pos,
    {
        let off = match crlf_after(buf, pos) {
            None => return ChunkedBody::Incomplete,
            Some(o) => o,
        };
        let line = &buf[pos..pos + off];
        proof {
            assert(line@ =~= buf@.subrange(pos as int, pos + off));
        }
        let size = match chunk_size(line) {
            None => return ChunkedBody::Malformed,
            Some(n) => n,
        };
        let data = pos + off + 2;
        if size == 0 {
            return skip_trailers(buf, data, out);
        }
        if buf.len() - data < size || buf.len() - data - size < 2 {
            return ChunkedBody::Incomplete;
        }
        if !(buf[data + size] == 13u8 && buf[data + size + 1] == 10u8) {
            return ChunkedBody::Malformed;
        }
        let chunk = &buf[data..data + size];
        proof {
            assert(chunk@ =~= buf@.subrange(data as int, data + size));
        }
        push_slice(&mut out, chunk);
        pos = data + size + 2;
    }
}

// ---------------------------------------------------------------------------
// Reading a response.
// ---------------------------------------------------------------------------

/// Where a response read stands.
#[derive(Debug, Clone, Copy, PartialEq, Eq, Structural)]
pub enum ReadStage {
    /// The head is not complete yet.
    Head,
    /// A `Content-Length`-framed body is not complete yet.
    Body,
    /// A chunked body is not complete yet.
    ChunkedBody,
}

/// What a read that ends early (the peer closes, or stays silent past the
/// read timeout) is reported as: broken framing inside a chunked body, an
/// unexpected end of stream anywhere else.
pub open spec fn stage_stall_error(stage: ReadStage) -> Http1Error {
    match stage {
        ReadStage::ChunkedBody => Http1Error::MalformedChunkedFraming,
        _ => Http1Error::UnexpectedEof,
    }
}

impl ReadStage {
    /// The error for a read that ends early at this stage.
    pub fn stall_error(self) -> (e: Http1Error)
        ensures
            e == stage_stall_error(self),
    {
        match self {
            ReadStage::ChunkedBody => Http1Error::MalformedChunkedFraming,
            _ => Http1Error::UnexpectedEof,
        }
    }
}

/// What to do next with a response being read.
#[derive(Debug)]
pub enum ResponseStep {
    /// Read more bytes onto the end of the buffer: at most `limit` more when
    /// it is `Some`.
    NeedMore { stage: ReadStage, limit: Option<usize> },
    /// The body is complete.
    Complete(Vec<u8>),
    /// The response is rejected.
    Failed(Http1Error),
}

pub enum StepView {
    NeedMore { stage: ReadStage, limit: Option<usize> },
    Complete(Seq<u8>),
    Failed(Http1Error),
}

impl View for ResponseStep {
    type V = StepView;

    open spec fn view(&self) -> StepView {
        match self {
            ResponseStep::NeedMore { stage, limit } => StepView::NeedMore { stage: *stage, limit: *limit },
            ResponseStep::Complete(b) => StepView::Complete(b@),
            ResponseStep::Failed(e) => StepView::Failed(*e),
        }
    }
}

/// The next step once the head is known, with `buf` holding the head and
/// what followed it: a chunked body is decoded from the end of the head; a
/// `Content-Length` body is complete once that many bytes follow the head
/// (bytes beyond it are ignored), else exactly the missing count is read.
pub open spec fn body_step(buf: Seq<u8>, head: DirectHeadView) -> StepView {
    let end = head.headers_end as int;
    if head.chunked {
        match chunked_from(buf, end, Seq::empty()) {
            ChunkedView::Incomplete => StepView::NeedMore { stage: ReadStage::ChunkedBody, limit: None },
            ChunkedView::Malformed => StepView::Failed(Http1Error::MalformedChunkedFraming),
            ChunkedView::Complete(b) => StepView::Complete(b),
        }
    } else {
        let cl = head.cl as int;
        let already = buf.len() - end;
        if already >= cl {
            StepView::Complete(buf.subrange(end, end + cl))
        } else {
            StepView::NeedMore { stage: ReadStage::Body, limit: Some((cl - already) as usize) }
        }
    }
}

/// The length of the first `Content-Length` row, 0 when absent or unparsable.
pub fn first_content_length_of(rows: &[(String, String)]) -> (r: usize)
    ensures
        r == first_content_length(headers_view(rows@)),
{
    match find_header(rows, CONTENT_LENGTH) {
        Some(v) => match parse_unsigned(v.as_bytes(), usize::MAX as u64) {
            Some(n) => n as usize,
            None => 0,
        },
        None => 0,
    }
}

/// The next step for a response whose head is known.
pub fn read_body(buf: &[u8], head: &DirectHead) -> (r: ResponseStep)
    requires
        head.headers_end <= buf@.len(),
    ensures
        r@ == body_step(buf@, head@),
{
    let end = head.headers_end;
    if head.chunked {
        return match decode_chunked(buf, end) {
            ChunkedBody::Incomplete => ResponseStep::NeedMore { stage: ReadStage::ChunkedBody, limit: None },
            ChunkedBody::Malformed => ResponseStep::Failed(Http1Error::MalformedChunkedFraming),
            ChunkedBody::Complete(b) => ResponseStep::Complete(b),
        };
    }
    let cl = head.cl;
    let already = buf.len() - end;
    if already >= cl {
        let body = &buf[end..end + cl];
        let mut out: Vec<u8> = Vec::new();
        push_slice(&mut out, body);
        proof {
            assert(out@ =~= buf@.subrange(end as int, end + cl));
        }
        ResponseStep::Complete(out)
    } else {
        ResponseStep::NeedMore { stage: ReadStage::Body, limit: Some(cl - already) }
    }
}

/// Reads one response: fed the growing buffer after each read, it parses
/// the head once and then frames the body. Both read paths, the response
/// owned in full and the proxied one, use it, so they frame alike.
pub struct ResponseReader {
    pub head: Option<DirectHead>,
}

impl ResponseReader {
    pub fn new() -> (r: Self)
        ensures
            r.head is None,
    {
        ResponseReader { head: None }
    }

    /// The next step given everything read so far. Until the head is
    /// complete it is parsed from `buf`; once it is, it is kept and the body
    /// is framed. The buffer only ever grows: it still holds the head it was
    /// parsed from.
    pub fn step(&mut self, buf: &[u8]) -> (r: ResponseStep)
        requires
            old(self).head matches Some(h) ==> h.headers_end <= buf@.len(),
        ensures
            match old(self).head {
                Some(h) => final(self).head == old(self).head && r@ == body_step(buf@, h@),
                None => match response_head_outcome(
                    buf@.len(),
                    httparse_response(buf@, RESPONSE_MAX_HEADERS as nat),
                ) {
                    Err(e) => final(self).head is None && r@ == StepView::Failed(e),
                    Ok(None) => final(self).head is None && r@ == (StepView::NeedMore {
                        stage: ReadStage::Head,
                        limit: None,
                    }),
                    Ok(Some(h)) => final(self).head matches Some(fh) && fh@ == h && r@ == body_step(buf@, h),
                },
            },
    {
        match &self.head {
            Some(h) => {
                return read_body(buf, h);
            },
            None => {},
        }
        match parse_response_head(buf) {
            Err(e) => ResponseStep::Failed(e),
            Ok(None) => ResponseStep::NeedMore { stage: ReadStage::Head, limit: None },
            Ok(Some(h)) => {
                let r = read_body(buf, &h);
                self.head = Some(h);
                r
            },
        }
    }
}

/// `r` is the response owned in full for `head` and `body`: the head's
/// status, no reason phrase (the canonical one applies), the head's rows,
/// and the body.
pub open spec fn owned_response(r: Response, head: DirectHeadView, body: Seq<u8>) -> bool {
    &&& r.status == head.status
    &&& r.reason is None
    &&& r.header_rows() == head.headers
    &&& r.body@ == body
}

impl DirectHead {
    /// The response owned in full: status, no reason phrase (the canonical
    /// one applies), the head's rows, and `body`.
    pub fn into_response(self, body: Vec<u8>) -> (r: Response)
        ensures
            owned_response(r, self@, body@),
    {
        Response { status: self.status, reason: None, headers: self.headers, body }
    }
}

// ---------------------------------------------------------------------------
// The proxied response head.
// ---------------------------------------------------------------------------

/// One upstream row as it goes downstream: `server` and `date` are
/// replaced, `connection` and `transfer-encoding` dropped, `content-length`
/// passed through, anything else emitted with its name lowercased.
pub open spec fn direct_header_line(name: Seq<char>, value: Seq<char>, date: Seq<char>) -> Seq<u8> {
    if name_matches(name, SERVER@) {
        bytes_of("server: envoy-rust\r\n"@)
    } else if name_matches(name, DATE@) {
        bytes_of("date: "@) + bytes_of(date) + bytes_of("\r\n"@)
    } else if name_matches(name, CONNECTION@) || name_matches(name, TRANSFER_ENCODING@) {
        Seq::empty()
    } else if name_matches(name, CONTENT_LENGTH@) {
        bytes_of("content-length: "@) + bytes_of(value) + bytes_of("\r\n"@)
    } else {
        header_line(name, value)
    }
}

pub open spec fn direct_header_lines(rows: Seq<(Seq<char>, Seq<char>)>, date: Seq<char>) -> Seq<u8>
    decreases rows.len(),
{
    if rows.len() == 0 {
        Seq::empty()
    } else {
        direct_header_lines(rows.drop_last(), date) + direct_header_line(rows.last().0, rows.last().1, date)
    }
}

/// The status line of a downstream head.
pub open spec fn direct_status_line(status: u16, reason: Seq<char>) -> Seq<u8> {
    bytes_of("HTTP/1.1 "@) + decimal(status as nat) + bytes_of(" "@) + bytes_of(reason) + bytes_of("\r\n"@)
}

/// `server: envoy-rust` unless the upstream rows carry a `server`.
pub open spec fn server_default(rows: Seq<(Seq<char>, Seq<char>)>) -> Seq<u8> {
    if has_header(rows, SERVER@) { Seq::empty() } else { bytes_of("server: envoy-rust\r\n"@) }
}

/// `date: <date>` unless the upstream rows carry a `date`.
pub open spec fn date_default(rows: Seq<(Seq<char>, Seq<char>)>, date: Seq<char>) -> Seq<u8> {
    if has_header(rows, DATE@) {
        Seq::empty()
    } else {
        bytes_of("date: "@) + bytes_of(date) + bytes_of("\r\n"@)
    }
}

/// `content-length: <body_len>` unless the upstream rows carry one.
pub open spec fn length_default(rows: Seq<(Seq<char>, Seq<char>)>, body_len: nat) -> Seq<u8> {
    if has_header(rows, CONTENT_LENGTH@) {
        Seq::empty()
    } else {
        bytes_of("content-length: "@) + decimal(body_len) + bytes_of("\r\n"@)
    }
}

/// `server`, `date` and `content-length` (of `body_len`), each only when the
/// upstream rows carry none.
pub open spec fn missing_defaults(rows: Seq<(Seq<char>, Seq<char>)>, date: Seq<char>, body_len: nat) -> Seq<u8> {
    server_default(rows) + date_default(rows, date) + length_default(rows, body_len)
}

/// `x-envoy-upstream-service-time`, the `connection:` verdict, a blank line.
pub open spec fn direct_trailer(elapsed_ms: nat, close: bool) -> Seq<u8> {
    bytes_of("x-envoy-upstream-service-time: "@) + decimal(elapsed_ms) + bytes_of("\r\n"@)
        + (if close { bytes_of("connection: close\r\n"@) } else { bytes_of("connection: keep-alive\r\n"@) })
        + bytes_of("\r\n"@)
}

/// The downstream head for an upstream head: the status line with the
/// status's canonical reason phrase;
/// the upstream rows in order as `direct_header_line` turns them; `server`,
/// `date` and `content-length` (of `body_len`) when the upstream sent none;
/// `x-envoy-upstream-service-time`; the `connection:` verdict; a blank line.
pub open spec fn direct_head_wire(
    head: DirectHeadView,
    date: Seq<char>,
    body_len: nat,
    elapsed_ms: nat,
    close: bool,
) -> Seq<u8> {
    direct_status_line(head.status, canonical_reason_of(head.status)) + direct_header_lines(head.headers, date)
        + missing_defaults(head.headers, date, body_len) + direct_trailer(elapsed_ms, close)
}

fn push_missing_defaults(out: &mut Vec<u8>, rows: &[(String, String)], date: &str, body_len: usize)
    ensures
        final(out)@ == old(out)@ + missing_defaults(headers_view(rows@), date@, body_len as nat),
{
    let ghost view = headers_view(rows@);
    let ghost a = out@;
    if !contains_header(rows, SERVER) {
        push_str(out, "server: envoy-rust\r\n");
    }
    assert(out@ == a + server_default(view));
    let ghost b = out@;
    if !contains_header(rows, DATE) {
        push_str(out, "date: ");
        push_str(out, date);
        push_str(out, "\r\n");
        assert(out@ =~= b + date_default(view, date@));
    } else {
        assert(out@ =~= b + date_default(view, date@));
    }
    let ghost c = out@;
    if !contains_header(rows, CONTENT_LENGTH) {
        push_str(out, "content-length: ");
        push_decimal(out, body_len as u128);
        push_str(out, "\r\n");
        assert(out@ =~= c + length_default(view, body_len as nat));
    } else {
        assert(out@ =~= c + length_default(view, body_len as nat));
    }
    assert(out@ =~= a + missing_defaults(view, date@, body_len as nat));
}

fn push_direct_trailer(out: &mut Vec<u8>, elapsed_ms: u128, close: bool)
    ensures
        final(out)@ == old(out)@ + direct_trailer(elapsed_ms as nat, close),
{
    let ghost a = out@;
    push_str(out, "x-envoy-upstream-service-time: ");
    push_decimal(out, elapsed_ms);
    push_str(out, "\r\n");
    if close {
        push_str(out, "connection: close\r\n");
    } else {
        push_str(out, "connection: keep-alive\r\n");
    }
    push_str(out, "\r\n");
    proof {
        assert(out@ =~= a + direct_trailer(elapsed_ms as nat, close));
    }
}

fn push_direct_header_lines(out: &mut Vec<u8>, rows: &[(String, String)], date: &str)
    ensures
        final(out)@ == old(out)@ + direct_header_lines(headers_view(rows@), date@),
{
    let ghost before = out@;
    let ghost view = headers_view(rows@);
    let mut i: usize = 0;
    while i < rows.len()
        invariant
            0 <= i <= rows@.len(),
            view == headers_view(rows@),
            out@ == before + direct_header_lines(view.take(i as int), date@),
        decreases rows@.len() - i,
    {
        let name = rows[i].0.as_str();
        let value = rows[i].1.as_str();
        proof {
            assert(view.take(i + 1).drop_last() =~= view.take(i as int));
            assert(view.take(i + 1).last() == (name@, value@));
        }
        let ghost mid = out@;
        if str_eq_ignore_ascii_case(name, SERVER) {
            push_str(out, "server: envoy-rust\r\n");
        } else if str_eq_ignore_ascii_case(name, DATE) {
            push_str(out, "date: ");
            push_str(out, date);
            push_str(out, "\r\n");
        } else if str_eq_ignore_ascii_case(name, CONNECTION) || str_eq_ignore_ascii_case(name, TRANSFER_ENCODING) {
        } else if str_eq_ignore_ascii_case(name, CONTENT_LENGTH) {
            push_str(out, "content-length: ");
            push_str(out, value);
            push_str(out, "\r\n");
        } else {
            push_lowercase(out, name.as_bytes());
            push_str(out, ": ");
            push_str(out, value);
            push_str(out, "\r\n");
        }
        proof {
            assert(out@ =~= mid + direct_header_line(name@, value@, date@));
            assert(out@ =~= before + direct_header_lines(view.take(i + 1), date@));
        }
        i += 1;
    }
    proof {
        assert(view.take(rows@.len() as int) =~= view);
    }
}

/// Serialize the downstream head for `head` into `out` (cleared first), with
/// `date` as the `date:` value.
pub fn serialize_direct_head_dated(
    out: &mut Vec<u8>,
    head: &DirectHead,
    date: &str,
    body_len: usize,
    elapsed_ms: u128,
    close: bool,
)
    ensures
        final(out)@ == direct_head_wire(head@, date@, body_len as nat, elapsed_ms as nat, close),
{
    out.clear();
    let reason = canonical_reason(head.status);
    push_str(out, "HTTP/1.1 ");
    push_decimal(out, head.status as u128);
    push_str(out, " ");
    push_str(out, reason);
    push_str(out, "\r\n");
    assert(out@ =~= direct_status_line(head.status, reason@));
    push_direct_header_lines(out, head.headers.as_slice(), date);
    push_missing_defaults(out, head.headers.as_slice(), date, body_len);
    push_direct_trailer(out, elapsed_ms, close);
    proof {
        assert(out@ =~= direct_head_wire(head@, date@, body_len as nat, elapsed_ms as nat, close));
    }
}

/// Serialize the downstream head for `head` into `out` (cleared first),
/// dated now. The status line carries the status's canonical reason
/// phrase; `body_len` is the body
/// length used when the upstream sent no `content-length`, `elapsed_ms` the
/// upstream service time, and `close` the connection verdict.
pub fn serialize_direct_head(
    out: &mut Vec<u8>,
    head: &DirectHead,
    body_len: usize,
    elapsed_ms: u128,
    close: bool,
)
    ensures
        exists|date: Seq<char>|
            is_http_date(date) && final(out)@ == #[trigger] direct_head_wire(
                head@,
                date,
                body_len as nat,
                elapsed_ms as nat,
                close,
            ),
{
    let date = now_imf_fixdate();
    serialize_direct_head_dated(out, head, date.as_str(), body_len, elapsed_ms, close);
    proof {
        let tv_sec = choose|tv_sec: i64| bytes_of(date@) == #[trigger] imf_fixdate(reading_secs(tv_sec));
        assert(bytes_of(date@) == imf_fixdate((reading_secs(tv_sec) as u64) as nat));
        assert(is_http_date(date@));
    }
}

/// The outcome of a proxied-path read: the downstream head was serialized
/// into the caller's buffer and `body` is the (fully read) response body; or,
/// for chunked upstream framing, the response owned in full.
#[derive(Debug)]
pub enum DirectOutcome {
    Direct { status: u16, upstream_close: bool, body: Vec<u8> },
    Fallback(Response),
}

/// Milliseconds from `start_ms` to the coarse-monotonic reading `now_ms`,
/// zero when the clock reads earlier.
pub open spec fn elapsed_ms(start_ms: u128, now_ms: u128) -> u128 {
    if now_ms >= start_ms { (now_ms - start_ms) as u128 } else { 0 }
}

/// What finishing a proxied-path read of `head` and `body` gives, with the
/// head buffer going from `before` to `after`: for a chunked upstream the
/// response owned in full, the buffer untouched; otherwise the status, the
/// upstream's `connection: close`, the body, and the downstream head in the
/// buffer, dated with some HTTP-date and timed by some clock reading.
pub open spec fn direct_finished(
    r: DirectOutcome,
    head: DirectHeadView,
    body: Seq<u8>,
    start_ms: u128,
    close: bool,
    before: Seq<u8>,
    after: Seq<u8>,
) -> bool {
    if head.chunked {
        &&& after == before
        &&& r matches DirectOutcome::Fallback(resp) && owned_response(resp, head, body)
    } else {
        r matches DirectOutcome::Direct { status, upstream_close, body: b } && {
            &&& status == head.status
            &&& upstream_close == head.upstream_close
            &&& b@ == body
            &&& exists|date: Seq<char>, now_ms: u128|
                is_http_date(date) && after == #[trigger] direct_head_wire(
                    head,
                    date,
                    body.len(),
                    elapsed_ms(start_ms, now_ms) as nat,
                    close,
                )
        }
    }
}

/// Finish a proxied-path read whose body is complete: a chunked upstream
/// takes the owned fallback; otherwise the downstream head is serialized
/// into `out` (the canonical reason phrase, service time since `start_ms`, the
/// `connection:` verdict `close`).
pub fn finish_direct(
    head: DirectHead,
    body: Vec<u8>,
    start_ms: u128,
    close: bool,
    out: &mut Vec<u8>,
) -> (r: DirectOutcome)
    ensures
        direct_finished(r, head@, body@, start_ms, close, old(out)@, final(out)@),
{
    if head.chunked {
        return DirectOutcome::Fallback(head.into_response(body));
    }
    let now_ms = coarse_monotonic_ms();
    let elapsed = if now_ms >= start_ms { now_ms - start_ms } else { 0 };
    serialize_direct_head(out, &head, body.len(), elapsed, close);
    proof {
        assert(elapsed == elapsed_ms(start_ms, now_ms));
    }
    DirectOutcome::Direct { status: head.status, upstream_close: head.upstream_close, body }
}

} // verus!

verus! {

// ---------------------------------------------------------------------------
// Chunked framing round trip.
// ---------------------------------------------------------------------------

/// A lowercase hexadecimal digit.
pub open spec fn hex_digit_byte(d: nat) -> u8 {
    if d < 10 { (48 + d) as u8 } else { (87 + d) as u8 }
}

/// `n` in lowercase hexadecimal, without leading zeros.
pub open spec fn hex_bytes(n: nat) -> Seq<u8>
    decreases n,
{
    if n < 16 {
        seq![hex_digit_byte(n)]
    } else {
        hex_bytes(n / 16).push(hex_digit_byte(n % 16))
    }
}

pub open spec fn crlf() -> Seq<u8> {
    seq![13u8, 10u8]
}

/// One chunk on the wire: its size in hexadecimal, CRLF, its data, CRLF.
pub open spec fn chunk_frame(data: Seq<u8>) -> Seq<u8> {
    hex_bytes(data.len()) + crlf() + data + crlf()
}

/// A body sent as `chunks`, in order, followed by the last chunk and an
/// empty trailer section.
pub open spec fn chunked_encoding(chunks: Seq<Seq<u8>>) -> Seq<u8>
    decreases chunks.len(),
{
    if chunks.len() == 0 {
        seq![48u8] + crlf() + crlf()
    } else {
        chunk_frame(chunks[0]) + chunked_encoding(chunks.drop_first())
    }
}

/// The chunks' data, concatenated.
pub open spec fn concat_chunks(chunks: Seq<Seq<u8>>) -> Seq<u8>
    decreases chunks.len(),
{
    if chunks.len() == 0 {
        Seq::empty()
    } else {
        chunks[0] + concat_chunks(chunks.drop_first())
    }
}

pub open spec fn is_hex_digit_byte(b: u8) -> bool {
    (48 <= b <= 57) || (97 <= b <= 102)
}

proof fn lemma_hex_bytes_digits(n: nat)
    ensures
        hex_bytes(n).len() >= 1,
        forall|i: int| 0 <= i < hex_bytes(n).len() ==> is_hex_digit_byte(#[trigger] hex_bytes(n)[i]),
    decreases n,
{
    if n >= 16 {
        lemma_hex_bytes_digits(n / 16);
    }
}

/// The characters of `hex_bytes(n)`.
pub open spec fn hex_chars(n: nat) -> Seq<char> {
    Seq::new(hex_bytes(n).len(), |i: int| hex_bytes(n)[i] as char)
}

proof fn lemma_hex_digit_value(d: nat)
    requires
        d < 16,
    ensures
        crate::text::is_hex_digit(hex_digit_byte(d) as char),
        crate::text::hex_value(hex_digit_byte(d) as char) == d,
{
    let b = hex_digit_byte(d);
    assert((b as char) as int == b as int);
}

proof fn lemma_hex_chars_value(n: nat)
    ensures
        hex_digits_value(hex_chars(n)) == n,
        forall|i: int| 0 <= i < hex_chars(n).len() ==> crate::text::is_hex_digit(#[trigger] hex_chars(n)[i]),
    decreases n,
{
    lemma_hex_bytes_digits(n);
    let cs = hex_chars(n);
    assert forall|i: int| 0 <= i < cs.len() implies crate::text::is_hex_digit(#[trigger] cs[i]) by {
        assert(is_hex_digit_byte(hex_bytes(n)[i]));
    }
    if n < 16 {
        assert(cs.drop_last() =~= Seq::<char>::empty());
        assert(cs.last() == hex_digit_byte(n) as char);
        lemma_hex_digit_value(n);
        assert(hex_digits_value(cs) == hex_digits_value(cs.drop_last()) * 16 + crate::text::hex_value(cs.last()) as nat);
    } else {
        lemma_hex_chars_value(n / 16);
        assert(cs.drop_last() =~= hex_chars(n / 16));
        assert(cs.last() == hex_digit_byte(n % 16) as char);
        lemma_hex_digit_value(n % 16);
        assert(hex_digits_value(cs) == hex_digits_value(cs.drop_last()) * 16 + crate::text::hex_value(cs.last()) as nat);
        assert(n == (n / 16) * 16 + n % 16);
    }
}

proof fn lemma_chunk_size_of_hex(n: nat)
    requires
        n <= usize::MAX,
    ensures
        chunk_size_of(hex_bytes(n)) == Some(n),
{
    let b = hex_bytes(n);
    let cs = hex_chars(n);
    lemma_hex_bytes_digits(n);
    lemma_hex_chars_value(n);
    assert(crate::text::is_ascii_bytes(b));
    crate::text::lemma_ascii_valid_utf8(b);
    assert(vstd::utf8::is_ascii_chars(cs)) by {
        assert forall|i: int| 0 <= i < cs.len() implies '\0' <= #[trigger] cs[i] <= '\u{7f}' by {
            assert(is_hex_digit_byte(b[i]));
        }
    }
    vstd::utf8::is_ascii_chars_encode_utf8(cs);
    assert forall|i: int| 0 <= i < b.len() implies #[trigger] vstd::utf8::encode_utf8(cs)[i] == b[i] by {
        assert(cs[i] as u8 == vstd::utf8::encode_utf8(cs)[i]);
        assert(is_hex_digit_byte(b[i]));
    }
    assert(vstd::utf8::encode_utf8(cs) =~= b);
    vstd::utf8::encode_utf8_decode_utf8(cs);
    assert(decode_utf8(b) == cs);
    assert(!crate::text::is_whitespace(cs[0]));
    assert(!crate::text::is_whitespace(cs.last()));
    assert(trim(cs) == cs);
    assert forall|j: int| 0 <= j < cs.len() implies cs[j] != ';' by {
        assert(crate::text::is_hex_digit(cs[j]));
    }
    lemma_before_char(cs, ';', cs.len() as int);
    assert(cs.take(cs.len() as int) =~= cs);
    assert(cs[0] != '+');
}

proof fn lemma_first_crlf_after_hex(n: nat, rest: Seq<u8>)
    ensures
        first_crlf(hex_bytes(n) + crlf() + rest) == Some(hex_bytes(n).len() as int),
{
    let h = hex_bytes(n);
    let s = h + crlf() + rest;
    lemma_hex_bytes_digits(n);
    assert(s[h.len() as int] == 13u8);
    assert(s[h.len() as int + 1] == 10u8);
    assert forall|j: int| 0 <= j < h.len() implies !#[trigger] crlf_at(s, j) by {
        assert(s[j] == h[j]);
        assert(is_hex_digit_byte(h[j]));
    }
    assert(is_first_crlf(s, h.len() as int));
    lemma_first_crlf(s);
}

/// The last chunk and an empty trailer section at `pos` complete the body.
proof fn lemma_last_chunk(buf: Seq<u8>, pos: int, acc: Seq<u8>)
    requires
        0 <= pos,
        pos + 5 <= buf.len(),
        buf.subrange(pos, pos + 5) == chunked_encoding(Seq::<Seq<u8>>::empty()),
    ensures
        chunked_from(buf, pos, acc) == ChunkedView::Complete(acc),
{
    let enc = chunked_encoding(Seq::<Seq<u8>>::empty());
    let tail = buf.subrange(pos, buf.len() as int);
    assert(buf[pos] == enc[0]);
    assert(buf[pos + 1] == enc[1]);
    assert(buf[pos + 2] == enc[2]);
    assert(buf[pos + 3] == enc[3]);
    assert(buf[pos + 4] == enc[4]);
    assert(tail =~= hex_bytes(0) + crlf() + tail.skip(3));
    lemma_first_crlf_after_hex(0, tail.skip(3));
    assert(buf.subrange(pos, pos + 1) =~= hex_bytes(0));
    lemma_chunk_size_of_hex(0);
    let t = buf.subrange(pos + 3, buf.len() as int);
    assert(t[0] == 13u8 && t[1] == 10u8);
    assert(is_first_crlf(t, 0));
    lemma_first_crlf(t);
}

/// One chunk frame at `pos`: decoding continues after it with its data
/// appended.
proof fn lemma_one_chunk(buf: Seq<u8>, pos: int, data: Seq<u8>, acc: Seq<u8>)
    requires
        0 <= pos,
        0 < data.len() <= usize::MAX,
        pos + chunk_frame(data).len() <= buf.len(),
        buf.subrange(pos, pos + chunk_frame(data).len()) == chunk_frame(data),
    ensures
        chunked_from(buf, pos, acc) == chunked_from(buf, pos + chunk_frame(data).len(), acc + data),
{
    let n = data.len() as int;
    let h = hex_bytes(data.len());
    let hl = h.len() as int;
    let frame = chunk_frame(data);
    let tail = buf.subrange(pos, buf.len() as int);
    assert(tail =~= h + crlf() + tail.skip(hl + 2)) by {
        assert forall|i: int| 0 <= i < hl + 2 implies #[trigger] tail[i] == (h + crlf())[i] by {
            assert(tail[i] == frame[i]);
        }
    }
    lemma_first_crlf_after_hex(data.len(), tail.skip(hl + 2));
    assert(buf.subrange(pos, pos + hl) =~= h) by {
        assert forall|i: int| 0 <= i < hl implies #[trigger] buf.subrange(pos, pos + hl)[i] == h[i] by {
            assert(buf[pos + i] == frame[i]);
        }
    }
    lemma_chunk_size_of_hex(data.len());
    let d = pos + hl + 2;
    assert(buf[d + n] == 13u8 && buf[d + n + 1] == 10u8) by {
        assert(buf[d + n] == frame[hl + 2 + n]);
        assert(buf[d + n + 1] == frame[hl + 2 + n + 1]);
    }
    assert(buf.subrange(d, d + n) =~= data) by {
        assert forall|i: int| 0 <= i < n implies #[trigger] buf.subrange(d, d + n)[i] == data[i] by {
            assert(buf[d + i] == frame[hl + 2 + i]);
        }
    }
}

/// Decoding the chunked framing of `chunks`, found at `pos` in `buf`, gives
/// back the chunks' data after what was decoded before (`acc`).
proof fn lemma_chunked_round_trip(buf: Seq<u8>, pos: int, chunks: Seq<Seq<u8>>, acc: Seq<u8>)
    requires
        0 <= pos,
        pos + chunked_encoding(chunks).len() <= buf.len(),
        buf.subrange(pos, pos + chunked_encoding(chunks).len()) == chunked_encoding(chunks),
        forall|i: int| 0 <= i < chunks.len() ==> 0 < #[trigger] chunks[i].len() <= usize::MAX,
    ensures
        chunked_from(buf, pos, acc) == ChunkedView::Complete(acc + concat_chunks(chunks)),
    decreases chunks.len(),
{
    let enc = chunked_encoding(chunks);
    if chunks.len() == 0 {
        lemma_last_chunk(buf, pos, acc);
        assert(acc + concat_chunks(chunks) =~= acc);
    } else {
        let data = chunks[0];
        let frame = chunk_frame(data);
        let fl = frame.len() as int;
        let rest = chunks.drop_first();
        let rest_enc = chunked_encoding(rest);
        assert(enc =~= frame + rest_enc);
        assert(buf.subrange(pos, pos + fl) =~= frame) by {
            assert forall|i: int| 0 <= i < fl implies #[trigger] buf.subrange(pos, pos + fl)[i] == frame[i] by {
                assert(buf[pos + i] == enc[i]);
            }
        }
        lemma_one_chunk(buf, pos, data, acc);
        assert(buf.subrange(pos + fl, pos + fl + rest_enc.len()) =~= rest_enc) by {
            assert forall|i: int| 0 <= i < rest_enc.len() implies #[trigger] buf.subrange(
                pos + fl,
                pos + fl + rest_enc.len(),
            )[i] == rest_enc[i] by {
                assert(buf[pos + fl + i] == enc[fl + i]);
            }
        }
        assert forall|i: int| 0 <= i < rest.len() implies 0 < #[trigger] rest[i].len() <= usize::MAX by {
            assert(rest[i] == chunks[i + 1]);
        }
        lemma_chunked_round_trip(buf, pos + fl, rest, acc + data);
        assert(acc + data + concat_chunks(rest) =~= acc + concat_chunks(chunks));
    }
}

/// The chunked reader reads back what a chunked writer sends: the framing of
/// any non-empty chunks, found right after the head, decodes to the chunks'
/// data concatenated (whatever follows the framing is not read).
pub proof fn law_chunked_round_trip(head: Seq<u8>, chunks: Seq<Seq<u8>>, after: Seq<u8>)
    requires
        forall|i: int| 0 <= i < chunks.len() ==> 0 < #[trigger] chunks[i].len() <= usize::MAX,
    ensures
        chunked_from(head + chunked_encoding(chunks) + after, head.len() as int, Seq::empty())
            == ChunkedView::Complete(concat_chunks(chunks)),
{
    let buf = head + chunked_encoding(chunks) + after;
    let enc = chunked_encoding(chunks);
    assert(buf.subrange(head.len() as int, head.len() as int + enc.len()) =~= enc);
    lemma_chunked_round_trip(buf, head.len() as int, chunks, Seq::empty());
    assert(Seq::<u8>::empty() + concat_chunks(chunks) =~= concat_chunks(chunks));
}

} // verus!

verus! {

// ---------------------------------------------------------------------------
// A decided chunked body stays decided.
// ---------------------------------------------------------------------------

proof fn lemma_first_crlf_extend(s: Seq<u8>, more: Seq<u8>)
    requires
        first_crlf(s) is Some,
    ensures
        first_crlf(s + more) == first_crlf(s),
{
    lemma_first_crlf(s);
    let k = first_crlf(s)->0;
    let t = s + more;
    assert forall|j: int| 0 <= j < k implies !#[trigger] crlf_at(t, j) by {
        assert(!crlf_at(s, j));
        assert(t[j] == s[j] && t[j + 1] == s[j + 1]);
    }
    assert(t[k] == s[k] && t[k + 1] == s[k + 1]);
    assert(is_first_crlf(t, k));
    lemma_first_crlf(t);
}

proof fn lemma_trailers_stable(buf: Seq<u8>, more: Seq<u8>, p: int, acc: Seq<u8>)
    requires
        chunked_trailers(buf, p, acc) !is Incomplete,
    ensures
        chunked_trailers(buf + more, p, acc) == chunked_trailers(buf, p, acc),
    decreases buf.len() - p,
{
    let ext = buf + more;
    let tail = buf.subrange(p, buf.len() as int);
    assert(ext.subrange(p, ext.len() as int) =~= tail + more);
    lemma_first_crlf_extend(tail, more);
    let k = first_crlf(tail)->0;
    if k != 0 && 0 <= k && p + k + 2 <= buf.len() {
        lemma_trailers_stable(buf, more, p + k + 2, acc);
    }
}

/// A chunked body that is decided stays decided: once the bytes read so far
/// decode to a complete body, or to broken framing, no further bytes change
/// the verdict. This is what lets the reader decide on whatever has arrived.
pub proof fn law_chunked_verdict_is_stable(buf: Seq<u8>, more: Seq<u8>, pos: int, acc: Seq<u8>)
    requires
        chunked_from(buf, pos, acc) !is Incomplete,
    ensures
        chunked_from(buf + more, pos, acc) == chunked_from(buf, pos, acc),
    decreases buf.len() - pos,
{
    let ext = buf + more;
    let tail = buf.subrange(pos, buf.len() as int);
    assert(ext.subrange(pos, ext.len() as int) =~= tail + more);
    lemma_first_crlf_extend(tail, more);
    let off = first_crlf(tail)->0;
    assert(ext.subrange(pos, pos + off) =~= buf.subrange(pos, pos + off));
    match chunk_size_of(buf.subrange(pos, pos + off)) {
        None => {},
        Some(size) => {
            let data = pos + off + 2;
            if size == 0 {
                lemma_trailers_stable(buf, more, data, acc);
            } else if buf.len() >= data + size + 2 {
                assert(ext[data + size] == buf[data + size]);
                assert(ext[data + size + 1] == buf[data + size + 1]);
                if crlf_at(buf, data + size) {
                    assert(ext.subrange(data, data + size) =~= buf.subrange(data, data + size));
                    law_chunked_verdict_is_stable(buf, more, data + size + 2, acc + buf.subrange(data, data + size));
                }
            }
        },
    }
}

} // verus!

verus! {

/// A decided response body stays decided: once the bytes after a known head
/// give a complete body or a framing error, further bytes change nothing.
pub proof fn law_body_verdict_is_stable(buf: Seq<u8>, more: Seq<u8>, head: DirectHeadView)
    requires
        head.headers_end <= buf.len(),
        body_step(buf, head) !is NeedMore,
    ensures
        body_step(buf + more, head) == body_step(buf, head),
{
    let end = head.headers_end as int;
    if head.chunked {
        law_chunked_verdict_is_stable(buf, more, end, Seq::empty());
    } else {
        let cl = head.cl as int;
        assert((buf + more).subrange(end, end + cl) =~= buf.subrange(end, end + cl));
    }
}

} // verus!

verus! {

/// The proxied path answers as the path that owns the response in full.
/// Both read the reply through `ResponseReader::step`, whose verdict is a
/// function of the head read so far and the bytes, so for the same bytes
/// they read the same head and body or fail with the same error. From that
/// head and body, a chunked upstream falls back to exactly the response
/// owned in full, and any other gives that response's status and body.
pub proof fn law_direct_path_matches_owned_path(
    head: DirectHeadView,
    body: Seq<u8>,
    start_ms: u128,
    close: bool,
    before: Seq<u8>,
    after: Seq<u8>,
    direct: DirectOutcome,
    owned: Response,
)
    requires
        direct_finished(direct, head, body, start_ms, close, before, after),
        owned_response(owned, head, body),
    ensures
        head.chunked ==> (direct matches DirectOutcome::Fallback(resp) && resp.status == owned.status
            && resp.reason == owned.reason && resp.header_rows() == owned.header_rows()
            && resp.body@ == owned.body@),
        !head.chunked ==> (direct matches DirectOutcome::Direct { status, body: b, .. } && status == owned.status
            && b@ == owned.body@),
{
}

} // verus!

verus! {

proof fn lemma_ascii_byte_len(s: Seq<char>)
    requires
        vstd::utf8::is_ascii_chars(s),
    ensures
        bytes_of(s).len() == s.len(),
{
    vstd::utf8::is_ascii_chars_encode_utf8(s);
}

/// The byte lengths of the header names the proxied head treats specially:
/// all different, so no name matches two of them.
proof fn lemma_special_name_lengths()
    ensures
        bytes_of(SERVER@).len() == 6,
        bytes_of(DATE@).len() == 4,
        bytes_of(CONNECTION@).len() == 10,
        bytes_of(TRANSFER_ENCODING@).len() == 17,
        bytes_of(CONTENT_LENGTH@).len() == 14,
{
    reveal_strlit("server");
    reveal_strlit("date");
    reveal_strlit("connection");
    reveal_strlit("transfer-encoding");
    reveal_strlit("content-length");
    lemma_ascii_byte_len(SERVER@);
    lemma_ascii_byte_len(DATE@);
    lemma_ascii_byte_len(CONNECTION@);
    lemma_ascii_byte_len(TRANSFER_ENCODING@);
    lemma_ascii_byte_len(CONTENT_LENGTH@);
}

/// Upstream rows go downstream independently of one another and in order:
/// the lines for `a` followed by `b` are those for `a`, then those for `b`.
pub proof fn law_direct_rows_in_order(a: Seq<(Seq<char>, Seq<char>)>, b: Seq<(Seq<char>, Seq<char>)>, date: Seq<char>)
    ensures
        direct_header_lines(a + b, date) == direct_header_lines(a, date) + direct_header_lines(b, date),
    decreases b.len(),
{
    if b.len() == 0 {
        assert(a + b =~= a);
    } else {
        assert((a + b).drop_last() =~= a + b.drop_last());
        assert((a + b).last() == b.last());
        law_direct_rows_in_order(a, b.drop_last(), date);
    }
}

/// What one upstream row becomes downstream: `server` is replaced by
/// `server: envoy-rust`, `date` by the proxy's date, `connection` and
/// `transfer-encoding` are dropped, `content-length` is passed through, and
/// every other row is kept: its name lowercased, `: `, its value, CRLF.
/// Names compare ignoring ASCII case.
pub proof fn law_direct_row(name: Seq<char>, value: Seq<char>, date: Seq<char>)
    ensures
        name_matches(name, SERVER@) ==> direct_header_lines(seq![(name, value)], date) == bytes_of(
            "server: envoy-rust\r\n"@,
        ),
        name_matches(name, DATE@) ==> direct_header_lines(seq![(name, value)], date) == bytes_of("date: "@)
            + bytes_of(date) + bytes_of("\r\n"@),
        name_matches(name, CONNECTION@) || name_matches(name, TRANSFER_ENCODING@) ==> direct_header_lines(
            seq![(name, value)],
            date,
        ).len() == 0,
        name_matches(name, CONTENT_LENGTH@) ==> direct_header_lines(seq![(name, value)], date) == bytes_of(
            "content-length: "@,
        ) + bytes_of(value) + bytes_of("\r\n"@),
        !name_matches(name, SERVER@) && !name_matches(name, DATE@) && !name_matches(name, CONNECTION@)
            && !name_matches(name, TRANSFER_ENCODING@) && !name_matches(name, CONTENT_LENGTH@)
            ==> direct_header_lines(seq![(name, value)], date) == lowercase_bytes(bytes_of(name)) + bytes_of(
            ": "@,
        ) + bytes_of(value) + bytes_of("\r\n"@),
{
    let rows = seq![(name, value)];
    assert(rows.drop_last() =~= Seq::<(Seq<char>, Seq<char>)>::empty());
    assert(rows.last() == (name, value));
    lemma_special_name_lengths();
    assert(direct_header_lines(rows.drop_last(), date) =~= Seq::<u8>::empty());
    assert(direct_header_lines(rows, date) == direct_header_lines(rows.drop_last(), date) + direct_header_line(
        name,
        value,
        date,
    ));
    assert(direct_header_lines(rows, date) =~= direct_header_line(name, value, date));
}

/// The downstream head begins with the status line and then, in order, the
/// line of every upstream row.
pub proof fn law_direct_head_starts_with_the_rows(
    head: DirectHeadView,
    date: Seq<char>,
    body_len: nat,
    elapsed_ms: nat,
    close: bool,
)
    ensures
        ({
            let start = direct_status_line(head.status, canonical_reason_of(head.status)) + direct_header_lines(
                head.headers,
                date,
            );
            &&& start.len() <= direct_head_wire(head, date, body_len, elapsed_ms, close).len()
            &&& direct_head_wire(head, date, body_len, elapsed_ms, close).subrange(0, start.len() as int) == start
        }),
{
    let start = direct_status_line(head.status, canonical_reason_of(head.status)) + direct_header_lines(
        head.headers,
        date,
    );
    let w = direct_head_wire(head, date, body_len, elapsed_ms, close);
    assert(w =~= start + (missing_defaults(head.headers, date, body_len) + direct_trailer(elapsed_ms, close)));
    assert(w.subrange(0, start.len() as int) =~= start);
}

/// Whether some row of `headers` is named `Host`, ignoring ASCII case.
pub open spec fn carries_host(headers: Seq<(Seq<char>, Seq<char>)>) -> bool {
    exists|i: int| 0 <= i < headers.len() && eq_ignore_ascii_case(bytes_of(#[trigger] headers[i].0), bytes_of(HOST@))
}

/// The request on the upstream wire carries exactly one `Host`: a request
/// with a `Host` row of its own, at any position and in any case, goes out
/// with just that row; one without gets `host: <connect-time host>` right
/// after the request line.
pub proof fn law_one_host_line(host: Seq<char>, req: RequestView, strip: bool)
    ensures
        ({
            let request_line = bytes_of(req.method) + bytes_of(" "@) + bytes_of(req.path) + bytes_of(
                " HTTP/1.1\r\n"@,
            );
            let rest = header_lines(req.headers, strip) + content_length_line(req) + bytes_of("\r\n"@)
                + body_view(req);
            &&& carries_host(req.headers) ==> request_wire(host, req, strip) == request_line + rest
            &&& !carries_host(req.headers) ==> request_wire(host, req, strip) == request_line + (bytes_of(
                "host: "@,
            ) + bytes_of(host) + bytes_of("\r\n"@)) + rest
        }),
{
    let request_line = bytes_of(req.method) + bytes_of(" "@) + bytes_of(req.path) + bytes_of(" HTTP/1.1\r\n"@);
    let rest = header_lines(req.headers, strip) + content_length_line(req) + bytes_of("\r\n"@) + body_view(req);
    if carries_host(req.headers) {
        let i = choose|i: int|
            0 <= i < req.headers.len() && eq_ignore_ascii_case(bytes_of(#[trigger] req.headers[i].0), bytes_of(HOST@));
        assert(name_matches(req.headers[i].0, HOST@));
        assert(host_line(host, req) =~= Seq::<u8>::empty());
        assert(request_wire(host, req, strip) =~= request_line + rest);
    } else {
        assert(!has_header(req.headers, HOST@));
        assert(request_wire(host, req, strip) =~= request_line + (bytes_of("host: "@) + bytes_of(host) + bytes_of(
            "\r\n"@,
        )) + rest);
    }
}

/// The request's rows go upstream independently of one another and in
/// order: the lines for `a` followed by `b` are those for `a`, then those
/// for `b`.
pub proof fn law_request_rows_in_order(
    a: Seq<(Seq<char>, Seq<char>)>,
    b: Seq<(Seq<char>, Seq<char>)>,
    strip: bool,
)
    ensures
        header_lines(a + b, strip) == header_lines(a, strip) + header_lines(b, strip),
    decreases b.len(),
{
    if b.len() == 0 {
        assert(a + b =~= a);
    } else {
        assert((a + b).drop_last() =~= a + b.drop_last());
        assert((a + b).last() == b.last());
        law_request_rows_in_order(a, b.drop_last(), strip);
    }
}

/// What one request row becomes upstream: its name lowercased, `: `, its
/// value, CRLF; only when hop-by-hop headers are stripped does a
/// `connection` or `transfer-encoding` row (any case) go out as nothing.
pub proof fn law_request_row(name: Seq<char>, value: Seq<char>, strip: bool)
    ensures
        strip && (name_matches(name, CONNECTION@) || name_matches(name, TRANSFER_ENCODING@)) ==> header_lines(
            seq![(name, value)],
            strip,
        ).len() == 0,
        !(strip && (name_matches(name, CONNECTION@) || name_matches(name, TRANSFER_ENCODING@))) ==> header_lines(
            seq![(name, value)],
            strip,
        ) == lowercase_bytes(bytes_of(name)) + bytes_of(": "@) + bytes_of(value) + bytes_of("\r\n"@),
{
    let rows = seq![(name, value)];
    assert(rows.drop_last() =~= Seq::<(Seq<char>, Seq<char>)>::empty());
    assert(rows.last() == (name, value));
    assert(header_lines(rows.drop_last(), strip) =~= Seq::<u8>::empty());
    assert(header_lines(rows, strip) =~= (if strip && is_hop_header(name) {
        Seq::<u8>::empty()
    } else {
        header_line(name, value)
    }));
}

} // verus!
