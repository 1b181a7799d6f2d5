//! HTTP/1.1 request codec over `httparse::Request::parse`.

use crate::error::Http1Error;
use crate::headers::headers_view;
use crate::text::{bytes_of, decimal_bytes, decimal, string_from_utf8, utf8_str};
use vstd::prelude::*;
use vstd::utf8::{decode_utf8, valid_utf8};

verus! {

/// Maximum size of the request headers section, in bytes.
pub const HEADERS_CAP: usize = 8192;

/// Maximum number of header rows in a single request.
pub const MAX_HEADERS: usize = 64;

#[derive(Debug, Clone, Copy, PartialEq, Eq, Structural)]
pub enum HttpVersion {
    Http10,
    Http11,
}

#[derive(Debug, PartialEq, Eq)]
pub struct Request {
    /// Method as parsed (case preserved).
    pub method: String,
    /// Request-target, byte-for-byte as received.
    pub path: String,
    pub version: HttpVersion,
    /// Header rows in emission order, names case-preserved.
    pub headers: Vec<(String, String)>,
    /// Bytes consumed from the input buffer to produce this request
    /// (the offset of the body, if any).
    pub bytes_consumed: usize,
    /// Outgoing body bytes; the incoming-side parser leaves it `None`, which
    /// counts as an empty body.
    pub body: Option<Vec<u8>>,
}

/// The mathematical content of a [`Request`].
pub struct RequestView {
    pub method: Seq<char>,
    pub path: Seq<char>,
    pub version: HttpVersion,
    pub headers: Seq<(Seq<char>, Seq<char>)>,
    pub bytes_consumed: usize,
    pub body: Option<Seq<u8>>,
}

impl View for Request {
    type V = RequestView;

    open spec fn view(&self) -> RequestView {
        RequestView {
            method: self.method@,
            path: self.path@,
            version: self.version,
            headers: headers_view(self.headers@),
            bytes_consumed: self.bytes_consumed,
            body: match self.body {
                Some(b) => Some(b@),
                None => None,
            },
        }
    }
}

impl RequestView {
    /// The body length, with no body counting as zero bytes.
    pub open spec fn body_len(self) -> nat {
        match self.body {
            Some(b) => b.len(),
            None => 0,
        }
    }
}

impl Request {
    /// Byte-length of the outgoing body, for `Content-Length:`; `None` is 0.
    pub fn body_len_estimate(&self) -> (r: usize)
        ensures
            r == self@.body_len(),
    {
        match &self.body {
            Some(b) => b.len(),
            None => 0,
        }
    }

    /// The body length in decimal.
    pub fn body_len_string(&self) -> (r: String)
        ensures
            bytes_of(r@) == decimal(self@.body_len()),
    {
        let digits = decimal_bytes(self.body_len_estimate() as u128);
        proof {
            crate::text::lemma_decimal_ascii(self@.body_len());
            crate::text::lemma_ascii_valid_utf8(digits@);
        }
        string_from_utf8(digits.as_slice())
    }

    /// The body bytes, if any.
    pub fn body_bytes(&self) -> (r: Option<&[u8]>)
        ensures
            match r {
                Some(b) => self@.body == Some(b@),
                None => self@.body is None,
            },
    {
        match &self.body {
            Some(b) => Some(b.as_slice()),
            None => None,
        }
    }
}

/// How far a head parse got.
#[derive(Debug, Clone, Copy, PartialEq, Eq, Structural)]
pub enum ParseStatus {
    /// The head is complete; it ends at this byte offset.
    Complete(usize),
    /// More bytes are needed.
    Partial,
    /// The bytes cannot be a head.
    Invalid(ParseErrorKind),
}

/// The reasons a head parse rejects its input.
#[derive(Debug, Clone, Copy, PartialEq, Eq, Structural)]
pub enum ParseErrorKind {
    HeaderName,
    HeaderValue,
    NewLine,
    Status,
    Token,
    TooManyHeaders,
    Version,
}

/// A request head as the parser left it: the status, the request-line
/// parts it reached, and the header rows (name, raw value bytes).
pub struct ParsedRequestHead {
    pub status: ParseStatus,
    pub method: Option<String>,
    pub path: Option<String>,
    pub version: Option<u8>,
    pub headers: Vec<(String, Vec<u8>)>,
}

pub struct ParsedRequestHeadView {
    pub status: ParseStatus,
    pub method: Option<Seq<char>>,
    pub path: Option<Seq<char>>,
    pub version: Option<u8>,
    pub headers: Seq<(Seq<char>, Seq<u8>)>,
}

pub open spec fn opt_string_view(s: Option<String>) -> Option<Seq<char>> {
    match s {
        Some(v) => Some(v@),
        None => None,
    }
}

pub open spec fn raw_headers_view(h: Seq<(String, Vec<u8>)>) -> Seq<(Seq<char>, Seq<u8>)> {
    h.map_values(|x: (String, Vec<u8>)| (x.0@, x.1@))
}

impl View for ParsedRequestHead {
    type V = ParsedRequestHeadView;

    open spec fn view(&self) -> ParsedRequestHeadView {
        ParsedRequestHeadView {
            status: self.status,
            method: opt_string_view(self.method),
            path: opt_string_view(self.path),
            version: self.version,
            headers: raw_headers_view(self.headers@),
        }
    }
}

/// What `httparse::Request::parse` makes of `buf` with room for
/// `max_headers` header rows.
pub uninterp spec fn httparse_request(buf: Seq<u8>, max_headers: nat) -> ParsedRequestHeadView;

#[verifier::external_type_specification]
#[verifier::external_body]
pub struct ExHttparseError(httparse::Error);

#[verifier::external_type_specification]
#[verifier::external_body]
#[verifier::reject_recursive_types(T)]
pub struct ExHttparseStatus<T>(httparse::Status<T>);

/// Converts an `httparse` parse result into a [`ParseStatus`], variant for
/// variant; the request and response parser wrappers share it. Nothing is
/// stated of it here: its argument is an opaque `httparse` value, and what
/// the parsers report is stated by the wrappers that call it.
#[verifier::external_body]
pub(crate) fn parse_status(r: Result<httparse::Status<usize>, httparse::Error>) -> ParseStatus {
    match r {
        Ok(httparse::Status::Complete(n)) => ParseStatus::Complete(n),
        Ok(httparse::Status::Partial) => ParseStatus::Partial,
        Err(httparse::Error::HeaderName) => ParseStatus::Invalid(ParseErrorKind::HeaderName),
        Err(httparse::Error::HeaderValue) => ParseStatus::Invalid(ParseErrorKind::HeaderValue),
        Err(httparse::Error::NewLine) => ParseStatus::Invalid(ParseErrorKind::NewLine),
        Err(httparse::Error::Status) => ParseStatus::Invalid(ParseErrorKind::Status),
        Err(httparse::Error::Token) => ParseStatus::Invalid(ParseErrorKind::Token),
        Err(httparse::Error::TooManyHeaders) => ParseStatus::Invalid(ParseErrorKind::TooManyHeaders),
        Err(httparse::Error::Version) => ParseStatus::Invalid(ParseErrorKind::Version),
    }
}

/// `httparse::Request::parse` on `buf` with `max_headers` header slots; the
/// result is copied out as owned values.
#[verifier::external_body]
pub(crate) fn parse_request_head(buf: &[u8], max_headers: usize) -> (r: ParsedRequestHead)
    ensures
        r@ == httparse_request(buf@, max_headers as nat),
{
    let mut storage = vec![httparse::EMPTY_HEADER; max_headers];
    let mut parsed = httparse::Request::new(&mut storage);
    let status = parse_status(parsed.parse(buf));
    ParsedRequestHead {
        status,
        method: parsed.method.map(str::to_string),
        path: parsed.path.map(str::to_string),
        version: parsed.version,
        headers: parsed.headers.iter().map(|h| (h.name.to_string(), h.value.to_vec())).collect(),
    }
}

/// A header value as text: the bytes decoded as UTF-8, or empty when they
/// are not UTF-8.
pub open spec fn value_text(value: Seq<u8>) -> Seq<char> {
    if valid_utf8(value) { decode_utf8(value) } else { Seq::empty() }
}

/// The header rows kept from a parsed head: rows with an empty name are
/// dropped, values become text.
pub open spec fn kept_headers(h: Seq<(Seq<char>, Seq<u8>)>) -> Seq<(Seq<char>, Seq<char>)>
    decreases h.len(),
{
    if h.len() == 0 {
        Seq::empty()
    } else {
        let rest = kept_headers(h.drop_last());
        let last = h.last();
        if last.0.len() == 0 { rest } else { rest.push((last.0, value_text(last.1))) }
    }
}

/// The error the codec reports for a parser rejection.
pub open spec fn request_error(kind: ParseErrorKind) -> Http1Error {
    match kind {
        ParseErrorKind::TooManyHeaders => Http1Error::HeadersTooLarge { cap: HEADERS_CAP },
        ParseErrorKind::HeaderName | ParseErrorKind::HeaderValue | ParseErrorKind::NewLine
        | ParseErrorKind::Status => Http1Error::MalformedHeader,
        ParseErrorKind::Token | ParseErrorKind::Version => Http1Error::MalformedRequestLine,
    }
}

/// The outcome of parsing a request out of `buf_len` bytes whose head the
/// parser reported as `p`.
pub open spec fn request_outcome(buf_len: nat, p: ParsedRequestHeadView) -> Result<Option<RequestView>, Http1Error> {
    match p.status {
        ParseStatus::Partial => if buf_len > HEADERS_CAP {
            Err(Http1Error::HeadersTooLarge { cap: HEADERS_CAP })
        } else {
            Ok(None)
        },
        ParseStatus::Invalid(kind) => Err(request_error(kind)),
        ParseStatus::Complete(n) => match p.version {
            Some(v) => if v == 0 || v == 1 {
                Ok(Some(RequestView {
                    method: match p.method { Some(m) => m, None => Seq::empty() },
                    path: match p.path { Some(x) => x, None => Seq::empty() },
                    version: if v == 0 { HttpVersion::Http10 } else { HttpVersion::Http11 },
                    headers: kept_headers(p.headers),
                    bytes_consumed: n,
                    body: None,
                }))
            } else {
                Err(Http1Error::MalformedRequestLine)
            },
            None => Err(Http1Error::MalformedRequestLine),
        },
    }
}

pub open spec fn request_result_view(r: Result<Option<Request>, Http1Error>) -> Result<Option<RequestView>, Http1Error> {
    match r {
        Ok(Some(req)) => Ok(Some(req@)),
        Ok(None) => Ok(None),
        Err(e) => Err(e),
    }
}

/// Decodes header value bytes as UTF-8, yielding the empty string when they
/// are not UTF-8.
fn value_to_string(value: &[u8]) -> (r: String)
    ensures
        r@ == value_text(value@),
{
    match utf8_str(value) {
        Some(s) => {
            proof {
                vstd::utf8::encode_utf8_decode_utf8(s@);
            }
            s.to_owned()
        },
        None => String::new(),
    }
}

fn owned_or_empty(s: &Option<String>) -> (r: String)
    ensures
        r@ == match opt_string_view(*s) { Some(v) => v, None => Seq::empty() },
{
    match s {
        Some(v) => v.clone(),
        None => String::new(),
    }
}

pub struct Http1Codec;

impl Http1Codec {
    /// Build the request (or the verdict) from a head the parser reported
    /// for a buffer of `buf_len` bytes.
    pub fn request_from_head(buf_len: usize, parsed: &ParsedRequestHead) -> (r: Result<Option<Request>, Http1Error>)
        ensures
            request_result_view(r) == request_outcome(buf_len as nat, parsed@),
    {
        let bytes_consumed = match parsed.status {
            ParseStatus::Complete(n) => n,
            ParseStatus::Partial => {
                if buf_len > HEADERS_CAP {
                    return Err(Http1Error::HeadersTooLarge { cap: HEADERS_CAP });
                }
                return Ok(None);
            },
            ParseStatus::Invalid(ParseErrorKind::TooManyHeaders) => {
                return Err(Http1Error::HeadersTooLarge { cap: HEADERS_CAP });
            },
            ParseStatus::Invalid(ParseErrorKind::HeaderName)
            | ParseStatus::Invalid(ParseErrorKind::HeaderValue)
            | ParseStatus::Invalid(ParseErrorKind::NewLine)
            | ParseStatus::Invalid(ParseErrorKind::Status) => {
                return Err(Http1Error::MalformedHeader);
            },
            ParseStatus::Invalid(ParseErrorKind::Token)
            | ParseStatus::Invalid(ParseErrorKind::Version) => {
                return Err(Http1Error::MalformedRequestLine);
            },
        };
        let method = owned_or_empty(&parsed.method);
        let path = owned_or_empty(&parsed.path);
        let version = match parsed.version {
            Some(0) => HttpVersion::Http10,
            Some(1) => HttpVersion::Http11,
            _ => return Err(Http1Error::MalformedRequestLine),
        };
        let mut headers: Vec<(String, String)> = Vec::new();
        let mut i: usize = 0;
        let ghost raw = raw_headers_view(parsed.headers@);
        while i < parsed.headers.len()
            invariant
                0 <= i <= parsed.headers@.len(),
                raw == raw_headers_view(parsed.headers@),
                headers_view(headers@) == kept_headers(raw.take(i as int)),
            decreases parsed.headers@.len() - i,
        {
            proof {
                assert(raw.take(i + 1).drop_last() =~= raw.take(i as int));
            }
            let name: &String = &parsed.headers[i].0;
            if name.as_str().as_bytes().len() != 0 {
                let value = value_to_string(parsed.headers[i].1.as_slice());
                headers.push((name.clone(), value));
                proof {
                    assert(headers_view(headers@) =~= kept_headers(raw.take(i + 1)));
                }
            } else {
                proof {
                    assert(name@.len() == 0) by {
                        if name@.len() != 0 {
                            let c = name@;
                            assert(bytes_of(c).len() > 0) by {
                                reveal_with_fuel(vstd::utf8::encode_utf8, 1);
                            }
                        }
                    }
                }
            }
            i += 1;
        }
        proof {
            assert(raw.take(parsed.headers@.len() as int) =~= raw);
        }
        Ok(Some(Request { method, path, version, headers, bytes_consumed, body: None }))
    }

    /// Attempt to parse a single HTTP/1.1 request from `buf`. Returns
    /// `Ok(Some(req))` on a fully-parsed request; `Ok(None)` when `buf` does
    /// not yet hold a complete request; `Err(HeadersTooLarge)` past the
    /// headers cap without a complete head; `Err(MalformedRequestLine)` /
    /// `Err(MalformedHeader)` on malformed input.
    pub fn parse_request(buf: &[u8]) -> (r: Result<Option<Request>, Http1Error>)
        ensures
            request_result_view(r) == request_outcome(
                buf@.len(),
                httparse_request(buf@, MAX_HEADERS as nat),
            ),
    {
        let parsed = parse_request_head(buf, MAX_HEADERS);
        Self::request_from_head(buf.len(), &parsed)
    }
}

} // verus!

verus! {

/// A parsed request carries the request line exactly as the parser read
/// it: its method, and its request-target whole (query and all) as the
/// path; the head ends where the parser says it does.
pub proof fn law_request_line_is_kept_whole(buf_len: nat, p: ParsedRequestHeadView)
    ensures
        request_outcome(buf_len, p) matches Ok(Some(v)) ==> {
            &&& p.status matches ParseStatus::Complete(n) && v.bytes_consumed == n
            &&& p.path matches Some(x) ==> v.path == x
            &&& p.path is None ==> v.path.len() == 0
            &&& p.method matches Some(m) ==> v.method == m
            &&& v.body is None
        },
{
}

} // verus!
