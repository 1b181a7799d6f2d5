//! The HTTP/1.1 response value that local replies and proxied responses share.

use crate::headers::headers_view;
use crate::text::{bytes_of, decimal, push_decimal, push_slice, push_str};
use vstd::prelude::*;

verus! {

/// A response: status, optional reason phrase (`None` means the canonical
/// phrase for the status), header rows in emission order, and body bytes.
#[derive(Debug)]
pub struct Response {
    pub status: u16,
    pub reason: Option<&'static str>,
    pub headers: Vec<(String, String)>,
    pub body: Vec<u8>,
}

/// The canonical reason phrase of a status code: the registered phrase of
/// each registered code; a code with no registered phrase gets `OK`.
pub open spec fn canonical_reason_of(status: u16) -> Seq<char> {
    match status {
        100 => "Continue"@,
        101 => "Switching Protocols"@,
        102 => "Processing"@,
        103 => "Early Hints"@,
        200 => "OK"@,
        201 => "Created"@,
        202 => "Accepted"@,
        203 => "Non-Authoritative Information"@,
        204 => "No Content"@,
        205 => "Reset Content"@,
        206 => "Partial Content"@,
        207 => "Multi-Status"@,
        208 => "Already Reported"@,
        226 => "IM Used"@,
        300 => "Multiple Choices"@,
        301 => "Moved Permanently"@,
        302 => "Found"@,
        303 => "See Other"@,
        304 => "Not Modified"@,
        305 => "Use Proxy"@,
        307 => "Temporary Redirect"@,
        308 => "Permanent Redirect"@,
        400 => "Bad Request"@,
        401 => "Unauthorized"@,
        402 => "Payment Required"@,
        403 => "Forbidden"@,
        404 => "Not Found"@,
        405 => "Method Not Allowed"@,
        406 => "Not Acceptable"@,
        407 => "Proxy Authentication Required"@,
        408 => "Request Timeout"@,
        409 => "Conflict"@,
        410 => "Gone"@,
        411 => "Length Required"@,
        412 => "Precondition Failed"@,
        413 => "Payload Too Large"@,
        414 => "URI Too Long"@,
        415 => "Unsupported Media Type"@,
        416 => "Range Not Satisfiable"@,
        417 => "Expectation Failed"@,
        418 => "I'm a teapot"@,
        421 => "Misdirected Request"@,
        422 => "Unprocessable Entity"@,
        423 => "Locked"@,
        424 => "Failed Dependency"@,
        425 => "Too Early"@,
        426 => "Upgrade Required"@,
        428 => "Precondition Required"@,
        429 => "Too Many Requests"@,
        431 => "Request Header Fields Too Large"@,
        451 => "Unavailable For Legal Reasons"@,
        500 => "Internal Server Error"@,
        501 => "Not Implemented"@,
        502 => "Bad Gateway"@,
        503 => "Service Unavailable"@,
        504 => "Gateway Timeout"@,
        505 => "HTTP Version Not Supported"@,
        506 => "Variant Also Negotiates"@,
        507 => "Insufficient Storage"@,
        508 => "Loop Detected"@,
        510 => "Not Extended"@,
        511 => "Network Authentication Required"@,
        _ => "OK"@,
    }
}

/// The reason phrase written for `status` when a response carries none.
pub fn canonical_reason(status: u16) -> (r: &'static str)
    ensures
        r@ == canonical_reason_of(status),
{
    match status {
        100 => "Continue",
        101 => "Switching Protocols",
        102 => "Processing",
        103 => "Early Hints",
        200 => "OK",
        201 => "Created",
        202 => "Accepted",
        203 => "Non-Authoritative Information",
        204 => "No Content",
        205 => "Reset Content",
        206 => "Partial Content",
        207 => "Multi-Status",
        208 => "Already Reported",
        226 => "IM Used",
        300 => "Multiple Choices",
        301 => "Moved Permanently",
        302 => "Found",
        303 => "See Other",
        304 => "Not Modified",
        305 => "Use Proxy",
        307 => "Temporary Redirect",
        308 => "Permanent Redirect",
        400 => "Bad Request",
        401 => "Unauthorized",
        402 => "Payment Required",
        403 => "Forbidden",
        404 => "Not Found",
        405 => "Method Not Allowed",
        406 => "Not Acceptable",
        407 => "Proxy Authentication Required",
        408 => "Request Timeout",
        409 => "Conflict",
        410 => "Gone",
        411 => "Length Required",
        412 => "Precondition Failed",
        413 => "Payload Too Large",
        414 => "URI Too Long",
        415 => "Unsupported Media Type",
        416 => "Range Not Satisfiable",
        417 => "Expectation Failed",
        418 => "I'm a teapot",
        421 => "Misdirected Request",
        422 => "Unprocessable Entity",
        423 => "Locked",
        424 => "Failed Dependency",
        425 => "Too Early",
        426 => "Upgrade Required",
        428 => "Precondition Required",
        429 => "Too Many Requests",
        431 => "Request Header Fields Too Large",
        451 => "Unavailable For Legal Reasons",
        500 => "Internal Server Error",
        501 => "Not Implemented",
        502 => "Bad Gateway",
        503 => "Service Unavailable",
        504 => "Gateway Timeout",
        505 => "HTTP Version Not Supported",
        506 => "Variant Also Negotiates",
        507 => "Insufficient Storage",
        508 => "Loop Detected",
        510 => "Not Extended",
        511 => "Network Authentication Required",
        _ => "OK",
    }
}

impl Response {
    /// The header rows as character sequences.
    pub open spec fn header_rows(&self) -> Seq<(Seq<char>, Seq<char>)> {
        headers_view(self.headers@)
    }

    /// The status line's phrase: the response's own, else the canonical one.
    pub open spec fn reason_text(&self) -> Seq<char> {
        match self.reason {
            Some(p) => p@,
            None => canonical_reason_of(self.status),
        }
    }
}

/// `name: value` lines, one per row, in order.
pub open spec fn header_lines(rows: Seq<(Seq<char>, Seq<char>)>) -> Seq<u8>
    decreases rows.len(),
{
    if rows.len() == 0 {
        Seq::empty()
    } else {
        header_lines(rows.drop_last()) + bytes_of(rows.last().0) + bytes_of(": "@) + bytes_of(rows.last().1)
            + bytes_of("\r\n"@)
    }
}

/// The HTTP/1.1 wire form of a response: the status line with its reason
/// phrase, the header rows in order, a blank line, the body.
pub open spec fn response_wire(r: Response) -> Seq<u8> {
    bytes_of("HTTP/1.1 "@) + decimal(r.status as nat) + bytes_of(" "@) + bytes_of(r.reason_text()) + bytes_of(
        "\r\n"@,
    ) + header_lines(r.header_rows()) + bytes_of("\r\n"@) + r.body@
}

/// Serialize `resp` into `out` (cleared first), ready to be written to the
/// downstream socket.
pub fn serialize_response(out: &mut Vec<u8>, resp: &Response)
    ensures
        final(out)@ == response_wire(*resp),
{
    out.clear();
    push_str(out, "HTTP/1.1 ");
    push_decimal(out, resp.status as u128);
    push_str(out, " ");
    let reason: &str = match resp.reason {
        Some(p) => p,
        None => canonical_reason(resp.status),
    };
    push_str(out, reason);
    push_str(out, "\r\n");
    let ghost status_line = out@;
    let ghost view = resp.header_rows();
    let mut i: usize = 0;
    while i < resp.headers.len()
        invariant
            0 <= i <= resp.headers@.len(),
            view == headers_view(resp.headers@),
            out@ == status_line + header_lines(view.take(i as int)),
        decreases resp.headers@.len() - i,
    {
        proof {
            assert(view.take(i + 1).drop_last() =~= view.take(i as int));
            assert(view.take(i + 1).last() == (resp.headers@[i as int].0@, resp.headers@[i as int].1@));
        }
        push_str(out, resp.headers[i].0.as_str());
        push_str(out, ": ");
        push_str(out, resp.headers[i].1.as_str());
        push_str(out, "\r\n");
        i += 1;
    }
    proof {
        assert(view.take(resp.headers@.len() as int) =~= view);
    }
    push_str(out, "\r\n");
    push_slice(out, resp.body.as_slice());
    proof {
        assert(out@ =~= response_wire(*resp));
    }
}

} // verus!
