//! gRPC-aware local replies over HTTP/1.1: request detection and the
//! HTTP-to-gRPC status mapping.

use crate::headers::{find_header, headers_view, lookup, CONTENT_TYPE};
use crate::text::{bytes_eq, bytes_of, bytes_starts_with};
use vstd::prelude::*;

verus! {

/// The `content-type` value that, alone, marks a gRPC request.
pub const GRPC_EXACT: &'static str = "application/grpc";

/// The prefix form: anything after `+` (including nothing) still counts.
pub const GRPC_PLUS_PREFIX: &'static str = "application/grpc+";

/// Whether a `content-type` value marks a gRPC request: exactly
/// `application/grpc`, or beginning with `application/grpc+`. The comparison
/// is byte-exact (case-sensitive, no trimming, no parameters).
pub open spec fn is_grpc_content_type(v: Seq<char>) -> bool {
    let b = bytes_of(v);
    let prefix = bytes_of(GRPC_PLUS_PREFIX@);
    b == bytes_of(GRPC_EXACT@) || (prefix.len() <= b.len() && b.subrange(0, prefix.len() as int) == prefix)
}

/// Does this request carry a gRPC `content-type`? The header NAME lookup is
/// case-insensitive and takes the first `content-type` row; only the VALUE
/// comparison is byte-exact.
pub fn is_grpc_request(headers: &[(String, String)]) -> (r: bool)
    ensures
        r == match lookup(headers_view(headers@), CONTENT_TYPE@) {
            Some(v) => is_grpc_content_type(v),
            None => false,
        },
{
    match find_header(headers, CONTENT_TYPE) {
        Some(value) => {
            let b = value.as_bytes();
            bytes_eq(b, GRPC_EXACT.as_bytes()) || bytes_starts_with(b, GRPC_PLUS_PREFIX.as_bytes())
        },
        None => false,
    }
}

/// The gRPC status for an HTTP status: a sparse eight-entry table over a
/// default of 2 (UNKNOWN).
pub open spec fn grpc_status_of(status: u16) -> u8 {
    if status == 400 {
        13
    } else if status == 401 {
        16
    } else if status == 403 {
        7
    } else if status == 404 {
        12
    } else if status == 429 || status == 502 || status == 503 || status == 504 {
        14
    } else {
        2
    }
}

/// Map an HTTP status onto a gRPC status code: `400→13`, `401→16`, `403→7`,
/// `404→12`, `429/502/503/504→14`, everything else `2`.
pub fn http_to_grpc_status(status: u16) -> (r: u8)
    ensures
        r == grpc_status_of(status),
{
    match status {
        400 => 13,
        401 => 16,
        403 => 7,
        404 => 12,
        429 | 502 | 503 | 504 => 14,
        _ => 2,
    }
}

} // verus!
