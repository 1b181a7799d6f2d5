//! Error type for the HTTP/1.1 codec.

use vstd::prelude::*;

verus! {

#[verifier::external_type_specification]
#[verifier::external_body]
pub struct ExIoError(std::io::Error);

/// Everything the codec can reject. `Io` carries a transport failure from
/// whoever drives the codec over a socket.
#[derive(Debug)]
pub enum Http1Error {
    /// Malformed request line.
    MalformedRequestLine,
    /// Malformed header (bad token, missing colon, etc.).
    MalformedHeader,
    /// Request headers exceed the cap of `cap` bytes.
    HeadersTooLarge { cap: usize },
    /// Request body exceeds the cap of `cap` bytes.
    BodyTooLarge { cap: usize },
    /// Unexpected EOF mid-message.
    UnexpectedEof,
    /// Malformed upstream response status line.
    MalformedResponseLine,
    /// Malformed chunked transfer-coding framing.
    MalformedChunkedFraming,
    /// I/O failure.
    Io { source: std::io::Error },
}

impl From<std::io::Error> for Http1Error {
    fn from(source: std::io::Error) -> (r: Self)
        ensures
            r == (Http1Error::Io { source }),
    {
        Http1Error::Io { source }
    }
}

impl vstd::std_specs::convert::FromSpecImpl<std::io::Error> for Http1Error {
    open spec fn obeys_from_spec() -> bool {
        true
    }

    open spec fn from_spec(source: std::io::Error) -> Self {
        Http1Error::Io { source }
    }
}

} // verus!
