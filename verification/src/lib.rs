//! HTTP/1.1 codec, upstream client framing and connection-manager decisions
//! for an Envoy-compatible proxy, with their contracts proved by Verus.

pub mod client;
pub mod codec;
pub mod date;
pub mod date_names;
pub mod error;
pub mod grpc;
pub mod hcm;
pub mod headers;
pub mod proxy;
pub mod response;
pub mod route;
pub mod routing;
pub mod text;

pub use client::Client;
pub use codec::{Http1Codec, HttpVersion, Request};
pub use error::Http1Error;
pub use response::Response;
pub use routing::{build_response_in, BuildOutcome};
