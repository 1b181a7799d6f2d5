# envoy_http1

The HTTP/1.1 layer of an Envoy-compatible proxy: request parsing, the
upstream client's wire format and response framing, and the connection
manager's decisions (route walk, local replies, redirects, retries,
access-log fields). The library in `src/` is written in Verus; every
function states its behaviour in `requires`/`ensures` and is proved.

Layout:

- `src/codec.rs` — request heads over `httparse::Request`.
- `src/client.rs` — the request wire, response heads over
  `httparse::Response`, the chunked decoder, the response reader, and the
  proxied-response head serializer.
- `src/routing.rs`, `src/route.rs` — the route table and the router call site.
- `src/hcm.rs` — request framing checks, local replies, redirects,
  decoration, access-log fields, and the per-connection step function
  (parse, read, handle, keep-alive or close).
- `src/response.rs` — the response value, canonical reason phrases, and the
  response wire form.
- `src/proxy.rs` — upstream attempt classification and the retry loop.
- `src/date.rs` — IMF-fixdate from a proved civil-calendar model.
- `src/grpc.rs`, `src/headers.rs`, `src/text.rs` — shared pieces.
- `app/` — the tokio socket side: connecting, writing, feeding bytes to
  the response reader, and running the downstream connection loop that the
  step function drives, and answering a request over the route table.
- `tests/` — executable tests against the compiled library.
