//! The route walk: first virtual host whose domains answer the request's
//! `Host` (port stripped), then its first route whose path criterion and
//! further criteria accept the request, then the route's action.

use crate::codec::{Request, RequestView};
use crate::hcm::{
    is_http_date, plan_redirect, redirect_headers, redirect_location, RedirectPlan,
    redirect_rewritten_path, standard_headers, strip_port, strip_port_bytes, synth_400, synth_404,
    synth_501, synth_direct_response, synth_redirect,
};
use crate::headers::{find_header, lookup, HOST};
use crate::response::Response;
use crate::route::{DirectResponse, RedirectAction, Route, RouteAction, RouteConfiguration, RouteMatch, VirtualHost};
use crate::text::{bytes_eq, bytes_of, bytes_starts_with, eq_ignore_ascii_case, str_eq_ignore_ascii_case};
use std::sync::Arc;
use vstd::prelude::*;

verus! {

// ---------------------------------------------------------------------------
// Matching.
// ---------------------------------------------------------------------------

/// A `domains` entry answers a host: `*` answers any, anything else must
/// equal the host ignoring ASCII case.
pub open spec fn domain_matches(domain: Seq<char>, host: Seq<u8>) -> bool {
    domain == "*"@ || eq_ignore_ascii_case(bytes_of(domain), host)
}

/// Some domain of `vh` answers `host`.
pub open spec fn vh_answers(vh: VirtualHost, host: Seq<u8>) -> bool {
    exists|i: int| 0 <= i < vh.domains@.len() && domain_matches(#[trigger] vh.domains@[i]@, host)
}

fn str_is(a: &str, b: &str) -> (r: bool)
    ensures
        r == (a@ == b@),
{
    let r = bytes_eq(a.as_bytes(), b.as_bytes());
    proof {
        vstd::utf8::encode_utf8_decode_utf8(a@);
        vstd::utf8::encode_utf8_decode_utf8(b@);
    }
    r
}

/// Whether some domain of `vh` answers `host`.
pub fn vh_matches(vh: &VirtualHost, host: &str) -> (r: bool)
    ensures
        r == vh_answers(*vh, bytes_of(host@)),
{
    let mut i: usize = 0;
    while i < vh.domains.len()
        invariant
            0 <= i <= vh.domains@.len(),
            forall|j: int| 0 <= j < i ==> !domain_matches(#[trigger] vh.domains@[j]@, bytes_of(host@)),
        decreases vh.domains@.len() - i,
    {
        let d = vh.domains[i].as_str();
        if str_is(d, "*") || str_eq_ignore_ascii_case(d, host) {
            assert(domain_matches(vh.domains@[i as int]@, bytes_of(host@)));
            return true;
        }
        i += 1;
    }
    false
}

/// A route's path criterion: `prefix` is a byte prefix of the path, or
/// `path` equals it; a match with both or neither set accepts nothing.
pub open spec fn path_matches(m: RouteMatch, path: Seq<char>) -> bool {
    match (m.prefix, m.path) {
        (Some(p), None) => bytes_of(p@).len() <= bytes_of(path).len() && bytes_of(path).take(
            bytes_of(p@).len() as int,
        ) == bytes_of(p@),
        (None, Some(p)) => path == p@,
        _ => false,
    }
}

/// Whether route `r` accepts `path`, given the verdict `criteria` of its
/// header matchers and runtime fraction.
pub fn route_matches(r: &Route, path: &str, criteria: bool) -> (b: bool)
    ensures
        b == (criteria && path_matches(r.route_match, path@)),
{
    if !criteria {
        return false;
    }
    match (&r.route_match.prefix, &r.route_match.path) {
        (Some(p), None) => {
            let b = bytes_starts_with(path.as_bytes(), p.as_str().as_bytes());
            proof {
                let pb = bytes_of(p@);
                if pb.len() <= bytes_of(path@).len() {
                    assert(bytes_of(path@).subrange(0, pb.len() as int) =~= bytes_of(path@).take(pb.len() as int));
                }
            }
            b
        },
        (None, Some(p)) => str_is(path, p.as_str()),
        _ => false,
    }
}

/// The verdict of the further criteria (header matchers, runtime fraction)
/// for route `r` of virtual host `v`; a route with no entry has none.
pub open spec fn criteria_at(criteria: Seq<Vec<bool>>, v: int, r: int) -> bool {
    if 0 <= v < criteria.len() && 0 <= r < criteria[v]@.len() {
        criteria[v]@[r]
    } else {
        true
    }
}

fn criteria_verdict(criteria: &[Vec<bool>], v: usize, r: usize) -> (b: bool)
    ensures
        b == criteria_at(criteria@, v as int, r as int),
{
    if v < criteria.len() && r < criteria[v].len() {
        criteria[v][r]
    } else {
        true
    }
}

/// `v` is the first virtual host answering `host`.
pub open spec fn is_first_vh(vhs: Seq<VirtualHost>, host: Seq<u8>, v: int) -> bool {
    &&& 0 <= v < vhs.len()
    &&& vh_answers(vhs[v], host)
    &&& forall|j: int| 0 <= j < v ==> !vh_answers(#[trigger] vhs[j], host)
}

/// `r` is the first route of virtual host `v` accepting `path`.
pub open spec fn is_first_route(routes: Seq<Route>, path: Seq<char>, criteria: Seq<Vec<bool>>, v: int, r: int) -> bool {
    &&& 0 <= r < routes.len()
    &&& criteria_at(criteria, v, r) && path_matches(routes[r].route_match, path)
    &&& forall|j: int|
        0 <= j < r ==> !(criteria_at(criteria, v, j) && path_matches(#[trigger] routes[j].route_match, path))
}

/// Where the route walk ends for a request.
pub enum RouteVerdict {
    /// No `Host` header, or an empty one.
    MissingHost,
    /// No virtual host answers the host.
    NoVirtualHost,
    /// The virtual host has no route accepting the request.
    NoRoute,
    /// Route `.1` of virtual host `.0`.
    Matched(int, int),
}

/// The route walk over `cfg` for a request with `headers` and `path`.
pub open spec fn route_verdict(
    cfg: RouteConfiguration,
    headers: Seq<(Seq<char>, Seq<char>)>,
    path: Seq<char>,
    criteria: Seq<Vec<bool>>,
) -> RouteVerdict {
    match lookup(headers, HOST@) {
        None => RouteVerdict::MissingHost,
        Some(h) => if h.len() == 0 {
            RouteVerdict::MissingHost
        } else {
            let host = strip_port_bytes(bytes_of(h));
            let vhs = cfg.virtual_hosts@;
            if exists|v: int| is_first_vh(vhs, host, v) {
                let v = choose|v: int| is_first_vh(vhs, host, v);
                let routes = vhs[v].routes@;
                if exists|r: int| is_first_route(routes, path, criteria, v, r) {
                    RouteVerdict::Matched(v, choose|r: int| is_first_route(routes, path, criteria, v, r))
                } else {
                    RouteVerdict::NoRoute
                }
            } else {
                RouteVerdict::NoVirtualHost
            }
        },
    }
}

proof fn lemma_first_vh_unique(vhs: Seq<VirtualHost>, host: Seq<u8>, v: int, w: int)
    requires
        is_first_vh(vhs, host, v),
        is_first_vh(vhs, host, w),
    ensures
        v == w,
{
    if v < w {
        assert(!vh_answers(vhs[v], host));
    } else if w < v {
        assert(!vh_answers(vhs[w], host));
    }
}

proof fn lemma_first_route_unique(routes: Seq<Route>, path: Seq<char>, criteria: Seq<Vec<bool>>, v: int, r: int, q: int)
    requires
        is_first_route(routes, path, criteria, v, r),
        is_first_route(routes, path, criteria, v, q),
    ensures
        r == q,
{
    if r < q {
        assert(!(criteria_at(criteria, v, r) && path_matches(routes[r].route_match, path)));
    } else if q < r {
        assert(!(criteria_at(criteria, v, q) && path_matches(routes[q].route_match, path)));
    }
}

fn find_vh(vhs: &[VirtualHost], host: &str) -> (r: Option<usize>)
    ensures
        match r {
            Some(v) => is_first_vh(vhs@, bytes_of(host@), v as int),
            None => !exists|v: int| is_first_vh(vhs@, bytes_of(host@), v),
        },
{
    let mut i: usize = 0;
    while i < vhs.len()
        invariant
            0 <= i <= vhs@.len(),
            forall|j: int| 0 <= j < i ==> !vh_answers(#[trigger] vhs@[j], bytes_of(host@)),
        decreases vhs@.len() - i,
    {
        if vh_matches(&vhs[i], host) {
            return Some(i);
        }
        i += 1;
    }
    None
}

fn find_route(routes: &[Route], path: &str, criteria: &[Vec<bool>], v: usize) -> (r: Option<usize>)
    ensures
        match r {
            Some(q) => is_first_route(routes@, path@, criteria@, v as int, q as int),
            None => !exists|q: int| is_first_route(routes@, path@, criteria@, v as int, q),
        },
{
    let mut i: usize = 0;
    while i < routes.len()
        invariant
            0 <= i <= routes@.len(),
            forall|j: int|
                0 <= j < i ==> !(criteria_at(criteria@, v as int, j) && path_matches(
                    #[trigger] routes@[j].route_match,
                    path@,
                )),
        decreases routes@.len() - i,
    {
        let c = criteria_verdict(criteria, v, i);
        if route_matches(&routes[i], path, c) {
            return Some(i);
        }
        i += 1;
    }
    None
}

/// Why the route walk found no route.
#[derive(Debug, Clone, Copy, PartialEq, Eq, Structural)]
pub enum RouteMiss {
    MissingHost,
    NoVirtualHost,
    NoRoute,
}

pub open spec fn miss_verdict(m: RouteMiss) -> RouteVerdict {
    match m {
        RouteMiss::MissingHost => RouteVerdict::MissingHost,
        RouteMiss::NoVirtualHost => RouteVerdict::NoVirtualHost,
        RouteMiss::NoRoute => RouteVerdict::NoRoute,
    }
}

/// Walk `route_config` for `req`: the matched `(virtual host, route)`
/// indices, or why there is none. `criteria[v][r]` is the verdict of the
/// header matchers and runtime fraction of route `r` of virtual host `v`.
pub fn walk_routes(route_config: &RouteConfiguration, req: &Request, criteria: &[Vec<bool>]) -> (r: Result<
    (usize, usize),
    RouteMiss,
>)
    ensures
        match r {
            Ok((v, q)) => route_verdict(*route_config, req@.headers, req@.path, criteria@) == RouteVerdict::Matched(
                v as int,
                q as int,
            ),
            Err(m) => route_verdict(*route_config, req@.headers, req@.path, criteria@) == miss_verdict(m),
        },
{
    let host_raw = match find_header(req.headers.as_slice(), HOST) {
        Some(h) => h,
        None => return Err(RouteMiss::MissingHost),
    };
    if host_raw.as_bytes().len() == 0 {
        proof {
            if host_raw@.len() != 0 {
                assert(bytes_of(host_raw@).len() > 0) by {
                    reveal_with_fuel(vstd::utf8::encode_utf8, 1);
                }
            }
        }
        return Err(RouteMiss::MissingHost);
    }
    proof {
        if host_raw@.len() == 0 {
            assert(bytes_of(host_raw@) =~= Seq::<u8>::empty()) by {
                reveal_with_fuel(vstd::utf8::encode_utf8, 1);
            }
        }
    }
    let host = strip_port(host_raw);
    let ghost hb = strip_port_bytes(bytes_of(host_raw@));
    let v = match find_vh(route_config.virtual_hosts.as_slice(), host) {
        Some(v) => v,
        None => return Err(RouteMiss::NoVirtualHost),
    };
    proof {
        let w = choose|w: int| is_first_vh(route_config.virtual_hosts@, hb, w);
        lemma_first_vh_unique(route_config.virtual_hosts@, hb, v as int, w);
    }
    let routes = route_config.virtual_hosts[v].routes.as_slice();
    match find_route(routes, req.path.as_str(), criteria, v) {
        Some(q) => {
            proof {
                let w = choose|w: int| is_first_route(routes@, req@.path, criteria@, v as int, w);
                lemma_first_route_unique(routes@, req@.path, criteria@, v as int, q as int, w);
            }
            Ok((v, q))
        },
        None => Err(RouteMiss::NoRoute),
    }
}

// ---------------------------------------------------------------------------
// Resolution.
// ---------------------------------------------------------------------------

/// A matched route that owns the route-table snapshot it was matched
/// against, so the route stays valid whatever happens to the live table.
pub struct ResolvedRoute {
    route_config: Arc<RouteConfiguration>,
    vh_idx: usize,
    route_idx: usize,
}

impl ResolvedRoute {
    #[verifier::type_invariant]
    spec fn indices_in_table(self) -> bool {
        &&& self.vh_idx < self.route_config.virtual_hosts@.len()
        &&& self.route_idx < self.route_config.virtual_hosts@[self.vh_idx as int].routes@.len()
    }

    /// The table snapshot.
    pub closed spec fn table(self) -> RouteConfiguration {
        *self.route_config
    }

    /// The matched virtual host's index.
    pub closed spec fn vh(self) -> int {
        self.vh_idx as int
    }

    /// The matched route's index within its virtual host.
    pub closed spec fn route_index(self) -> int {
        self.route_idx as int
    }

    /// The matched route.
    pub fn route(&self) -> (r: &Route)
        ensures
            *r == self.table().virtual_hosts@[self.vh()].routes@[self.route_index()],
    {
        proof {
            use_type_invariant(self);
        }
        &self.route_config.virtual_hosts[self.vh_idx].routes[self.route_idx]
    }

    /// The matched virtual host's index in the table.
    pub fn vh_index(&self) -> (r: usize)
        ensures
            r == self.vh(),
    {
        self.vh_idx
    }

    /// The matched route's index within its virtual host.
    pub fn route_idx(&self) -> (r: usize)
        ensures
            r == self.route_index(),
    {
        self.route_idx
    }
}

/// `r` is the resolution of a request with `headers` and `path` against
/// `cfg`: the route the walk matches, over `cfg` itself, or none when the
/// walk finds none.
pub open spec fn resolves_to(
    r: Option<ResolvedRoute>,
    cfg: RouteConfiguration,
    headers: Seq<(Seq<char>, Seq<char>)>,
    path: Seq<char>,
    criteria: Seq<Vec<bool>>,
) -> bool {
    match route_verdict(cfg, headers, path, criteria) {
        RouteVerdict::Matched(v, q) => r matches Some(rr) && rr.table() == cfg && rr.vh() == v && rr.route_index() == q,
        _ => r is None,
    }
}

/// Resolve the matched route up front (host match, then route match) against
/// the table snapshot `route_config`: `None` for a missing or empty `Host`,
/// no answering virtual host, or no accepting route.
pub fn resolve_route_in(route_config: &Arc<RouteConfiguration>, req: &Request, criteria: &[Vec<bool>]) -> (r: Option<
    ResolvedRoute,
>)
    ensures
        resolves_to(r, **route_config, req@.headers, req@.path, criteria@),
{
    match walk_routes(route_config, req, criteria) {
        Ok((v, q)) => {
            proof {
                let host = lookup(req@.headers, HOST@)->0;
                let hb = strip_port_bytes(bytes_of(host));
                let w = choose|w: int| is_first_vh(route_config.virtual_hosts@, hb, w);
                let rs = route_config.virtual_hosts@[w].routes@;
                let x = choose|x: int| is_first_route(rs, req@.path, criteria@, w, x);
                assert(is_first_route(rs, req@.path, criteria@, w, x));
            }
            Some(ResolvedRoute { route_config: route_config.clone(), vh_idx: v, route_idx: q })
        },
        Err(_) => None,
    }
}

// ---------------------------------------------------------------------------
// The router call site.
// ---------------------------------------------------------------------------

/// What the connection manager does with a request.
#[derive(Debug)]
pub enum BuildOutcome {
    /// Answer locally with this reply; the second field is its
    /// `%RESPONSE_CODE_DETAILS%` value.
    Synth(Response, Option<&'static str>),
    /// Forward upstream to `cluster`, as route `route_idx` of virtual host
    /// `vh_idx` directs (its retry, hash and subset policies live there).
    Proxy { cluster: String, vh_idx: usize, route_idx: usize, include_attempt_count_in_response: bool },
}

/// `r` is a local reply of `status` with `body` and exactly the five
/// standard headers, dated with some HTTP-date.
pub open spec fn is_local_reply(r: Response, status: u16, body: Seq<u8>, close: bool) -> bool {
    &&& r.status == status
    &&& r.reason is None
    &&& r.body@ == body
    &&& r.header_rows().len() == 5
    &&& is_http_date(r.header_rows()[1].1)
    &&& r.header_rows() == standard_headers(body.len(), close, r.header_rows()[1].1)
}

/// `r` is a redirect reply of `status` to `location` (as bytes), dated with
/// some HTTP-date.
pub open spec fn is_redirect_reply(r: Response, status: u16, location: Seq<u8>, close: bool) -> bool {
    &&& r.status == status
    &&& r.reason is None
    &&& r.body@.len() == 0
    &&& r.header_rows().len() == 5
    &&& is_http_date(r.header_rows()[1].1)
    &&& bytes_of(r.header_rows()[0].1) == location
    &&& r.header_rows() == redirect_headers(r.header_rows()[0].1, close, r.header_rows()[1].1)
}

/// A `direct_response`'s body bytes (empty when it has none).
pub open spec fn direct_body(dr: DirectResponse) -> Seq<u8> {
    match dr.body {
        Some(b) => bytes_of(b@),
        None => Seq::empty(),
    }
}

pub open spec fn opt_string_bytes(o: Option<String>) -> Option<Seq<u8>> {
    match o {
        Some(s) => Some(bytes_of(s@)),
        None => None,
    }
}

/// The `%RESPONSE_CODE_DETAILS%` value `d` reads `s`.
pub open spec fn details_is(d: Option<&'static str>, s: Seq<char>) -> bool {
    d matches Some(x) && x@ == s
}

/// Every field of the request but its path is unchanged.
pub open spec fn same_but_path(a: RequestView, b: RequestView) -> bool {
    &&& a.method == b.method
    &&& a.version == b.version
    &&& a.headers == b.headers
    &&& a.bytes_consumed == b.bytes_consumed
    &&& a.body == b.body
}

/// What a redirect route makes of a request whose `Host` is `authority`
/// and whose target is `target` (prior to any rewrite): the reply, and the
/// request's path after the call.
pub open spec fn redirect_built(
    r: BuildOutcome,
    authority: Seq<char>,
    target: Seq<char>,
    new_path: Seq<char>,
    prefix: Option<String>,
    rd: RedirectAction,
    close: bool,
) -> bool {
    let t = bytes_of(target);
    let p = opt_string_bytes(prefix);
    &&& r matches BuildOutcome::Synth(resp, d) && details_is(d, "direct_response"@) && is_redirect_reply(
        resp,
        rd.response_code.status_of(),
        redirect_location(bytes_of(authority), t, p, rd),
        close,
    )
    &&& match redirect_rewritten_path(t, p, rd) {
        Some(np) => bytes_of(new_path) == np,
        None => new_path == target,
    }
}

fn redirect_outcome(req: &mut Request, prefix: &Option<String>, rd: &RedirectAction, close: bool) -> (r: BuildOutcome)
    requires
        lookup(old(req)@.headers, HOST@) is Some,
    ensures
        same_but_path(final(req)@, old(req)@),
        redirect_built(
            r,
            lookup(old(req)@.headers, HOST@)->0,
            old(req)@.path,
            final(req)@.path,
            *prefix,
            *rd,
            close,
        ),
{
    let authority: String = match find_header(req.headers.as_slice(), HOST) {
        Some(h) => h.to_owned(),
        None => String::new(),
    };
    let matched_prefix: Option<&str> = match prefix {
        Some(p) => Some(p.as_str()),
        None => None,
    };
    let plan = plan_redirect(authority.as_str(), req.path.as_str(), matched_prefix, rd);
    let RedirectPlan { location, status, rewritten_path } = plan;
    match rewritten_path {
        Some(p) => {
            req.path = p;
        },
        None => {},
    }
    BuildOutcome::Synth(synth_redirect(status, location, close), Some("direct_response"))
}

/// What the router call site makes of a request `old_req` (leaving it as
/// `new_req`) with table `cfg`: the reply or forwarding decision for each
/// verdict of the route walk.
pub open spec fn response_built(
    r: BuildOutcome,
    cfg: RouteConfiguration,
    old_req: RequestView,
    new_req: RequestView,
    close: bool,
    criteria: Seq<Vec<bool>>,
) -> bool {
    &&& same_but_path(new_req, old_req)
    &&& match route_verdict(cfg, old_req.headers, old_req.path, criteria) {
        RouteVerdict::MissingHost => {
            &&& new_req.path == old_req.path
            &&& r matches BuildOutcome::Synth(resp, d) && d is None && is_local_reply(
                resp,
                400,
                Seq::empty(),
                close,
            )
        },
        RouteVerdict::NoVirtualHost | RouteVerdict::NoRoute => {
            &&& new_req.path == old_req.path
            &&& r matches BuildOutcome::Synth(resp, d) && details_is(d, "route_not_found"@)
                && is_local_reply(resp, 404, Seq::empty(), close)
        },
        RouteVerdict::Matched(v, q) => {
            let vh = cfg.virtual_hosts@[v];
            let route = vh.routes@[q];
            match route.action {
                RouteAction::DirectResponse(dr) => {
                    &&& new_req.path == old_req.path
                    &&& r matches BuildOutcome::Synth(resp, d) && details_is(d, "direct_response"@)
                        && is_local_reply(resp, dr.status, direct_body(dr), close)
                },
                RouteAction::Redirect(rd) => redirect_built(
                    r,
                    lookup(old_req.headers, HOST@)->0,
                    old_req.path,
                    new_req.path,
                    route.route_match.prefix,
                    rd,
                    close,
                ),
                RouteAction::Route(t) => {
                    &&& new_req.path == old_req.path
                    &&& r matches BuildOutcome::Proxy {
                        cluster,
                        vh_idx,
                        route_idx,
                        include_attempt_count_in_response,
                    } && cluster@ == t.cluster@ && vh_idx == v && route_idx == q
                        && include_attempt_count_in_response == vh.include_attempt_count_in_response
                },
            }
        },
    }
}

/// The router call site: walk `route_config` for `req` and act on the
/// verdict. A missing or empty `Host` is answered 400; no answering virtual
/// host or no accepting route 404 (`route_not_found`); a `direct_response`
/// route with its status and body; a redirect route with the planned
/// redirect (a `prefix_rewrite` also rewrites `req.path`); a `route` route
/// is forwarded to its cluster. `criteria[v][r]` is the verdict of the
/// header matchers and runtime fraction of route `r` of virtual host `v`.
pub fn build_response_in(
    route_config: &RouteConfiguration,
    req: &mut Request,
    close: bool,
    criteria: &[Vec<bool>],
) -> (r: BuildOutcome)
    ensures
        response_built(r, *route_config, old(req)@, final(req)@, close, criteria@),
{
    let (v, q) = match walk_routes(route_config, req, criteria) {
        Ok(found) => found,
        Err(RouteMiss::MissingHost) => {
            let resp = synth_400(close);
            assert(resp.body@ =~= Seq::<u8>::empty());
            return BuildOutcome::Synth(resp, None);
        },
        Err(_) => {
            let resp = synth_404(close);
            assert(resp.body@ =~= Seq::<u8>::empty());
            return BuildOutcome::Synth(resp, Some("route_not_found"));
        },
    };
    let vh = &route_config.virtual_hosts[v];
    let route = &vh.routes[q];
    proof {
        let host = lookup(req@.headers, HOST@);
        assert(host is Some);
    }
    match &route.action {
        RouteAction::DirectResponse(dr) => BuildOutcome::Synth(synth_direct_response(dr, close), Some("direct_response")),
        RouteAction::Redirect(rd) => redirect_outcome(req, &route.route_match.prefix, rd, close),
        RouteAction::Route(t) => BuildOutcome::Proxy {
            cluster: t.cluster.clone(),
            vh_idx: v,
            route_idx: q,
            include_attempt_count_in_response: vh.include_attempt_count_in_response,
        },
    }
}

/// The per-request dispatch: a request with chunked transfer-coding is
/// answered 501 (chunked request bodies are not supported) without a route
/// walk; any other goes through the router call site.
pub fn route_request(
    route_config: &RouteConfiguration,
    req: &mut Request,
    close: bool,
    chunked: bool,
    criteria: &[Vec<bool>],
) -> (r: BuildOutcome)
    ensures
        chunked ==> final(req)@ == old(req)@,
        chunked ==> (r matches BuildOutcome::Synth(resp, d) && d is None && is_local_reply(
            resp,
            501,
            Seq::empty(),
            close,
        )),
        !chunked ==> response_built(r, *route_config, old(req)@, final(req)@, close, criteria@),
{
    if chunked {
        let resp = synth_501(close);
        assert(resp.body@ =~= Seq::<u8>::empty());
        BuildOutcome::Synth(resp, None)
    } else {
        build_response_in(route_config, req, close, criteria)
    }
}

} // verus!

verus! {

proof fn lemma_details_differ()
    ensures
        "direct_response"@ != "route_not_found"@,
{
    reveal_strlit("direct_response");
    reveal_strlit("route_not_found");
    assert("direct_response"@[0] != "route_not_found"@[0]);
}

/// The up-front resolution and the router call site agree on every request:
/// the resolution is empty exactly when the call site answers locally with
/// the 400 of a missing `Host` or the 404 of `route_not_found`; and when it
/// resolves a route, the call site acts on that route: a `direct_response`
/// or redirect route is answered locally as `direct_response`, and a
/// `route` route is forwarded to its cluster, along exactly that route.
pub proof fn law_resolution_matches_call_site(
    cfg: RouteConfiguration,
    old_req: RequestView,
    new_req: RequestView,
    close: bool,
    criteria: Seq<Vec<bool>>,
    resolved: Option<ResolvedRoute>,
    built: BuildOutcome,
)
    requires
        resolves_to(resolved, cfg, old_req.headers, old_req.path, criteria),
        response_built(built, cfg, old_req, new_req, close, criteria),
    ensures
        resolved is None <==> (built matches BuildOutcome::Synth(resp, d) && ((d is None && resp.status == 400) || (
        details_is(d, "route_not_found"@) && resp.status == 404))),
        resolved matches Some(x) ==> match x.table().virtual_hosts@[x.vh()].routes@[x.route_index()].action {
            RouteAction::Route(t) => built matches BuildOutcome::Proxy { cluster, vh_idx, route_idx, .. }
                && cluster@ == t.cluster@ && vh_idx == x.vh() && route_idx == x.route_index(),
            _ => built matches BuildOutcome::Synth(_, d) && details_is(d, "direct_response"@),
        },
{
    lemma_details_differ();
}

} // verus!

verus! {

/// Every entry of a virtual host's `domains` list counts, wherever it
/// stands: one that is `*`, or that equals the host ignoring ASCII case,
/// makes the virtual host answer that host.
pub proof fn law_any_listed_domain_answers(vh: VirtualHost, host: Seq<u8>, i: int)
    requires
        0 <= i < vh.domains@.len(),
        vh.domains@[i]@ == "*"@ || eq_ignore_ascii_case(bytes_of(vh.domains@[i]@), host),
    ensures
        vh_answers(vh, host),
{
    assert(domain_matches(vh.domains@[i]@, host));
}

/// A virtual host answers a host only through one of its listed domains:
/// some entry is `*` or equals the host ignoring ASCII case.
pub proof fn law_only_listed_domains_answer(vh: VirtualHost, host: Seq<u8>)
    requires
        vh_answers(vh, host),
    ensures
        exists|i: int|
            0 <= i < vh.domains@.len() && (#[trigger] vh.domains@[i]@ == "*"@ || eq_ignore_ascii_case(
                bytes_of(vh.domains@[i]@),
                host,
            )),
{
    let i = choose|i: int| 0 <= i < vh.domains@.len() && domain_matches(#[trigger] vh.domains@[i]@, host);
    assert(vh.domains@[i]@ == "*"@ || eq_ignore_ascii_case(bytes_of(vh.domains@[i]@), host));
}

proof fn lemma_first_vh_exists(vhs: Seq<VirtualHost>, host: Seq<u8>, v: int)
    requires
        0 <= v < vhs.len(),
        vh_answers(vhs[v], host),
    ensures
        exists|w: int| w <= v && #[trigger] is_first_vh(vhs, host, w),
    decreases v,
{
    if exists|j: int| 0 <= j < v && vh_answers(#[trigger] vhs[j], host) {
        let j = choose|j: int| 0 <= j < v && vh_answers(#[trigger] vhs[j], host);
        lemma_first_vh_exists(vhs, host, j);
    } else {
        assert(is_first_vh(vhs, host, v));
    }
}

/// A request whose `Host` (port stripped) is listed, at any position, among
/// the domains of virtual host `v` is never refused for its host: the walk
/// neither reports a missing `Host` nor finds no virtual host, and a route
/// it matches belongs to `v` or to a virtual host listed before it.
pub proof fn law_a_listed_host_finds_its_virtual_host(
    cfg: RouteConfiguration,
    headers: Seq<(Seq<char>, Seq<char>)>,
    path: Seq<char>,
    criteria: Seq<Vec<bool>>,
    v: int,
    i: int,
)
    requires
        lookup(headers, HOST@) matches Some(h) && h.len() > 0 && 0 <= v < cfg.virtual_hosts@.len() && 0 <= i
            < cfg.virtual_hosts@[v].domains@.len() && (cfg.virtual_hosts@[v].domains@[i]@ == "*"@
            || eq_ignore_ascii_case(bytes_of(cfg.virtual_hosts@[v].domains@[i]@), strip_port_bytes(bytes_of(h)))),
    ensures
        route_verdict(cfg, headers, path, criteria) !is MissingHost,
        route_verdict(cfg, headers, path, criteria) !is NoVirtualHost,
        route_verdict(cfg, headers, path, criteria) matches RouteVerdict::Matched(w, _) ==> w <= v,
{
    let h = lookup(headers, HOST@)->0;
    let host = strip_port_bytes(bytes_of(h));
    let vhs = cfg.virtual_hosts@;
    law_any_listed_domain_answers(vhs[v], host, i);
    lemma_first_vh_exists(vhs, host, v);
    let w0 = choose|w: int| w <= v && #[trigger] is_first_vh(vhs, host, w);
    let w = choose|w: int| is_first_vh(vhs, host, w);
    lemma_first_vh_unique(vhs, host, w, w0);
}

} // verus!
