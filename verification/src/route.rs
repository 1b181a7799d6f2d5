//! The route table the connection manager walks: virtual hosts matched on
//! `Host`, routes matched on the path, and the action of the matched route.

use vstd::prelude::*;

verus! {

/// A `direct_response` route action: a fixed status and optional inline body.
pub struct DirectResponse {
    pub status: u16,
    pub body: Option<String>,
}

/// The five redirect status codes a `redirect` action can ask for.
#[derive(Debug, Clone, Copy, PartialEq, Eq, Structural, Default)]
pub enum RedirectResponseCode {
    #[default]
    MovedPermanently,
    Found,
    SeeOther,
    TemporaryRedirect,
    PermanentRedirect,
}

impl RedirectResponseCode {
    pub open spec fn status_of(self) -> u16 {
        match self {
            RedirectResponseCode::MovedPermanently => 301,
            RedirectResponseCode::Found => 302,
            RedirectResponseCode::SeeOther => 303,
            RedirectResponseCode::TemporaryRedirect => 307,
            RedirectResponseCode::PermanentRedirect => 308,
        }
    }

    /// The wire status: 301, 302, 303, 307 or 308.
    pub fn status(&self) -> (r: u16)
        ensures
            r == self.status_of(),
    {
        match self {
            RedirectResponseCode::MovedPermanently => 301,
            RedirectResponseCode::Found => 302,
            RedirectResponseCode::SeeOther => 303,
            RedirectResponseCode::TemporaryRedirect => 307,
            RedirectResponseCode::PermanentRedirect => 308,
        }
    }
}

/// A `redirect` route action.
#[derive(Debug, Clone, Default)]
pub struct RedirectAction {
    pub scheme_redirect: Option<String>,
    pub https_redirect: Option<bool>,
    pub host_redirect: Option<String>,
    pub port_redirect: Option<u32>,
    pub path_redirect: Option<String>,
    pub prefix_rewrite: Option<String>,
    pub strip_query: bool,
    pub response_code: RedirectResponseCode,
}

/// How a route matches the request path: by `prefix`, or by exact `path`
/// (a loaded table sets exactly one of them). A route's header matchers
/// and runtime fraction are further criteria that the caller evaluates.
pub struct RouteMatch {
    pub prefix: Option<String>,
    pub path: Option<String>,
}

/// A `route` action: forward upstream to `cluster`.
pub struct RouteTarget {
    pub cluster: String,
}

/// What a matched route does.
pub enum RouteAction {
    DirectResponse(DirectResponse),
    Redirect(RedirectAction),
    Route(RouteTarget),
}

pub struct Route {
    pub route_match: RouteMatch,
    pub action: RouteAction,
}

/// A virtual host: the `Host` values it answers (`*` answers any), its
/// routes in order, and whether responses carry `x-envoy-attempt-count`.
pub struct VirtualHost {
    pub domains: Vec<String>,
    pub routes: Vec<Route>,
    pub include_attempt_count_in_response: bool,
}

/// The route table: virtual hosts in order.
pub struct RouteConfiguration {
    pub virtual_hosts: Vec<VirtualHost>,
}

} // verus!
