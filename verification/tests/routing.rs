use envoy_http1::codec::{HttpVersion, Request};
use envoy_http1::route::{
    DirectResponse, RedirectAction, Route, RouteAction, RouteConfiguration, RouteMatch, RouteTarget, VirtualHost,
};
use envoy_http1::routing::{
    build_response_in, resolve_route_in, route_matches, route_request, vh_matches, walk_routes, BuildOutcome,
    RouteMiss,
};
use std::sync::Arc;

fn req(path: &str, headers: &[(&str, &str)]) -> Request {
    Request {
        method: "GET".to_string(),
        path: path.to_string(),
        version: HttpVersion::Http11,
        headers: headers.iter().map(|(n, v)| (n.to_string(), v.to_string())).collect(),
        bytes_consumed: 0,
        body: None,
    }
}

fn prefix(p: &str, action: RouteAction) -> Route {
    Route { route_match: RouteMatch { prefix: Some(p.to_string()), path: None }, action }
}

fn exact(p: &str, action: RouteAction) -> Route {
    Route { route_match: RouteMatch { prefix: None, path: Some(p.to_string()) }, action }
}

fn direct(status: u16, body: &str) -> RouteAction {
    RouteAction::DirectResponse(DirectResponse { status, body: Some(body.to_string()) })
}

fn cluster(name: &str) -> RouteAction {
    RouteAction::Route(RouteTarget { cluster: name.to_string() })
}

fn vh(domains: &[&str], routes: Vec<Route>) -> VirtualHost {
    VirtualHost {
        domains: domains.iter().map(|d| d.to_string()).collect(),
        routes,
        include_attempt_count_in_response: false,
    }
}

fn table() -> RouteConfiguration {
    RouteConfiguration {
        virtual_hosts: vec![
            vh(
                &["api.example.com", "API.internal"],
                vec![exact("/health", direct(200, "ok\n")), prefix("/v1", cluster("backend")), prefix("/", direct(404, "none"))],
            ),
            VirtualHost {
                domains: vec!["*".to_string()],
                routes: vec![
                    prefix(
                        "/old",
                        RouteAction::Redirect(RedirectAction { prefix_rewrite: Some("/new".into()), ..Default::default() }),
                    ),
                    prefix("/", cluster("fallback")),
                ],
                include_attempt_count_in_response: true,
            },
        ],
    }
}

fn synth_status(o: &BuildOutcome) -> (u16, Option<&'static str>) {
    match o {
        BuildOutcome::Synth(r, d) => (r.status, *d),
        other => panic!("{other:?}"),
    }
}

#[test]
fn host_match_ignores_case_and_port_and_star_answers_all() {
    let v = vh(&["Example.COM"], vec![]);
    assert!(vh_matches(&v, "example.com"));
    assert!(!vh_matches(&v, "example.com:80"));
    assert!(vh_matches(&vh(&["*"], vec![]), "anything"));
    assert!(!vh_matches(&vh(&[], vec![]), "anything"));
    let cfg = table();
    let mut r = req("/health", &[("Host", "API.EXAMPLE.COM:8080")]);
    assert_eq!(synth_status(&build_response_in(&cfg, &mut r, false, &[])), (200, Some("direct_response")));
}

#[test]
fn path_criteria_are_byte_prefix_or_exact() {
    let p = prefix("/v1", cluster("c"));
    assert!(route_matches(&p, "/v1", true));
    assert!(route_matches(&p, "/v12/x", true));
    assert!(!route_matches(&p, "/v", true));
    assert!(!route_matches(&p, "/v1", false), "further criteria must also pass");
    let e = exact("/health", cluster("c"));
    assert!(route_matches(&e, "/health", true));
    assert!(!route_matches(&e, "/health/", true));
    let both = Route { route_match: RouteMatch { prefix: Some("/".into()), path: Some("/".into()) }, action: cluster("c") };
    assert!(!route_matches(&both, "/", true));
    let neither = Route { route_match: RouteMatch { prefix: None, path: None }, action: cluster("c") };
    assert!(!route_matches(&neither, "/", true));
}

#[test]
fn missing_or_empty_host_is_a_400() {
    let cfg = table();
    let mut r = req("/", &[]);
    assert_eq!(synth_status(&build_response_in(&cfg, &mut r, true, &[])), (400, None));
    let mut empty = req("/", &[("Host", "")]);
    assert_eq!(synth_status(&build_response_in(&cfg, &mut empty, true, &[])), (400, None));
    assert!(matches!(walk_routes(&cfg, &empty, &[]), Err(RouteMiss::MissingHost)));
}

#[test]
fn unmatched_host_or_path_is_a_404_route_not_found() {
    let only_api = RouteConfiguration { virtual_hosts: vec![vh(&["api.example.com"], vec![exact("/x", cluster("c"))])] };
    let mut other_host = req("/x", &[("Host", "other")]);
    assert_eq!(synth_status(&build_response_in(&only_api, &mut other_host, false, &[])), (404, Some("route_not_found")));
    assert!(matches!(walk_routes(&only_api, &other_host, &[]), Err(RouteMiss::NoVirtualHost)));
    let mut other_path = req("/y", &[("Host", "api.example.com")]);
    assert_eq!(synth_status(&build_response_in(&only_api, &mut other_path, false, &[])), (404, Some("route_not_found")));
    assert!(matches!(walk_routes(&only_api, &other_path, &[]), Err(RouteMiss::NoRoute)));
}

#[test]
fn first_matching_virtual_host_and_route_win() {
    let cfg = table();
    let mut r = req("/v1/users", &[("host", "api.example.com")]);
    match build_response_in(&cfg, &mut r, false, &[]) {
        BuildOutcome::Proxy { cluster, vh_idx, route_idx, include_attempt_count_in_response } => {
            assert_eq!(cluster, "backend");
            assert_eq!((vh_idx, route_idx), (0, 1));
            assert!(!include_attempt_count_in_response);
        },
        other => panic!("{other:?}"),
    }
    let mut fallback = req("/v1/users", &[("host", "elsewhere")]);
    match build_response_in(&cfg, &mut fallback, false, &[]) {
        BuildOutcome::Proxy { cluster, vh_idx, route_idx, include_attempt_count_in_response } => {
            assert_eq!(cluster, "fallback");
            assert_eq!((vh_idx, route_idx), (1, 1));
            assert!(include_attempt_count_in_response);
        },
        other => panic!("{other:?}"),
    }
}

#[test]
fn further_criteria_skip_a_route() {
    let cfg = table();
    let criteria = vec![vec![true, false]];
    let mut r = req("/v1/users", &[("host", "api.example.com")]);
    match build_response_in(&cfg, &mut r, false, &criteria) {
        BuildOutcome::Synth(resp, d) => {
            assert_eq!(resp.status, 404);
            assert_eq!(resp.body, b"none".to_vec());
            assert_eq!(d, Some("direct_response"));
        },
        other => panic!("{other:?}"),
    }
}

#[test]
fn redirect_routes_rewrite_the_request_path() {
    let cfg = table();
    let mut r = req("/old/page?q=1", &[("Host", "site:8080")]);
    match build_response_in(&cfg, &mut r, true, &[]) {
        BuildOutcome::Synth(resp, d) => {
            assert_eq!(resp.status, 301);
            assert_eq!(d, Some("direct_response"));
            assert_eq!(resp.headers[0], ("location".to_string(), "http://site:8080/new/page?q=1".to_string()));
            assert!(resp.body.is_empty());
        },
        other => panic!("{other:?}"),
    }
    assert_eq!(r.path, "/new/page?q=1");
    assert_eq!(r.headers, vec![("Host".to_string(), "site:8080".to_string())]);
}

#[test]
fn forwarding_follows_the_resolved_route() {
    let cfg = Arc::new(table());
    for (path, host) in [("/v1/a", "api.example.com"), ("/x", "any"), ("/health", "api.internal")] {
        let r = req(path, &[("Host", host)]);
        let resolved = resolve_route_in(&cfg, &r, &[]).expect("resolves");
        let mut r2 = req(path, &[("Host", host)]);
        match build_response_in(&cfg, &mut r2, false, &[]) {
            BuildOutcome::Proxy { vh_idx, route_idx, .. } => {
                assert_eq!((vh_idx, route_idx), (resolved.vh_index(), resolved.route_idx()));
            },
            BuildOutcome::Synth(..) => {
                assert!(matches!(resolved.route().action, RouteAction::DirectResponse(_)));
            },
        }
    }
    assert!(resolve_route_in(&cfg, &req("/", &[]), &[]).is_none());
    let resolved = resolve_route_in(&cfg, &req("/v1", &[("Host", "api.example.com")]), &[]).unwrap();
    assert!(matches!(&resolved.route().action, RouteAction::Route(t) if t.cluster == "backend"));
}

#[test]
fn chunked_requests_are_answered_501_without_a_walk() {
    let cfg = table();
    let mut r = req("/v1", &[("Host", "api.example.com")]);
    let before = req("/v1", &[("Host", "api.example.com")]);
    match route_request(&cfg, &mut r, true, true, &[]) {
        BuildOutcome::Synth(resp, d) => {
            assert_eq!(resp.status, 501);
            assert_eq!(d, None);
        },
        other => panic!("{other:?}"),
    }
    assert_eq!(r, before);
    assert!(matches!(route_request(&cfg, &mut r, true, false, &[]), BuildOutcome::Proxy { .. }));
}
