use ree::router::{Router, RouteOutcome};
use ree::params::ParamMap;

fn seg(s: &str) -> Vec<u8> {
    s.as_bytes().to_vec()
}

#[test]
fn router_test_new_router() {
    let mut router: Router<&'static str> = Router::new();
    router.add_route("GET", "/", "Hello, World!");
    router.add_route("GET", "/hello", "Hello!");
    assert_eq!(router.method_count(), 1); // one "GET" trie
}

#[test]
fn router_test_parse_pattern() {
    let pattern = "/p/:lang/doc";
    let parts = Router::<()>::parse_pattern(pattern);
    assert_eq!(parts, vec![seg("p"), seg(":lang"), seg("doc")]);
}

#[test]
fn router_test_get_route() {
    let mut router: Router<&'static str> = Router::new();
    router.add_route("GET", "/p/:lang/doc", "Hello, World!");
    let (node, params) = router.get_route("GET", "/p/rust/doc");
    assert!(node.is_some());
    assert_eq!(params.get(b"lang").unwrap(), &seg("rust"));
}

#[test]
fn test_static_file_route() {
    let mut router: Router<&'static str> = Router::new();
    router.add_route("GET", "/static/*filepath", "Static file handler");

    let (node, params) = router.get_route("GET", "/static/js/app.js");

    assert!(node.is_some());
    assert_eq!(node.unwrap().pattern, seg("/static/*filepath"));
    assert_eq!(params.get(b"filepath").unwrap(), &seg("js/app.js"));
}

#[test]
fn test_param_route_rejects_extra_segment() {
    let mut router: Router<&'static str> = Router::new();
    router.add_route("GET", "/p/:lang/doc", "doc handler");
    let (node, params) = router.get_route("GET", "/p/rust/doc/extra");
    assert!(node.is_none());
    assert!(params.get(b"lang").is_none());
}

#[test]
fn test_not_found_outcome() {
    let router: Router<&'static str> = Router::new();
    let outcome = router.handle_request("GET", "/missing", ParamMap::new());
    assert!(matches!(outcome, RouteOutcome::NotFound));
}

#[test]
fn test_route_param_overrides_middleware_param() {
    let mut router: Router<&'static str> = Router::new();
    router.add_route("GET", "/items/:id", "item handler");

    // A middleware set `id` before the router ran; the route-derived
    // value must win.
    let mut params = ParamMap::new();
    params.insert(seg("id"), seg("X"));

    match router.handle_request("GET", "/items/Y", params) {
        RouteOutcome::Found(handler, merged) => {
            assert_eq!(*handler, "item handler");
            assert_eq!(merged.get(b"id").unwrap(), &seg("Y"));
        },
        RouteOutcome::NotFound => panic!("route should match"),
    }
}

#[test]
fn test_middleware_param_kept_without_collision() {
    let mut router: Router<&'static str> = Router::new();
    router.add_route("GET", "/items/:id", "item handler");

    let mut params = ParamMap::new();
    params.insert(seg("trace"), seg("t-1"));

    match router.handle_request("GET", "/items/7", params) {
        RouteOutcome::Found(_, merged) => {
            assert_eq!(merged.get(b"trace").unwrap(), &seg("t-1"));
            assert_eq!(merged.get(b"id").unwrap(), &seg("7"));
        },
        RouteOutcome::NotFound => panic!("route should match"),
    }
}

#[test]
fn test_duplicate_route_registration_overwrites() {
    let mut router: Router<&'static str> = Router::new();
    router.add_route("GET", "/dup", "first");
    router.add_route("GET", "/dup", "second");

    match router.handle_request("GET", "/dup", ParamMap::new()) {
        RouteOutcome::Found(handler, _) => assert_eq!(*handler, "second"),
        RouteOutcome::NotFound => panic!("route should match"),
    }

    let routes = router.get_all_routes();
    assert_eq!(routes.len(), 1);
    assert_eq!(routes[0], (seg("GET"), seg("/dup")));
}

#[test]
fn test_get_all_routes_lists_methods_and_patterns() {
    let mut router: Router<&'static str> = Router::new();
    router.add_route("GET", "/a", "a");
    router.add_route("POST", "/b", "b");

    let routes = router.get_all_routes();
    assert_eq!(routes.len(), 2);
    assert!(routes.contains(&(seg("GET"), seg("/a"))));
    assert!(routes.contains(&(seg("POST"), seg("/b"))));
}

#[test]
fn test_method_mismatch_is_not_found() {
    let mut router: Router<&'static str> = Router::new();
    router.add_route("POST", "/thing", "create");
    let (node, _) = router.get_route("GET", "/thing");
    assert!(node.is_none());
}

#[test]
fn test_wildcard_binds_single_segment() {
    let mut router: Router<&'static str> = Router::new();
    router.add_route("GET", "/assets/*filepath", "assets");
    let (node, params) = router.get_route("GET", "/assets/app.js");
    assert!(node.is_some());
    assert_eq!(params.get(b"filepath").unwrap(), &seg("app.js"));
}

#[test]
fn test_multiple_params_extracted() {
    let mut router: Router<&'static str> = Router::new();
    router.add_route("GET", "/u/:org/r/:repo", "repo handler");
    let (node, params) = router.get_route("GET", "/u/acme/r/widgets");
    assert!(node.is_some());
    assert_eq!(params.get(b"org").unwrap(), &seg("acme"));
    assert_eq!(params.get(b"repo").unwrap(), &seg("widgets"));
}

#[test]
fn test_wildcard_joins_many_segments() {
    let mut router: Router<&'static str> = Router::new();
    router.add_route("GET", "/s/*rest", "rest handler");
    let (node, params) = router.get_route("GET", "/s/a/b/c/d");
    assert!(node.is_some());
    assert_eq!(params.get(b"rest").unwrap(), &seg("a/b/c/d"));
}

#[test]
fn test_param_map_insert_get_extend() {
    let mut a = ParamMap::new();
    a.insert(seg("k1"), seg("v1"));
    a.insert(seg("k2"), seg("v2"));
    a.insert(seg("k1"), seg("v1b"));
    assert_eq!(a.get(b"k1").unwrap(), &seg("v1b"));
    assert_eq!(a.get(b"k2").unwrap(), &seg("v2"));
    assert!(a.get(b"k3").is_none());
    assert!(a.contains_key(b"k2"));

    let mut b = ParamMap::new();
    b.insert(seg("k2"), seg("w2"));
    b.insert(seg("k3"), seg("w3"));
    a.extend(b);
    assert_eq!(a.get(b"k1").unwrap(), &seg("v1b"));
    assert_eq!(a.get(b"k2").unwrap(), &seg("w2"));
    assert_eq!(a.get(b"k3").unwrap(), &seg("w3"));

    let entries = a.entries();
    assert_eq!(entries.len(), 3);
}
