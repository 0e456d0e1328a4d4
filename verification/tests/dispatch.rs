use ree::engine::{Engine, RouterGroup};
use ree::middleware::{ChainCursor, ChainStep, Cors};
use ree::params::ParamMap;
use ree::router::RouteOutcome;
use ree::swagger::{convert_path_format, generate_swagger_ui};

fn seg(s: &str) -> Vec<u8> {
    s.as_bytes().to_vec()
}

#[test]
fn test_engine_routes_and_not_found() {
    let mut engine: Engine<(), &'static str> = Engine::new();
    engine.get("/", "root");
    engine.get("/hello", "hello");

    match engine.handle_request("GET", "/hello", ParamMap::new()) {
        RouteOutcome::Found(handler, _) => assert_eq!(*handler, "hello"),
        RouteOutcome::NotFound => panic!("route should match"),
    }
    assert!(matches!(
        engine.handle_request("GET", "/missing", ParamMap::new()),
        RouteOutcome::NotFound
    ));
    assert!(matches!(
        engine.handle_request("POST", "/hello", ParamMap::new()),
        RouteOutcome::NotFound
    ));
}

#[test]
fn test_scope_longest_prefix_wins() {
    let mut engine: Engine<(), &'static str> = Engine::new();
    let api = engine.group("/api");
    engine.group_add_route(api, "GET", "/x", "api x");
    let api_v1 = engine.group("/api/v1");
    engine.group_add_route(api_v1, "GET", "/x", "api v1 x");

    assert_eq!(engine.select_scope("/api/v1/x"), Some(api_v1));
    assert_eq!(engine.select_scope("/api/other"), Some(api));
    assert_eq!(engine.select_scope("/elsewhere"), None);

    let group = engine.group_at(api_v1);
    match group.handle_request("GET", "/api/v1/x", ParamMap::new()) {
        RouteOutcome::Found(handler, _) => assert_eq!(*handler, "api v1 x"),
        RouteOutcome::NotFound => panic!("scope route should match"),
    }
}

#[test]
fn test_scope_prefix_is_textual_not_segmented() {
    // Scope selection compares raw text: "/api" also claims "/api2/x".
    let mut engine: Engine<(), &'static str> = Engine::new();
    let api = engine.group("/api");
    assert_eq!(engine.select_scope("/api2/x"), Some(api));
}

#[test]
fn test_group_same_prefix_replaces() {
    let mut engine: Engine<(), &'static str> = Engine::new();
    let first = engine.group("/api");
    engine.group_add_route(first, "GET", "/x", "old");
    let second = engine.group("/api");
    assert_eq!(first, second);
    let group = engine.group_at(second);
    assert!(matches!(
        group.handle_request("GET", "/api/x", ParamMap::new()),
        RouteOutcome::NotFound
    ));
}

#[test]
fn test_group_prefixes_patterns() {
    let mut group: RouterGroup<(), &'static str> = RouterGroup::new("/api");
    group.get("/hello", "api hello");
    match group.handle_request("GET", "/api/hello", ParamMap::new()) {
        RouteOutcome::Found(handler, _) => assert_eq!(*handler, "api hello"),
        RouteOutcome::NotFound => panic!("prefixed route should match"),
    }
    assert!(matches!(
        group.handle_request("GET", "/hello", ParamMap::new()),
        RouteOutcome::NotFound
    ));
}

/// A middleware stage for these tests: a name, and whether it answers
/// by itself instead of calling its continuation.
struct Stage {
    name: &'static str,
    short_circuit: bool,
}

/// Runs a chain the way the server loop does: ask the cursor what is
/// next, run the stage around the rest of the chain, or the handler.
fn run_chain(
    global: &Vec<Stage>,
    scope: &Vec<Stage>,
    cursor: ChainCursor,
    log: &mut Vec<String>,
    handler_ran: &mut bool,
) -> String {
    match cursor.step(global, scope) {
        ChainStep::Stage(stage, rest) => {
            log.push(format!("pre-{}", stage.name));
            let response = if stage.short_circuit {
                format!("resp-{}", stage.name)
            } else {
                run_chain(global, scope, rest, log, handler_ran)
            };
            log.push(format!("post-{}", stage.name));
            response
        },
        ChainStep::Terminal => {
            *handler_ran = true;
            String::from("resp-H")
        },
    }
}

#[test]
fn test_chain_onion_order() {
    let global = vec![Stage { name: "A", short_circuit: false }];
    let scope = vec![Stage { name: "B", short_circuit: false }];
    let mut log = Vec::new();
    let mut handler_ran = false;
    let response = run_chain(&global, &scope, ChainCursor::new(), &mut log, &mut handler_ran);
    assert!(handler_ran);
    assert_eq!(response, "resp-H");
    assert_eq!(log, vec!["pre-A", "pre-B", "post-B", "post-A"]);
}

#[test]
fn test_chain_short_circuit_skips_handler() {
    // Global stage A wraps scope stage B; B never calls its
    // continuation.  The handler must never run, and A's
    // post-continuation logic still runs exactly once, on B's response.
    let global = vec![Stage { name: "A", short_circuit: false }];
    let scope = vec![Stage { name: "B", short_circuit: true }];
    let mut log = Vec::new();
    let mut handler_ran = false;
    let response = run_chain(&global, &scope, ChainCursor::new(), &mut log, &mut handler_ran);
    assert!(!handler_ran);
    assert_eq!(response, "resp-B");
    assert_eq!(log, vec!["pre-A", "pre-B", "post-B", "post-A"]);
    assert_eq!(log.iter().filter(|e| **e == "post-A").count(), 1);
}

#[test]
fn test_chain_empty_runs_handler_directly() {
    let global: Vec<Stage> = Vec::new();
    let scope: Vec<Stage> = Vec::new();
    let mut log = Vec::new();
    let mut handler_ran = false;
    let response = run_chain(&global, &scope, ChainCursor::new(), &mut log, &mut handler_ran);
    assert!(handler_ran);
    assert_eq!(response, "resp-H");
    assert!(log.is_empty());
}

#[test]
fn test_engine_middleware_order_global_then_scope() {
    let mut engine: Engine<&'static str, ()> = Engine::new();
    engine.use_middleware("global-1");
    engine.use_middleware("global-2");
    let api = engine.group("/api");
    engine.group_use_middleware(api, "scope-1");

    let global = engine.middlewares();
    let scope = engine.group_at(api).middlewares();
    let mut seen = Vec::new();
    let mut cursor = ChainCursor::new();
    loop {
        match cursor.step(global, scope) {
            ChainStep::Stage(stage, rest) => {
                seen.push(*stage);
                cursor = rest;
            },
            ChainStep::Terminal => break,
        }
    }
    assert_eq!(seen, vec!["global-1", "global-2", "scope-1"]);
}

#[test]
fn test_cors_defaults_and_builders() {
    let cors = Cors::new();
    assert_eq!(cors.allow_origin, "*");
    assert_eq!(cors.allow_methods, "GET, POST, PUT, DELETE, OPTIONS");
    assert_eq!(cors.allow_headers, "Content-Type, Authorization");

    let cors = Cors::new()
        .allow_origin("https://example.test")
        .allow_methods("GET")
        .allow_headers("X-Custom");
    assert_eq!(cors.allow_origin, "https://example.test");
    assert_eq!(cors.allow_methods, "GET");
    assert_eq!(cors.allow_headers, "X-Custom");
}

#[test]
fn test_convert_path_format() {
    assert_eq!(convert_path_format(b"/p/:lang/doc"), seg("/p/{lang}/doc"));
    assert_eq!(convert_path_format(b"/static/*filepath"), seg("/static/{filepath}"));
    assert_eq!(convert_path_format(b"/plain/path"), seg("/plain/path"));
    assert_eq!(convert_path_format(b""), seg(""));
}

#[test]
fn test_swagger_ui_embeds_url() {
    let html = generate_swagger_ui("/docs/swagger.json");
    assert!(html.contains("url: '/docs/swagger.json'"));
    assert!(html.contains("<!DOCTYPE html>"));
    assert!(html.contains("SwaggerUIBundle"));
}

#[test]
fn test_engine_param_routes() {
    let mut engine: Engine<(), &'static str> = Engine::new();
    engine.get("/hello/:name", "hello name");
    engine.get("/assets/*filepath", "assets");

    match engine.handle_request("GET", "/hello/world", ParamMap::new()) {
        RouteOutcome::Found(handler, params) => {
            assert_eq!(*handler, "hello name");
            assert_eq!(params.get(b"name").unwrap(), &seg("world"));
        },
        RouteOutcome::NotFound => panic!("route should match"),
    }
    match engine.handle_request("GET", "/assets/js/app.js", ParamMap::new()) {
        RouteOutcome::Found(handler, params) => {
            assert_eq!(*handler, "assets");
            assert_eq!(params.get(b"filepath").unwrap(), &seg("js/app.js"));
        },
        RouteOutcome::NotFound => panic!("route should match"),
    }
}
