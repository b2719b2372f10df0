use dino::engine::{JsProp, Res};
use dino::error::AppError;
use dino::handler::{prepare_invocation, strip_port};
use dino::method::HttpMethod;
use dino::router::{ProjectRoute, ProjectRoutes, SwappableAppRouter};
use dino::{AppState, TenentRouter};

fn entry(method: &str, handler: &str) -> ProjectRoute {
    ProjectRoute { method: method.to_string(), handler: handler.to_string() }
}

fn hello_state(code: &str) -> AppState {
    let routes: ProjectRoutes =
        vec![("/api/hello/{id}".to_string(), vec![entry("GET", "hello")])];
    let router = SwappableAppRouter::try_new(code, &routes).unwrap();
    AppState::new(vec![TenentRouter::new("localhost", router)])
}

fn param<'a>(params: &'a [(String, String)], name: &str) -> Option<&'a str> {
    for (k, v) in params {
        if k == name {
            return Some(v.as_str());
        }
    }
    None
}

#[test]
fn dino_server_should_work() {}

#[test]
fn host_lookup_strips_port() {
    assert_eq!(strip_port("localhost:8080"), "localhost");
    assert_eq!(strip_port("localhost"), "localhost");
    assert_eq!(strip_port("a.example.com:443"), "a.example.com");
}

#[test]
fn resolve_returns_same_holder_for_same_host() {
    let state = hello_state("code");
    let first = state.resolve("localhost").unwrap();
    let second = state.resolve("localhost").unwrap();
    // Both handles read the same holder: they load the same snapshot.
    assert_eq!(first.load().code(), second.load().code());
}

#[test]
fn dispatch_serves_matched_handler() {
    // A request for a registered tenant, pattern and verb reaches the
    // handler the descriptor names, with the path parameter captured.
    let state = hello_state("bundled module text");
    let inv = prepare_invocation(
        &state,
        "localhost:3000",
        HttpMethod::Get,
        "/api/hello/1",
        "/api/hello/1",
        &Vec::new(),
        Vec::new(),
        Vec::new(),
    )
    .unwrap();
    assert_eq!(inv.code, "bundled module text");
    assert_eq!(inv.handler, "hello");
    assert_eq!(inv.req.method, "GET");
    assert_eq!(param(&inv.req.params, "id"), Some("1"));

    // The engine runs the handler; its reply decodes into the response the
    // transport layer sends.
    let reply = vec![
        ("status".to_string(), JsProp::Num(200)),
        (
            "headers".to_string(),
            JsProp::Table(vec![("content-type".to_string(), "application/json".to_string())]),
        ),
        ("body".to_string(), JsProp::Text("{}".to_string())),
    ];
    let res = Res::from_js_object(&reply).unwrap();
    assert_eq!(res.status, 200);
    assert_eq!(res.headers[0].0, "content-type");
    assert_eq!(res.headers[0].1, "application/json");
    assert_eq!(res.body, Some("{}".to_string()));
}

#[test]
fn dispatch_maps_wrong_verb_to_405() {
    let state = hello_state("code");
    let err = prepare_invocation(
        &state,
        "localhost",
        HttpMethod::Post,
        "/api/hello/1",
        "/api/hello/1",
        &Vec::new(),
        Vec::new(),
        Vec::new(),
    )
    .unwrap_err();
    assert!(matches!(err, AppError::RouteMethodNotAllowed(HttpMethod::Post)));
    assert_eq!(err.status_code(), 405);
}

#[test]
fn dispatch_maps_unknown_host_to_404() {
    let state = hello_state("code");
    let err = prepare_invocation(
        &state,
        "evil.example.com",
        HttpMethod::Get,
        "/api/hello/1",
        "/api/hello/1",
        &Vec::new(),
        Vec::new(),
        Vec::new(),
    )
    .unwrap_err();
    match &err {
        AppError::HostNotFound(h) => assert_eq!(h, "evil.example.com"),
        other => panic!("unexpected error: {other:?}"),
    }
    assert_eq!(err.status_code(), 404);
    assert_eq!(err.message(), "Host not found: evil.example.com");
}

#[test]
fn dispatch_assembles_request_from_transport_data() {
    let state = hello_state("code");
    let headers = vec![("accept".to_string(), "application/json".to_string())];
    let query = vec![("verbose".to_string(), "1".to_string())];
    let inv = prepare_invocation(
        &state,
        "localhost",
        HttpMethod::Get,
        "/api/hello/42",
        "/api/hello/42?verbose=1",
        &headers,
        query.clone(),
        b"the body".to_vec(),
    )
    .unwrap();
    assert_eq!(inv.req.url, "/api/hello/42?verbose=1");
    assert_eq!(inv.req.headers, headers);
    assert_eq!(inv.req.query, query);
    assert_eq!(inv.req.body, Some("the body".to_string()));
}

#[test]
fn invalid_utf8_body_is_dropped() {
    let state = hello_state("code");
    let inv = prepare_invocation(
        &state,
        "localhost",
        HttpMethod::Get,
        "/api/hello/1",
        "/api/hello/1",
        &Vec::new(),
        Vec::new(),
        vec![0xff, 0xfe],
    )
    .unwrap();
    assert_eq!(inv.req.body, None);
}

#[test]
fn reload_installs_new_snapshot_without_disturbing_in_flight_reader() {
    // The reload pipeline observed a qualifying change, rebuilt, and swaps.
    let routes: ProjectRoutes =
        vec![("/api/hello/{id}".to_string(), vec![entry("GET", "hello")])];
    let router = SwappableAppRouter::try_new("version one", &routes).unwrap();

    // A request in flight at the moment of the swap holds the old snapshot.
    let in_flight = router.load();

    let new_routes: ProjectRoutes =
        vec![("/api/hello/{id}".to_string(), vec![entry("GET", "hello_v2")])];
    router.swap("version two", &new_routes).unwrap();

    // The in-flight request completes against the pre-swap snapshot.
    assert_eq!(in_flight.code(), "version one");
    assert_eq!(in_flight.match_it(HttpMethod::Get, "/api/hello/7").unwrap().value, "hello");

    // The next request observes the post-swap snapshot.
    let next = router.load();
    assert_eq!(next.code(), "version two");
    assert_eq!(next.match_it(HttpMethod::Get, "/api/hello/7").unwrap().value, "hello_v2");
}
