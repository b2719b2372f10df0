use dino::error::AppError;
use dino::method::HttpMethod;
use dino::router::{ProjectRoute, ProjectRoutes, SwappableAppRouter};

fn expect_build_err(r: Result<SwappableAppRouter, AppError>) -> AppError {
    match r {
        Err(e) => e,
        Ok(_) => panic!("expected the build to fail"),
    }
}

fn entry(method: &str, handler: &str) -> ProjectRoute {
    ProjectRoute { method: method.to_string(), handler: handler.to_string() }
}

fn demo_routes() -> ProjectRoutes {
    vec![
        ("/api/hello/{id}".to_string(), vec![entry("GET", "hello")]),
        ("/api/{name}/{id}".to_string(), vec![entry("POST", "hello")]),
    ]
}

fn param<'a>(params: &'a [(String, String)], name: &str) -> Option<&'a str> {
    for (k, v) in params {
        if k == name {
            return Some(v.as_str());
        }
    }
    None
}

#[test]
fn app_router_match_should_work() {
    let router = SwappableAppRouter::try_new("", &demo_routes()).unwrap();
    let app_router = router.load();
    let m = app_router.match_it(HttpMethod::Get, "/api/hello/1").unwrap();

    assert_eq!(m.value, "hello");
    assert_eq!(param(&m.params, "id"), Some("1"));

    let m = app_router.match_it(HttpMethod::Post, "/api/abc/1").unwrap();
    assert_eq!(m.value, "hello");
    assert_eq!(param(&m.params, "name"), Some("abc"));
    assert_eq!(param(&m.params, "id"), Some("1"));
}

#[test]
fn app_router_swap_should_work() {
    let router = SwappableAppRouter::try_new("", &demo_routes()).unwrap();
    let app_router = router.load();

    let m = app_router.match_it(HttpMethod::Post, "/api/abc/1").unwrap();
    assert_eq!(m.value, "hello");
    assert_eq!(param(&m.params, "name"), Some("abc"));
    assert_eq!(param(&m.params, "id"), Some("1"));

    let new_routes: ProjectRoutes = vec![
        ("/api/hello/{id}".to_string(), vec![entry("GET", "hello")]),
        ("/api/{name}/{id}".to_string(), vec![entry("POST", "handler2")]),
    ];
    router.swap("", &new_routes).unwrap();
    let app_router = router.load();

    let m = app_router.match_it(HttpMethod::Post, "/api/abc/1").unwrap();
    assert_eq!(m.value, "handler2");
    assert_eq!(param(&m.params, "name"), Some("abc"));
    assert_eq!(param(&m.params, "id"), Some("1"));
}

#[test]
fn literal_outranks_parameter() {
    let routes: ProjectRoutes = vec![
        ("/api/{name}".to_string(), vec![entry("GET", "by_param")]),
        ("/api/hello".to_string(), vec![entry("GET", "by_literal")]),
    ];
    let router = SwappableAppRouter::try_new("", &routes).unwrap();
    let app_router = router.load();

    let m = app_router.match_it(HttpMethod::Get, "/api/hello").unwrap();
    assert_eq!(m.value, "by_literal");

    let m = app_router.match_it(HttpMethod::Get, "/api/other").unwrap();
    assert_eq!(m.value, "by_param");
}

#[test]
fn wildcard_binds_remainder_and_yields() {
    let routes: ProjectRoutes = vec![
        ("/files/{*path}".to_string(), vec![entry("GET", "serve")]),
        ("/files/{one}".to_string(), vec![entry("GET", "single")]),
    ];
    let router = SwappableAppRouter::try_new("", &routes).unwrap();
    let app_router = router.load();

    let m = app_router.match_it(HttpMethod::Get, "/files/a/b.txt").unwrap();
    assert_eq!(m.value, "serve");
    assert_eq!(param(&m.params, "path"), Some("a/b.txt"));

    let m = app_router.match_it(HttpMethod::Get, "/files/a").unwrap();
    assert_eq!(m.value, "single");
}

#[test]
fn unsupported_verb_fails_build() {
    let routes: ProjectRoutes = vec![
        ("/api/hello/{id}".to_string(), vec![entry("GET", "hello")]),
        ("/api/other".to_string(), vec![entry("FETCH", "nope")]),
    ];
    let err = expect_build_err(SwappableAppRouter::try_new("", &routes));
    match err {
        AppError::UnsupportedMethod(tok) => assert_eq!(tok, "FETCH"),
        other => panic!("unexpected error: {other:?}"),
    }
}

#[test]
fn verb_tokens_are_case_insensitive() {
    let routes: ProjectRoutes =
        vec![("/api/hello".to_string(), vec![entry("get", "hello"), entry("Post", "create")])];
    let router = SwappableAppRouter::try_new("", &routes).unwrap();
    let app_router = router.load();
    assert_eq!(app_router.match_it(HttpMethod::Get, "/api/hello").unwrap().value, "hello");
    assert_eq!(app_router.match_it(HttpMethod::Post, "/api/hello").unwrap().value, "create");
}

#[test]
fn pattern_without_leading_slash_is_invalid() {
    let routes: ProjectRoutes = vec![("api/hello".to_string(), vec![entry("GET", "hello")])];
    let err = expect_build_err(SwappableAppRouter::try_new("", &routes));
    assert!(matches!(err, AppError::InvalidPattern(_)));
}

#[test]
fn inner_wildcard_is_invalid() {
    let routes: ProjectRoutes =
        vec![("/a/{*rest}/b".to_string(), vec![entry("GET", "hello")])];
    let err = expect_build_err(SwappableAppRouter::try_new("", &routes));
    assert!(matches!(err, AppError::InvalidPattern(_)));
}

#[test]
fn equal_capture_patterns_are_duplicates() {
    let routes: ProjectRoutes = vec![
        ("/api/{x}".to_string(), vec![entry("GET", "first")]),
        ("/api/{y}".to_string(), vec![entry("GET", "second")]),
    ];
    let err = expect_build_err(SwappableAppRouter::try_new("", &routes));
    match err {
        AppError::DuplicateRoute(p) => assert_eq!(p, "/api/{y}"),
        other => panic!("unexpected error: {other:?}"),
    }
}

#[test]
fn method_without_handler_is_not_allowed() {
    let router = SwappableAppRouter::try_new("", &demo_routes()).unwrap();
    let app_router = router.load();
    let err = app_router.match_it(HttpMethod::Post, "/api/hello/1").unwrap_err();
    match &err {
        AppError::RouteMethodNotAllowed(m) => assert_eq!(*m, HttpMethod::Post),
        other => panic!("unexpected error: {other:?}"),
    }
    assert_eq!(err.status_code(), 405);
}

#[test]
fn unmatched_path_is_not_found() {
    let router = SwappableAppRouter::try_new("", &demo_routes()).unwrap();
    let app_router = router.load();
    let err = app_router.match_it(HttpMethod::Get, "/nothing/here/at/all").unwrap_err();
    match &err {
        AppError::RoutePathNotFound(p) => assert_eq!(p, "/nothing/here/at/all"),
        other => panic!("unexpected error: {other:?}"),
    }
    assert_eq!(err.status_code(), 404);
}

#[test]
fn swap_through_one_clone_is_seen_by_all() {
    // Clones of a holder share one cell: a reload through the watcher's
    // handle is visible to the handle the registry keeps.
    let router = SwappableAppRouter::try_new("before", &demo_routes()).unwrap();
    let watcher_handle = router.clone();

    let new_routes: ProjectRoutes =
        vec![("/api/hello/{id}".to_string(), vec![entry("GET", "after_reload")])];
    watcher_handle.swap("after", &new_routes).unwrap();

    let seen = router.load();
    assert_eq!(seen.code(), "after");
    assert_eq!(seen.match_it(HttpMethod::Get, "/api/hello/1").unwrap().value, "after_reload");
}

#[test]
fn failed_swap_keeps_live_snapshot() {
    let router = SwappableAppRouter::try_new("old code", &demo_routes()).unwrap();

    let bad: ProjectRoutes = vec![("/x".to_string(), vec![entry("FETCH", "h")])];
    assert!(router.swap("new code", &bad).is_err());

    let app_router = router.load();
    assert_eq!(app_router.code(), "old code");
    assert_eq!(app_router.match_it(HttpMethod::Get, "/api/hello/1").unwrap().value, "hello");
}

#[test]
fn load_after_swap_sees_whole_new_snapshot() {
    let router = SwappableAppRouter::try_new("code one", &demo_routes()).unwrap();
    let in_flight = router.load();

    let new_routes: ProjectRoutes =
        vec![("/api/hello/{id}".to_string(), vec![entry("GET", "handler2")])];
    router.swap("code two", &new_routes).unwrap();

    // A reader that loaded before the swap keeps its self-consistent pair.
    assert_eq!(in_flight.code(), "code one");
    assert_eq!(in_flight.match_it(HttpMethod::Get, "/api/hello/1").unwrap().value, "hello");

    // A load after the swap sees the new table and the new source together.
    let fresh = router.load();
    assert_eq!(fresh.code(), "code two");
    assert_eq!(fresh.match_it(HttpMethod::Get, "/api/hello/1").unwrap().value, "handler2");
}
