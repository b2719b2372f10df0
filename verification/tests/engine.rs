use dino::engine::{JsProp, Req, Res, Response, Request};
use dino::error::AppError;

fn pairs(list: &[(&str, &str)]) -> Vec<(String, String)> {
    list.iter().map(|(k, v)| (k.to_string(), v.to_string())).collect()
}

fn demo_req() -> Req {
    Req {
        method: "GET".to_string(),
        url: "/api/hello/1?x=2".to_string(),
        query: pairs(&[("x", "2")]),
        params: pairs(&[("id", "1")]),
        headers: pairs(&[("accept", "application/json")]),
        body: Some("ping".to_string()),
    }
}

fn prop<'a>(obj: &'a [(String, JsProp)], name: &str) -> Option<&'a JsProp> {
    obj.iter().find(|(k, _)| k == name).map(|(_, v)| v)
}

#[test]
fn marshal_sets_every_field_as_named_property() {
    let req = demo_req();
    let obj = req.to_js_object();
    assert_eq!(obj.len(), 6);
    assert_eq!(prop(&obj, "method"), Some(&JsProp::Text("GET".to_string())));
    assert_eq!(prop(&obj, "url"), Some(&JsProp::Text("/api/hello/1?x=2".to_string())));
    assert_eq!(prop(&obj, "query"), Some(&JsProp::Table(pairs(&[("x", "2")]))));
    assert_eq!(prop(&obj, "params"), Some(&JsProp::Table(pairs(&[("id", "1")]))));
    assert_eq!(
        prop(&obj, "headers"),
        Some(&JsProp::Table(pairs(&[("accept", "application/json")])))
    );
    assert_eq!(prop(&obj, "body"), Some(&JsProp::Text("ping".to_string())));
}

#[test]
fn marshal_absent_body_is_null() {
    let mut req = demo_req();
    req.body = None;
    let obj = req.to_js_object();
    assert_eq!(prop(&obj, "body"), Some(&JsProp::Null));
}

#[test]
fn runner_request_marshals_field_by_field() {
    let req = Request {
        headers: pairs(&[("accept", "*/*")]),
        method: "GET".to_string(),
        url: "/".to_string(),
        body: None,
    };
    let obj = req.to_js_object();
    assert_eq!(obj.len(), 4);
    assert_eq!(prop(&obj, "headers"), Some(&JsProp::Table(pairs(&[("accept", "*/*")]))));
    assert_eq!(prop(&obj, "method"), Some(&JsProp::Text("GET".to_string())));
    assert_eq!(prop(&obj, "url"), Some(&JsProp::Text("/".to_string())));
    assert_eq!(prop(&obj, "body"), Some(&JsProp::Null));
}

#[test]
fn demarshal_reads_status_headers_body() {
    let obj = vec![
        ("status".to_string(), JsProp::Num(200)),
        ("headers".to_string(), JsProp::Table(pairs(&[("content-type", "application/json")]))),
        ("body".to_string(), JsProp::Text("{}".to_string())),
    ];
    let res = Res::from_js_object(&obj).unwrap();
    assert_eq!(res.status, 200);
    assert_eq!(res.headers, pairs(&[("content-type", "application/json")]));
    assert_eq!(res.body, Some("{}".to_string()));
}

#[test]
fn demarshal_headers_default_to_empty() {
    let obj = vec![("status".to_string(), JsProp::Num(204))];
    let res = Res::from_js_object(&obj).unwrap();
    assert_eq!(res.status, 204);
    assert!(res.headers.is_empty());
    assert_eq!(res.body, None);
}

#[test]
fn demarshal_missing_status_is_invalid() {
    let obj = vec![("body".to_string(), JsProp::Text("hi".to_string()))];
    let err = Res::from_js_object(&obj).unwrap_err();
    assert!(matches!(err, AppError::InvalidResponse(_)));
    assert_eq!(err.status_code(), 500);
}

#[test]
fn demarshal_non_numeric_status_is_invalid() {
    let obj = vec![("status".to_string(), JsProp::Text("200".to_string()))];
    assert!(Res::from_js_object(&obj).is_err());
}

#[test]
fn demarshal_status_range_is_sixteen_bit() {
    let ok = vec![("status".to_string(), JsProp::Num(65535))];
    assert_eq!(Res::from_js_object(&ok).unwrap().status, 65535);

    let over = vec![("status".to_string(), JsProp::Num(65536))];
    assert!(Res::from_js_object(&over).is_err());

    let negative = vec![("status".to_string(), JsProp::Num(-1))];
    assert!(Res::from_js_object(&negative).is_err());
}

#[test]
fn demarshal_works_for_runner_response_too() {
    let obj = vec![
        ("status".to_string(), JsProp::Num(201)),
        ("headers".to_string(), JsProp::Table(pairs(&[("x", "y")]))),
    ];
    let res = Response::from_js_object(&obj).unwrap();
    assert_eq!(res.status, 201);
    assert_eq!(res.headers, pairs(&[("x", "y")]));
    assert_eq!(res.body, None);
}

#[test]
fn missing_handler_maps_to_500() {
    let err = AppError::HandlerNotFound("hello".to_string());
    assert_eq!(err.status_code(), 500);
    assert_eq!(err.message(), "Handler not found: hello");
}

#[test]
fn script_failure_maps_to_500() {
    let err = AppError::ScriptError("handler threw".to_string());
    assert_eq!(err.status_code(), 500);
    assert_eq!(err.message(), "Script error: handler threw");
}

#[test]
fn echo_handler_round_trip_preserves_request_fields() {
    // An identity-echo handler answers with an explicit status beside the
    // marshaled request's own headers and body properties.
    let req = demo_req();
    let marshaled = req.to_js_object();
    let echoed = vec![
        ("status".to_string(), JsProp::Num(200)),
        ("headers".to_string(), prop(&marshaled, "headers").unwrap().clone()),
        ("body".to_string(), prop(&marshaled, "body").unwrap().clone()),
    ];
    let res = Res::from_js_object(&echoed).unwrap();
    assert_eq!(res.status, 200);
    assert_eq!(res.headers, req.headers);
    assert_eq!(res.body, req.body);
}
