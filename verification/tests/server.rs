use rustapi::server::{
    finish_dispatch, make_test_request, prepare_dispatch, render_headers, valid_server_name, BodyCollector,
    Dispatch,
};
use http::{HeaderMap, HeaderValue};
use rustapi::{Method, Response, Router, ServerConfig};

#[test]
fn default_config() {
    let c = ServerConfig::default();
    assert_eq!(c.host, "127.0.0.1");
    assert_eq!(c.port, 8080);
    assert_eq!(c.max_body_size, 10 * 1024 * 1024);
    assert_eq!(c.server_name, "rustapi/0.1");
    assert!(!c.request_logging);
}

#[test]
fn body_collector_enforces_limit() {
    let mut b = BodyCollector::new(5);
    assert!(b.push_frame(b"abc"));
    assert!(!b.push_frame(b"def"));
    assert!(b.push_frame(b"de"));
    assert!(!b.push_frame(b"f"));
    assert!(b.push_frame(b""));
    assert_eq!(b.into_bytes(), b"abcde");
}

fn router() -> Router<&'static str> {
    let mut r = Router::new();
    r.add(Method::GET, "/users/{id}", "user").unwrap();
    r
}

#[test]
fn dispatch_invokes_with_full_request() {
    let r = router();
    let mut headers = HeaderMap::new();
    headers.insert("x-a", HeaderValue::from_static("1"));
    match prepare_dispatch(
        &r,
        &Method::GET,
        "/users/9".to_string(),
        "a=1&a=2".to_string(),
        headers,
        Some(b"body".to_vec()),
        Some("127.0.0.1:5000".to_string()),
    ) {
        Dispatch::Invoke(h, req) => {
            assert_eq!(*h, "user");
            assert_eq!(req.method, "GET");
            assert_eq!(req.path, "/users/9");
            assert_eq!(req.query_params.get("a").unwrap(), "1,2");
            assert_eq!(req.path_params.get("id").unwrap(), "9");
            assert_eq!(req.body, b"body");
            assert_eq!(req.headers.get("x-a").unwrap(), "1");
            assert_eq!(req.remote_addr.as_deref(), Some("127.0.0.1:5000"));
        }
        Dispatch::Respond(_) => panic!("expected a handler call"),
    }
}

#[test]
fn dispatch_answers_404_405_and_500() {
    let r = router();
    let status = |d: Dispatch<&'static str>| match d {
        Dispatch::Respond(resp) => resp.status,
        Dispatch::Invoke(..) => 0,
    };
    assert_eq!(status(prepare_dispatch(&r, &Method::GET, "/x".into(), String::new(), HeaderMap::new(), Some(vec![]), None)), 404);
    assert_eq!(status(prepare_dispatch(&r, &Method::POST, "/users/1".into(), String::new(), HeaderMap::new(), Some(vec![]), None)), 405);
    assert_eq!(status(prepare_dispatch(&r, &Method::GET, "/users/1".into(), String::new(), HeaderMap::new(), None, None)), 500);
}

#[test]
fn finish_turns_errors_into_500() {
    let ok = finish_dispatch(Ok(Response::text(b"fine".to_vec())));
    assert_eq!(ok.status, 200);
    let err = finish_dispatch(Err("handler failed".to_string()));
    assert_eq!(err.status, 500);
    assert_eq!(err.body, b"{\"detail\":\"handler failed\",\"error\":\"internal server error\"}");
}

#[test]
fn render_adds_server_header_unless_empty() {
    let resp = Response::text(b"x".to_vec()).with_header("X-A", "1");
    let mut config = ServerConfig::default();
    let lines = render_headers(&resp, &config);
    assert_eq!(
        lines,
        vec![
            ("content-type".to_string(), b"text/plain; charset=utf-8".to_vec()),
            ("x-a".to_string(), b"1".to_vec()),
            ("server".to_string(), b"rustapi/0.1".to_vec()),
        ]
    );
    config.server_name = String::new();
    assert_eq!(render_headers(&resp, &config).len(), 2);
}

#[test]
fn test_request_splits_target() {
    let (m, path, qs, headers, body) = make_test_request("POST", "/a/b?x=1?y", b"z".to_vec());
    assert!(m.same_as(&Method::POST));
    assert_eq!(path, "/a/b");
    assert_eq!(qs, "x=1?y");
    assert!(headers.is_empty());
    assert_eq!(body, b"z");
    let (_, path, qs, _, _) = make_test_request("GET", "/plain", Vec::new());
    assert_eq!(path, "/plain");
    assert_eq!(qs, "");
}

#[test]
fn render_keeps_every_value_of_a_header() {
    let resp = Response::text(b"x".to_vec()).with_header("set-cookie", "a=1").with_header("Set-Cookie", "b=2");
    let mut config = ServerConfig::default();
    config.server_name = String::new();
    let lines = render_headers(&resp, &config);
    assert_eq!(lines.len(), 3);
    assert_eq!(lines[1], ("set-cookie".to_string(), b"a=1".to_vec()));
    assert_eq!(lines[2], ("set-cookie".to_string(), b"b=2".to_vec()));
}

#[test]
fn server_name_must_be_a_header_value() {
    assert!(valid_server_name(""));
    assert!(valid_server_name("rustapi/0.1"));
    assert!(!valid_server_name("rustapi\n"));
    assert!(!valid_server_name("a\u{7f}"));
}

#[test]
fn test_request_has_the_standard_method() {
    let (m, path, qs, headers, body) = make_test_request("GET", "/users/42?x=1&y=2", b"hi".to_vec());
    assert!(matches!(m, Method::GET));
    assert_eq!(path, "/users/42");
    assert_eq!(qs, "x=1&y=2");
    assert!(headers.is_empty());
    assert_eq!(body, b"hi");
    assert_eq!(make_test_request("POST", "/a", Vec::new()).2, "");
    let (m, _, _, _, _) = make_test_request("PURGE", "/a", Vec::new());
    assert!(matches!(m, Method::Extension(_)));
}
