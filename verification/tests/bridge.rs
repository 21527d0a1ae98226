use rustapi::bridge::{PyApp, PyRequest, PyResponse, RegisterError, ToEngineError};
use http::{HeaderMap, HeaderValue};
use rustapi::{Params, Request, RouterError};

fn request() -> Request {
    let mut headers = HeaderMap::new();
    headers.append("x-a", HeaderValue::from_static("one"));
    headers.append("x-bin", HeaderValue::from_bytes(&[0xff, 0x41]).unwrap());
    headers.append("x-a", HeaderValue::from_static("two"));
    Request {
        method: "GET".to_string(),
        path: "/p".to_string(),
        query_string: "a=1".to_string(),
        query_params: Request::parse_query("a=1"),
        headers,
        path_params: Params::new(),
        body: "h\u{e9}".as_bytes().to_vec(),
        remote_addr: None,
    }
}

#[test]
fn python_request_keeps_text_headers() {
    let r = PyRequest::from_engine(request());
    assert_eq!(r.method(), "GET");
    assert_eq!(r.headers().get("x-a").unwrap(), "two");
    assert!(r.headers().get("x-bin").is_none());
    assert_eq!(r.query_params().get("a").unwrap(), "1");
    assert_eq!(r.text().unwrap(), "h\u{e9}");
    assert_eq!(r.remote_addr(), None);
}

#[test]
fn python_request_text_rejects_invalid_utf8() {
    let mut req = request();
    req.body = vec![0xc3];
    assert!(PyRequest::from_engine(req).text().is_err());
}

#[test]
fn python_response_to_engine() {
    let mut headers = Params::new();
    headers.insert("X-One".to_string(), "1".to_string());
    headers.insert("bad header".to_string(), "2".to_string());
    let pr = PyResponse::new(b"[]".to_vec(), 201, "application/json", Some(headers));
    let r = pr.to_engine().unwrap();
    assert_eq!(r.status, 201);
    assert_eq!(r.headers.get("x-one").unwrap(), "1");
    assert_eq!(r.headers.get("content-type").unwrap(), "application/json");
    assert_eq!(r.headers.len(), 2);
    let mut again = Params::new();
    again.insert("Content-Type".to_string(), "text/csv".to_string());
    let r = PyResponse::new(b"a,b".to_vec(), 200, "text/plain", Some(again)).to_engine().unwrap();
    let types: Vec<&HeaderValue> = r.headers.get_all("content-type").iter().collect();
    assert_eq!(types, ["text/plain", "text/csv"]);
    let odd = PyResponse::text("t", 42, None).to_engine().unwrap();
    assert_eq!(odd.status, 500);
    assert_eq!(odd.body, b"t");
}

#[test]
fn python_json_response() {
    let pr = PyResponse::json_text("{\"k\":1}".to_string(), 200, None);
    assert_eq!(pr.content_type(), "application/json; charset=utf-8");
    assert_eq!(pr.body(), b"{\"k\":1}");
}

#[test]
fn app_registers_and_counts() {
    let mut app: PyApp<u8> = PyApp::new("srv".to_string());
    assert!(app.register("GET", "/a", 1).is_ok());
    assert!(matches!(app.register("G ET", "/a", 2), Err(RegisterError::BadMethod)));
    assert!(matches!(app.register("GET", "/a", 3), Err(RegisterError::Route(RouterError::Conflict(_)))));
    assert_eq!(app.route_count(), 1);
    let config = app.run_config(Some("0.0.0.0"), None);
    assert_eq!(config.host, "0.0.0.0");
    assert_eq!(config.port, 8080);
    assert_eq!(config.server_name, "srv");
    let router = app.take_router();
    assert_eq!(router.len(), 1);
    assert_eq!(app.route_count(), 0);
}

#[test]
fn python_response_with_bad_content_type_is_an_error() {
    let pr = PyResponse::new(b"x".to_vec(), 200, "text/plain\n", None);
    assert!(matches!(pr.to_engine(), Err(ToEngineError::InvalidContentType)));
    let mut many = Params::new();
    for i in 0..6553 {
        many.insert(format!("x-{i}"), "v".to_string());
    }
    let pr = PyResponse::new(b"x".to_vec(), 200, "text/plain", Some(many));
    assert!(matches!(pr.to_engine(), Err(ToEngineError::TooManyHeaders)));
    let mut enough = Params::new();
    for i in 0..6552 {
        enough.insert(format!("x-{i}"), "v".to_string());
    }
    let r = PyResponse::new(b"x".to_vec(), 200, "text/plain", Some(enough)).to_engine().unwrap();
    assert_eq!(r.headers.len(), 6553);
}
