use http::HeaderValue;
use rustapi::Response;

fn values(r: &Response, name: &str) -> Vec<String> {
    r.headers.get_all(name).iter().map(|v| v.to_str().unwrap().to_string()).collect()
}

#[test]
fn new_sets_content_type() {
    let r = Response::new(201, b"hi".to_vec(), "text/html");
    assert_eq!(r.status, 201);
    assert_eq!(r.body, b"hi");
    assert_eq!(r.headers.get("content-type").unwrap(), "text/html");
    assert_eq!(r.headers.len(), 1);
}

#[test]
fn json_and_text_helpers() {
    let j = Response::json(b"{}".to_vec());
    assert_eq!(j.status, 200);
    assert_eq!(j.headers.get("content-type").unwrap(), "application/json; charset=utf-8");
    let t = Response::text(b"ok".to_vec());
    assert_eq!(t.headers.get("content-type").unwrap(), "text/plain; charset=utf-8");
    assert_eq!(t.body, b"ok");
}

#[test]
fn error_responses() {
    let nf = Response::not_found();
    assert_eq!(nf.status, 404);
    assert_eq!(nf.body, b"{\"error\":\"not found\"}");
    let mna = Response::method_not_allowed();
    assert_eq!(mna.status, 405);
    assert_eq!(mna.body, b"{\"error\":\"method not allowed\"}");
}

#[test]
fn internal_error_body_is_sorted_json() {
    let r = Response::internal_error("boom");
    assert_eq!(r.status, 500);
    assert_eq!(r.body, b"{\"detail\":\"boom\",\"error\":\"internal server error\"}");
    let q = Response::internal_error("say \"hi\"\n");
    assert_eq!(
        String::from_utf8(q.body).unwrap(),
        "{\"detail\":\"say \\\"hi\\\"\\n\",\"error\":\"internal server error\"}"
    );
}

#[test]
fn with_header_normalizes_and_appends() {
    let r = Response::text(b"x".to_vec())
        .with_header("X-Trace", "1")
        .with_header("x-trace", "2")
        .with_header("Content-Type", "text/csv");
    assert_eq!(values(&r, "x-trace"), vec!["1", "2"]);
    assert_eq!(r.headers.get("X-TRACE").unwrap(), "1");
    assert_eq!(values(&r, "content-type"), vec!["text/plain; charset=utf-8", "text/csv"]);
    assert_eq!(r.headers.len(), 4);
}

#[test]
fn with_header_keeps_both_values_in_order() {
    let r = Response::text(b"x".to_vec()).with_header("x-a", "1");
    let r2 = r.with_header("x-a", "2");
    let got: Vec<&HeaderValue> = r2.headers.get_all("x-a").iter().collect();
    assert_eq!(got, ["1", "2"]);
    assert_eq!(r2.headers.get("content-type").unwrap(), "text/plain; charset=utf-8");
    assert_eq!(r2.status, 200);
    assert_eq!(r2.body, b"x");
}

#[test]
fn with_header_drops_malformed() {
    let r = Response::text(b"x".to_vec())
        .with_header("bad name", "v")
        .with_header("x-ok", "line\nbreak");
    assert_eq!(r.headers.len(), 1);
    assert!(r.headers.get("x-ok").is_none());
}

#[test]
fn canonical_header_needs_name_and_valid_value() {
    let r = Response::text(b"x".to_vec()).with_canonical_header(Some("x-k".to_string()), "v");
    assert_eq!(r.headers.get("x-k").unwrap(), "v");
    let r = r.with_canonical_header(None, "w");
    assert_eq!(r.headers.len(), 2);
    let r = r.with_canonical_header(Some("x-k".to_string()), "bad\u{7f}");
    assert_eq!(r.headers.get("x-k").unwrap(), "v");
}

#[test]
fn header_lines_group_by_first_arrival() {
    let r = Response::text(b"x".to_vec())
        .with_header("B", "1")
        .with_header("A", "2")
        .with_header("b", "3");
    let lines: Vec<(&str, &str)> =
        r.headers.iter().map(|(k, v)| (k.as_str(), v.to_str().unwrap())).collect();
    assert_eq!(
        lines,
        vec![("content-type", "text/plain; charset=utf-8"), ("b", "1"), ("b", "3"), ("a", "2")]
    );
    assert_eq!(r.headers.get("b").unwrap(), "1");
    assert!(r.headers.contains_key("A"));
    assert!(!r.headers.contains_key("c"));
    assert!(r.headers.get_all("b").iter().count() == 2);
}

#[test]
fn header_names_are_lowered_tokens() {
    let r = Response::text(b"x".to_vec()).with_header("X-Custom_Name.v1", "y");
    assert!(r.headers.contains_key("x-custom_name.v1"));
    assert_eq!(r.headers.keys().nth(1).unwrap().as_str(), "x-custom_name.v1");
    let r = r.with_header("", "v").with_header("a:b", "v").with_header("\u{e9}", "v");
    assert_eq!(r.headers.len(), 2);
}

#[test]
fn json_escapes_control_characters() {
    let r = Response::internal_error("a\u{1}b\tc\\d\u{7f}");
    assert_eq!(
        String::from_utf8(r.body).unwrap(),
        "{\"detail\":\"a\\u0001b\\tc\\\\d\u{7f}\",\"error\":\"internal server error\"}"
    );
}
