use rustapi::request::{hex, merge_query_value};
use rustapi::Request;

#[test]
fn parses_simple_query() {
    let q = Request::parse_query("a=1&b=2");
    assert_eq!(q.get("a").unwrap(), "1");
    assert_eq!(q.get("b").unwrap(), "2");
}

#[test]
fn parses_urlencoded() {
    let q = Request::parse_query("name=Alice%20Smith&age=30");
    assert_eq!(q.get("name").unwrap(), "Alice Smith");
    assert_eq!(q.get("age").unwrap(), "30");
}

#[test]
fn parses_plus_as_space() {
    let q = Request::parse_query("q=hello+world");
    assert_eq!(q.get("q").unwrap(), "hello world");
}

#[test]
fn merges_multi_values() {
    let q = Request::parse_query("tag=a&tag=b&tag=c");
    assert_eq!(q.get("tag").unwrap(), "a,b,c");
}

#[test]
fn empty_query_is_empty() {
    assert!(Request::parse_query("").is_empty());
    assert!(Request::parse_query("&&").is_empty());
}

#[test]
fn key_without_value_and_value_with_equals() {
    let q = Request::parse_query("flag&x=a=b&=v");
    assert_eq!(q.get("flag").unwrap(), "");
    assert_eq!(q.get("x").unwrap(), "a=b");
    assert_eq!(q.get("").unwrap(), "v");
    assert_eq!(q.len(), 3);
}

#[test]
fn malformed_escapes_stay_as_they_are() {
    let q = Request::parse_query("a=%zz&b=%4&c=100%&d=%41%62");
    assert_eq!(q.get("a").unwrap(), "%zz");
    assert_eq!(q.get("b").unwrap(), "%4");
    assert_eq!(q.get("c").unwrap(), "100%");
    assert_eq!(q.get("d").unwrap(), "Ab");
}

#[test]
fn escapes_in_keys_and_utf8() {
    let q = Request::parse_query("caf%C3%A9=cr%c3%a8me&bad=%FF");
    assert_eq!(q.get("café").unwrap(), "crème");
    assert_eq!(q.get("bad").unwrap(), "\u{FFFD}");
}

#[test]
fn merging_keeps_empty_values() {
    let q = Request::parse_query("t=&t=x&t");
    assert_eq!(q.get("t").unwrap(), ",x,");
}

#[test]
fn hex_digits() {
    assert_eq!(hex(b'0'), Some(0));
    assert_eq!(hex(b'9'), Some(9));
    assert_eq!(hex(b'a'), Some(10));
    assert_eq!(hex(b'F'), Some(15));
    assert_eq!(hex(b'g'), None);
    assert_eq!(hex(b'/'), None);
}

#[test]
fn merge_query_value_appends_with_comma() {
    let mut p = rustapi::Params::new();
    merge_query_value(&mut p, "k".to_string(), "1".to_string());
    merge_query_value(&mut p, "j".to_string(), "x".to_string());
    merge_query_value(&mut p, "k".to_string(), "2".to_string());
    assert_eq!(p.get("k").unwrap(), "1,2");
    assert_eq!(p.get("j").unwrap(), "x");
    assert_eq!(p.entries()[0].0, "k");
}

#[test]
fn query_keys_are_the_decoded_keys_of_nonempty_pieces() {
    let q = Request::parse_query("a%2Bb=1&&c+d=2&");
    assert_eq!(q.len(), 2);
    assert_eq!(q.get("a+b").unwrap(), "1");
    assert_eq!(q.get("c d").unwrap(), "2");
}

#[test]
fn params_insert_replaces_in_place() {
    let mut p = rustapi::Params::new();
    p.insert("a".to_string(), "1".to_string());
    p.insert("b".to_string(), "2".to_string());
    p.insert("a".to_string(), "3".to_string());
    let keys: Vec<&str> = p.entries().iter().map(|(k, _)| k.as_str()).collect();
    assert_eq!(keys, vec!["a", "b"]);
    assert_eq!(p.get("a").unwrap(), "3");
    assert!(p.contains_key("b"));
    assert!(!p.contains_key("c"));
}
