use rustapi::router::{matches_any_method, route_within_param_limit};
use rustapi::{Method, Router, RouterError};

fn dummy_handler() -> &'static str {
    "ok"
}

#[test]
fn adds_and_matches_static_route() {
    let mut r = Router::new();
    r.add(Method::GET, "/health", dummy_handler()).unwrap();
    let (_h, params) = r.match_route(&Method::GET, "/health").unwrap();
    assert!(params.is_empty());
    assert_eq!(r.len(), 1);
}

#[test]
fn extracts_path_params() {
    let mut r = Router::new();
    r.add(Method::GET, "/users/{id}", dummy_handler()).unwrap();
    let (_, params) = r.match_route(&Method::GET, "/users/42").unwrap();
    assert_eq!(params.get("id").unwrap(), "42");
}

#[test]
fn returns_405_when_method_wrong() {
    let mut r = Router::new();
    r.add(Method::GET, "/users/{id}", dummy_handler()).unwrap();
    match r.match_route(&Method::DELETE, "/users/42") {
        Err(RouterError::MethodNotAllowed) => (),
        other => panic!("expected 405, got {}", other.map(|_| "Ok").unwrap_err().message()),
    }
}

#[test]
fn returns_404_when_no_match() {
    let mut r = Router::new();
    r.add(Method::GET, "/users/{id}", dummy_handler()).unwrap();
    match r.match_route(&Method::GET, "/nope") {
        Err(RouterError::NotFound) => (),
        other => panic!("expected 404, got {}", other.map(|_| "Ok").unwrap_err().message()),
    }
}

#[test]
fn detects_duplicate_registration() {
    let mut r = Router::new();
    r.add(Method::GET, "/x", dummy_handler()).unwrap();
    match r.add(Method::GET, "/x", dummy_handler()) {
        Err(RouterError::Conflict(_)) => (),
        other => panic!("expected Conflict, got {:?}", other.map(|_| "Ok").err()),
    }
}

#[test]
fn conflict_names_method_and_pattern_and_keeps_count() {
    let mut r = Router::new();
    r.add(Method::POST, "/items", 1u32).unwrap();
    match r.add(Method::POST, "/items", 2u32) {
        Err(RouterError::Conflict(msg)) => assert_eq!(msg, "POST /items"),
        other => panic!("expected Conflict, got {:?}", other.err()),
    }
    assert_eq!(r.len(), 1);
    let (h, _) = r.match_route(&Method::POST, "/items").unwrap();
    assert_eq!(*h, 1);
}

#[test]
fn same_pattern_under_two_methods_is_two_routes() {
    let mut r = Router::new();
    r.add(Method::GET, "/users/{id}", "get").unwrap();
    r.add(Method::DELETE, "/users/{id}", "delete").unwrap();
    assert_eq!(r.len(), 2);
    let (h, params) = r.match_route(&Method::DELETE, "/users/7").unwrap();
    assert_eq!(*h, "delete");
    assert_eq!(params.get("id").unwrap(), "7");
    let (h, _) = r.match_route(&Method::GET, "/users/7").unwrap();
    assert_eq!(*h, "get");
}

#[test]
fn invalid_pattern_is_reported_and_registers_nothing() {
    let mut r = Router::new();
    match r.add(Method::GET, "/users/{id", 0u8) {
        Err(RouterError::InvalidPattern(msg)) => assert!(msg.starts_with("/users/{id: ")),
        other => panic!("expected InvalidPattern, got {:?}", other.err()),
    }
    assert_eq!(r.len(), 0);
    assert!(r.is_empty());
    // Refused again for the same reason, not as a conflict.
    assert!(matches!(r.add(Method::GET, "/users/{id", 0u8), Err(RouterError::InvalidPattern(_))));
    assert!(matches!(r.match_route(&Method::GET, "/users/1"), Err(RouterError::NotFound)));
    // The method's routes still work after a refusal.
    r.add(Method::GET, "/users/{id}", 1u8).unwrap();
    assert!(matches!(r.add(Method::GET, "/users/{id", 0u8), Err(RouterError::InvalidPattern(_))));
    assert_eq!(r.len(), 1);
    assert_eq!(*r.match_route(&Method::GET, "/users/1").unwrap().0, 1);
}

#[test]
fn tree_conflict_is_an_invalid_pattern() {
    let mut r = Router::new();
    r.add(Method::GET, "/users/{id}", 0u8).unwrap();
    match r.add(Method::GET, "/users/{name}", 1u8) {
        Err(RouterError::InvalidPattern(msg)) => assert!(msg.starts_with("/users/{name}: ")),
        other => panic!("expected InvalidPattern, got {:?}", other.err()),
    }
    assert_eq!(r.len(), 1);
    let (h, params) = r.match_route(&Method::GET, "/users/9").unwrap();
    assert_eq!(*h, 0);
    assert_eq!(params.get("id").unwrap(), "9");
}

#[test]
fn catch_all_route_gives_405_to_other_methods() {
    let mut r = Router::new();
    r.add(Method::GET, "/files/{*rest}", 0u8).unwrap();
    let (_, params) = r.match_route(&Method::GET, "/files/a/b").unwrap();
    assert_eq!(params.get("rest").unwrap(), "a/b");
    assert!(matches!(r.match_route(&Method::POST, "/files/a/b"), Err(RouterError::MethodNotAllowed)));
}

#[test]
fn empty_segment_is_not_a_parameter() {
    let mut r = Router::new();
    r.add(Method::GET, "/users/{id}", 0u8).unwrap();
    assert!(matches!(r.match_route(&Method::GET, "/users/"), Err(RouterError::NotFound)));
    assert!(matches!(r.match_route(&Method::POST, "/users/"), Err(RouterError::NotFound)));
}

#[test]
fn empty_router_answers_not_found() {
    let r: Router<u8> = Router::new();
    assert!(r.is_empty());
    assert!(matches!(r.match_route(&Method::GET, "/"), Err(RouterError::NotFound)));
}

#[test]
fn path_params_of_several_segments() {
    let mut r = Router::new();
    r.add(Method::GET, "/a/{x}/b/{y}", ()).unwrap();
    let (_, params) = r.match_route(&Method::GET, "/a/1/b/two").unwrap();
    assert_eq!(params.len(), 2);
    assert_eq!(params.get("x").unwrap(), "1");
    assert_eq!(params.get("y").unwrap(), "two");
}

#[test]
fn other_method_match_is_405_and_no_match_is_404() {
    let mut r = Router::new();
    r.add(Method::POST, "/a/{x}", ()).unwrap();
    assert!(matches!(r.match_route(&Method::GET, "/a/1"), Err(RouterError::MethodNotAllowed)));
    assert!(matches!(r.match_route(&Method::GET, "/a/1/2"), Err(RouterError::NotFound)));
    assert!(matches!(r.match_route(&Method::GET, "/b/1"), Err(RouterError::NotFound)));
}

#[test]
fn matches_any_method_by_segments() {
    assert!(matches_any_method("/users/{id}", "/users/42"));
    assert!(matches_any_method("/users/{id}", "/users/"));
    assert!(!matches_any_method("/users/{id}", "/users"));
    assert!(!matches_any_method("/users/{id}", "/posts/42"));
    assert!(matches_any_method("/", "/"));
    assert!(!matches_any_method("/{", "/x"));
    assert!(matches_any_method("/{}", "/x"));
}

#[test]
fn error_messages() {
    assert_eq!(RouterError::InvalidPattern("p".to_string()).message(), "invalid route pattern: p");
    assert_eq!(RouterError::Conflict("GET /x".to_string()).message(), "route conflict: GET /x");
    assert_eq!(RouterError::MethodNotAllowed.message(), "method not allowed");
    assert_eq!(RouterError::NotFound.message(), "not found");
}

#[test]
fn method_parsing() {
    assert!(matches!(Method::from_bytes(b"GET"), Ok(Method::GET)));
    assert!(matches!(Method::from_bytes(b"QUERY"), Ok(Method::QUERY)));
    match Method::from_bytes(b"PURGE") {
        Ok(m) => assert_eq!(m.as_str(), "PURGE"),
        Err(_) => panic!("PURGE is a valid extension method"),
    }
    match Method::from_bytes(b"get") {
        Ok(m) => {
            assert_eq!(m.as_str(), "get");
            assert!(!m.same_as(&Method::GET));
        }
        Err(_) => panic!("lower-case methods are extension methods"),
    }
    assert!(Method::from_bytes(b"").is_err());
    assert!(Method::from_bytes(b"GE T").is_err());
    assert!(Method::from_bytes(b"G(ET").is_err());
}

#[test]
fn resolve_match_from_tree_results() {
    let mut r = Router::new();
    r.add(Method::GET, "/users/{id}", "user").unwrap();
    let found = Some((0usize, vec![("id".to_string(), "5".to_string())]));
    let (h, params) = r.resolve_match(found, false).unwrap();
    assert_eq!(*h, "user");
    assert_eq!(params.get("id").unwrap(), "5");
    assert!(matches!(r.resolve_match(None, true), Err(RouterError::MethodNotAllowed)));
    assert!(matches!(r.resolve_match(None, false), Err(RouterError::NotFound)));
    let dup = Some((0usize, vec![("a".to_string(), "1".to_string()), ("a".to_string(), "2".to_string())]));
    let (_, params) = r.resolve_match(dup, true).unwrap();
    assert_eq!(params.get("a").unwrap(), "2");
}

#[test]
fn registration_result_from_tree_outcome() {
    assert!(rustapi::router::registration_result("/p", Ok(())).is_ok());
    match rustapi::router::registration_result("/p", Err("reason".to_string())) {
        Err(RouterError::InvalidPattern(msg)) => assert_eq!(msg, "/p: reason"),
        other => panic!("expected InvalidPattern, got {:?}", other),
    }
}

#[test]
fn param_limit_counts_named_parameters() {
    assert!(route_within_param_limit("/a/{b}"));
    let many: String = (0..26).map(|i| format!("/{{p{i}}}")).collect();
    assert!(!route_within_param_limit(&many));
    let enough: String = (0..25).map(|i| format!("/{{p{i}}}")).collect();
    assert!(route_within_param_limit(&enough));
    // A catch-all is no named parameter.
    let with_catch_all = format!("{enough}/{{*rest}}");
    assert!(route_within_param_limit(&with_catch_all));
    // Escaped braces are literal text.
    let escaped_pairs: String = (0..30).map(|_| "/{{x}}").collect();
    assert!(route_within_param_limit(&escaped_pairs));
    // Right after a parameter, an escaped brace may start one.
    let after_params: String = (0..13).map(|i| format!("/{{ab{i}}}{{{{x}}")).collect();
    assert!(!route_within_param_limit(&after_params));
}

#[test]
fn refused_twenty_sixth_parameter_is_kept_out() {
    let mut r = Router::new();
    let enough: String = (0..25).map(|i| format!("/{{p{i}}}")).collect();
    r.add(Method::GET, &enough, 0u8).unwrap();
    let path: String = (0..25).map(|i| format!("/{i}")).collect();
    let (_, params) = r.match_route(&Method::GET, &path).unwrap();
    assert_eq!(params.len(), 25);
    assert_eq!(params.get("p24").unwrap(), "24");
}

#[test]
fn accepted_route_keeps_its_handler_under_other_routes() {
    let mut r = Router::new();
    r.add(Method::GET, "/a", 10u32).unwrap();
    r.add(Method::GET, "/b", 20u32).unwrap();
    r.add(Method::POST, "/a", 30u32).unwrap();
    assert_eq!(*r.match_route(&Method::GET, "/a").unwrap().0, 10);
    assert_eq!(*r.match_route(&Method::GET, "/b").unwrap().0, 20);
    assert_eq!(*r.match_route(&Method::POST, "/a").unwrap().0, 30);
    assert_eq!(r.len(), 3);
}
