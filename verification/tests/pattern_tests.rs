use rouille::pattern::Pattern;

fn params_of(p: &Pattern, method: &str, path: &str) -> Vec<(String, String)> {
    p.matches(method, path).expect("expected a match")
}

#[test]
fn typed_capture_matches_digits() {
    let p = Pattern::new(Some(String::from("GET")), "/users/<id:u32>").unwrap();
    let params = params_of(&p, "GET", "/users/42");
    assert_eq!(params.len(), 1);
    assert_eq!(params[0].0, "id");
    assert_eq!(params[0].1, "42");
}

#[test]
fn typed_capture_rejects_non_digits() {
    let p = Pattern::new(Some(String::from("GET")), "/users/<id:u32>").unwrap();
    assert!(p.matches("GET", "/users/abc").is_none());
}

#[test]
fn segment_count_must_match_without_wildcard() {
    let p = Pattern::new(Some(String::from("GET")), "/users/<id:u32>").unwrap();
    assert!(p.matches("GET", "/users/42/extra").is_none());
    assert!(p.matches("GET", "/users").is_none());
}

#[test]
fn typed_capture_obeys_u32_range() {
    let p = Pattern::new(None, "/n/<v:u32>").unwrap();
    assert!(p.matches("GET", "/n/4294967295").is_some());
    assert!(p.matches("GET", "/n/4294967296").is_none());
    assert!(p.matches("GET", "/n/99999999999999999999").is_none());
}

#[test]
fn literals_are_case_sensitive() {
    let p = Pattern::new(None, "/Users").unwrap();
    assert!(p.matches("GET", "/users").is_none());
    assert!(p.matches("GET", "/Users").is_some());
}

#[test]
fn wildcard_captures_remainder() {
    let p = Pattern::new(Some(String::from("GET")), "/files/*rest").unwrap();
    let params = params_of(&p, "GET", "/files/a/b/c");
    assert_eq!(params.len(), 1);
    assert_eq!(params[0].0, "rest");
    assert_eq!(params[0].1, "a/b/c");
}

#[test]
fn wildcard_capture_may_be_empty() {
    let p = Pattern::new(Some(String::from("GET")), "/files/*rest").unwrap();
    let params = params_of(&p, "GET", "/files");
    assert_eq!(params.len(), 1);
    assert_eq!(params[0].0, "rest");
    assert_eq!(params[0].1, "");
}

#[test]
fn wildcard_must_be_last() {
    assert!(Pattern::new(None, "/files/*rest/tail").is_none());
    assert!(Pattern::new(None, "/files/*rest").is_some());
}

#[test]
fn method_must_match_exactly() {
    let p = Pattern::new(Some(String::from("GET")), "/x").unwrap();
    assert!(p.matches("POST", "/x").is_none());
    assert!(p.matches("GET", "/x").is_some());
}

#[test]
fn wildcard_method_matches_any() {
    let p = Pattern::new(None, "/x").unwrap();
    assert!(p.matches("GET", "/x").is_some());
    assert!(p.matches("POST", "/x").is_some());
    assert!(p.matches("DELETE", "/x").is_some());
}

#[test]
fn named_capture_records_segment() {
    let p = Pattern::new(None, "/hello/<name>").unwrap();
    let params = params_of(&p, "GET", "/hello/world");
    assert_eq!(params.len(), 1);
    assert_eq!(params[0].0, "name");
    assert_eq!(params[0].1, "world");
}

#[test]
fn typed_capture_allows_space_after_colon() {
    let p = Pattern::new(None, "/users/<id: u32>").unwrap();
    let params = params_of(&p, "GET", "/users/7");
    assert_eq!(params[0].0, "id");
    assert_eq!(params[0].1, "7");
    assert!(p.matches("GET", "/users/x").is_none());
}

#[test]
fn empty_segments_are_dropped() {
    let p = Pattern::new(None, "/a/b").unwrap();
    assert!(p.matches("GET", "/a//b/").is_some());
    assert!(p.matches("GET", "a/b").is_some());
}

#[test]
fn match_url_decodes_before_matching() {
    let p = Pattern::new(None, "/hello/<name>").unwrap();
    let params = p.match_url("GET", "/hello/john%20doe").expect("expected a match");
    assert_eq!(params[0].1, "john doe");
}

#[test]
fn mixed_pattern_binds_in_order() {
    let p = Pattern::new(None, "/api/<version>/items/<id:u32>/*rest").unwrap();
    let params = params_of(&p, "GET", "/api/v2/items/10/a/b");
    assert_eq!(params.len(), 3);
    assert_eq!(params[0].0, "version");
    assert_eq!(params[0].1, "v2");
    assert_eq!(params[1].0, "id");
    assert_eq!(params[1].1, "10");
    assert_eq!(params[2].0, "rest");
    assert_eq!(params[2].1, "a/b");
}
