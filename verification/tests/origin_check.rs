use scan::origin_check::{
    allow_null_origin_setting, assert_origin_allowed, origin_check_applies, origin_matches,
    OriginRejection, RequestHeaders,
};

fn post_with_origin(origin: Option<&str>) -> RequestHeaders {
    RequestHeaders { origin: origin.map(|o| o.to_string()), host: None, forwarded_proto: None }
}

fn assert_forbidden(base_url: &str, origin: Option<&str>, allow_null: bool) {
    let resp = assert_origin_allowed(&post_with_origin(origin), base_url, allow_null)
        .expect_err("should reject");
    assert_eq!(resp.status(), 403);
}

#[test]
fn missing_origin_rejected() {
    assert_forbidden("https://snake.example.com", None, false);
}

#[test]
fn matching_origin_allowed() {
    assert!(assert_origin_allowed(
        &post_with_origin(Some("https://snake.example.com")),
        "https://snake.example.com",
        false
    )
    .is_ok());
}

#[test]
fn cross_origin_rejected() {
    assert_forbidden("https://snake.example.com", Some("https://evil.example.com"), false);
}

#[test]
fn null_origin_rejected_by_default() {
    assert_forbidden("https://snake.example.com", Some("null"), false);
}

#[test]
fn null_origin_allowed_when_opt_in() {
    assert!(assert_origin_allowed(&post_with_origin(Some("null")), "https://snake.example.com", true)
        .is_ok());
}

#[test]
fn localhost_wildcard_accepts_any_port() {
    for origin in ["http://localhost:4501", "http://localhost:5173", "http://localhost:8080"] {
        assert!(
            assert_origin_allowed(&post_with_origin(Some(origin)), "http://localhost:4501", false)
                .is_ok(),
            "expected {origin} to be accepted"
        );
    }
}

#[test]
fn loopback_wildcard_accepts_any_port() {
    for origin in ["http://127.0.0.1:4501", "http://127.0.0.1:5173", "http://127.0.0.1"] {
        assert!(
            assert_origin_allowed(&post_with_origin(Some(origin)), "http://127.0.0.1:4501", false)
                .is_ok(),
            "expected {origin} to be accepted"
        );
    }
}

#[test]
fn production_rejects_loopback_origin() {
    let resp = assert_origin_allowed(
        &post_with_origin(Some("http://localhost:4501")),
        "https://snake.example.com",
        false,
    )
    .expect_err("reject");
    assert_eq!(resp.status(), 403);
}

#[test]
fn localhost_does_not_accept_garbage_port() {
    for bad in ["http://localhost:abc", "http://localhost:"] {
        let resp = assert_origin_allowed(&post_with_origin(Some(bad)), "http://localhost:4501", false)
            .expect_err("reject");
        assert_eq!(resp.status(), 403, "origin: {bad}");
    }
}

#[test]
fn host_header_same_origin_allowed() {
    let mut req = post_with_origin(Some("http://192.168.1.50:4501"));
    req.host = Some("192.168.1.50:4501".to_string());
    assert!(assert_origin_allowed(&req, "http://localhost:4501", false).is_ok());
}

#[test]
fn host_header_mismatch_rejected() {
    let mut req = post_with_origin(Some("http://192.168.1.50:4501"));
    req.host = Some("192.168.1.99:4501".to_string());
    let resp = assert_origin_allowed(&req, "http://localhost:4501", false).expect_err("reject");
    assert_eq!(resp.status(), 403);
}

#[test]
fn rejection_reasons_are_distinguished() {
    assert_eq!(
        assert_origin_allowed(&post_with_origin(None), "https://a.example", true),
        Err(OriginRejection::MissingOrigin)
    );
    assert_eq!(
        assert_origin_allowed(&post_with_origin(Some("NULL")), "https://a.example", false),
        Err(OriginRejection::NullOrigin)
    );
    assert_eq!(
        assert_origin_allowed(&post_with_origin(Some("https://b.example")), "https://a.example", false),
        Err(OriginRejection::CrossOrigin)
    );
    assert_eq!(OriginRejection::CrossOrigin.error_message(), "forbidden");
}

#[test]
fn https_host_header_is_stripped() {
    let mut req = post_with_origin(Some("https://lan.example:8443"));
    req.host = Some("lan.example:8443".to_string());
    assert!(assert_origin_allowed(&req, "https://other.example", false).is_ok());
}

#[test]
fn origin_matching_rules() {
    assert!(origin_matches("https://a.example", "https://a.example"));
    assert!(!origin_matches("https://a.example:1", "https://a.example"));
    assert!(origin_matches("http://localhost", "http://localhost:3000"));
    assert!(!origin_matches("http://localhost:12a", "http://localhost:3000"));
    assert!(!origin_matches("http://localhostevil", "http://localhost:3000"));
    assert!(origin_matches("http://127.0.0.1:9", "http://127.0.0.1"));
    assert!(!origin_matches("http://127.0.0.1:9", "http://localhost"));
}

#[test]
fn null_origin_setting_values() {
    for yes in ["true", "TRUE", "True", "1", "on", "ON", "On", "tRuE"] {
        assert!(allow_null_origin_setting(Some(yes)), "{yes}");
    }
    for no in ["false", "0", "off", "", "yes", " true"] {
        assert!(!allow_null_origin_setting(Some(no)), "{no}");
    }
    assert!(!allow_null_origin_setting(None));
}

#[test]
fn https_localhost_accepts_any_port() {
    assert!(origin_matches("https://localhost:3000", "https://localhost:8443"));
    assert!(origin_matches("https://127.0.0.1", "https://127.0.0.1:8443"));
    assert!(!origin_matches("http://localhost:3000", "https://localhost:8443"));
}

#[test]
fn loopback_wildcard_needs_exact_host() {
    assert!(!origin_matches("http://localhost:8080", "http://localhost.evil.example"));
    assert!(!origin_matches("http://127.0.0.1:8080", "http://127.0.0.10:4501"));
    assert_forbidden("http://localhost.evil.example", Some("http://localhost:8080"), false);
}

#[test]
fn only_post_is_checked() {
    assert!(origin_check_applies("POST"));
    assert!(!origin_check_applies("GET"));
    assert!(!origin_check_applies("post"));
}

#[test]
fn loopback_base_with_path_keeps_any_port() {
    assert!(origin_matches("http://localhost:5173", "http://localhost:4501/"));
    assert!(origin_matches("http://localhost:5173", "http://localhost/app"));
    assert!(origin_matches("https://127.0.0.1:3000", "https://127.0.0.1:8443/game/"));
    assert!(!origin_matches("http://localhost:5173/", "http://localhost:4501/"));
    assert!(!origin_matches("https://localhost:5173", "http://localhost:4501/"));
    let req = post_with_origin(Some("http://localhost:5173"));
    assert_eq!(assert_origin_allowed(&req, "http://localhost:4501/", false), Ok(()));
}
