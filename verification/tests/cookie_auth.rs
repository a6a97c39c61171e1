use scan::cookie_auth::{
    auth_cookie, build_clear_cookie, build_cookie, clamp_seconds, clear_auth_cookie,
    cookie_should_be_secure, SameSitePolicy, MAX_LIFETIME_SECONDS,
};
use scan::origin_check::RequestHeaders;
use time::Duration;

const COOKIE_NAME: &str = "SCAN_PIN";

fn headers(forwarded_proto: Option<&str>) -> RequestHeaders {
    RequestHeaders {
        origin: None,
        host: None,
        forwarded_proto: forwarded_proto.map(|s| s.to_string()),
    }
}

#[test]
fn auth_cookie_uses_cookie_name() {
    let c = build_cookie("deadbeef", 24, false);
    assert_eq!(c.name(), COOKIE_NAME);
    assert_eq!(c.value(), "deadbeef");
    assert!(c.http_only().unwrap_or(false));
}

#[test]
fn auth_cookie_secure_flag_propagates() {
    let c = build_cookie("x", 24, true);
    assert_eq!(c.secure(), Some(true));
}

#[test]
fn clear_cookie_has_zero_max_age() {
    let c = build_clear_cookie(false);
    assert_eq!(c.value(), "");
    assert_eq!(c.max_age(), Some(Duration::ZERO));
}

#[test]
fn clamps_to_safe_range() {
    assert!(build_cookie("x", -1, false).max_age().unwrap().whole_seconds() >= 60);
    assert!(
        build_cookie("x", 24 * 365 * 100, false).max_age().unwrap().whole_seconds()
            <= MAX_LIFETIME_SECONDS as i64
    );
}

#[test]
fn cookie_secure_via_xfp() {
    assert!(cookie_should_be_secure(&headers(Some("https")), "http://example.com"));
}

#[test]
fn cookie_secure_via_base_url() {
    let h = headers(None);
    assert!(cookie_should_be_secure(&h, "https://app.example"));
    assert!(!cookie_should_be_secure(&h, "http://app.example"));
}

#[test]
fn cookie_secure_xfp_ignores_case_but_not_other_values() {
    assert!(cookie_should_be_secure(&headers(Some("HTTPS")), "http://example.com"));
    assert!(!cookie_should_be_secure(&headers(Some("http")), "http://example.com"));
    assert!(!cookie_should_be_secure(&headers(Some("https ")), "http://example.com"));
}

#[test]
fn cookie_attributes_are_fixed() {
    let c = build_cookie("v", 1, false);
    assert_eq!(c.path(), Some("/"));
    assert_eq!(c.same_site(), Some(axum_extra::extract::cookie::SameSite::Strict));
    assert_eq!(c.max_age(), Some(Duration::seconds(3600)));
    let a = auth_cookie("v", 1, true);
    assert_eq!(a.name, "SCAN_PIN");
    assert_eq!(a.path, "/");
    assert!(a.http_only && a.secure);
    assert_eq!(a.same_site, SameSitePolicy::Strict);
    assert_eq!(a.max_age_seconds, 3600);
}

#[test]
fn lifetime_clamp_exact_values() {
    assert_eq!(clamp_seconds(-5), 60);
    assert_eq!(clamp_seconds(0), 60);
    assert_eq!(clamp_seconds(59), 60);
    assert_eq!(clamp_seconds(61), 61);
    assert_eq!(clamp_seconds(2_592_001), 2_592_000);
    assert_eq!(clamp_seconds(i64::MAX), 2_592_000);
    assert_eq!(auth_cookie("x", i64::MAX, false).max_age_seconds, 2_592_000);
    assert_eq!(auth_cookie("x", i64::MIN, false).max_age_seconds, 60);
    assert_eq!(auth_cookie("x", 24, false).max_age_seconds, 86_400);
}

#[test]
fn clear_cookie_record() {
    let c = clear_auth_cookie(true);
    assert_eq!(c.value, "");
    assert_eq!(c.max_age_seconds, 0);
    assert!(c.secure);
}
