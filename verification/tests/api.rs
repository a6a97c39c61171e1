use scan::api::{default_true, ApiService};

#[test]
fn pin_failure_on_error_statuses() {
    for status in [400u16, 401, 429] {
        let r = ApiService::pin_failure(status, Some("Wrong PIN".to_string())).expect("failure");
        assert!(!r.success);
        assert_eq!(r.error.as_deref(), Some("Wrong PIN"));
    }
    assert!(ApiService::pin_failure(401, None).is_none());
    assert!(ApiService::pin_failure(200, Some("x".to_string())).is_none());
    assert!(ApiService::pin_failure(500, Some("x".to_string())).is_none());
}

#[test]
fn submit_failure_messages() {
    assert_eq!(ApiService::submit_failure_message(403, Some("forbidden".to_string())), "forbidden");
    assert_eq!(ApiService::submit_failure_message(500, None), "HTTP error 500");
    assert_eq!(ApiService::submit_failure_message(0, None), "HTTP error 0");
}

#[test]
fn request_shapes() {
    assert_eq!(ApiService::leaderboard_url("Alpha"), "/api/leaderboard?category=Alpha");
    let p = ApiService::submit_payload("ABC", 12, "Beta");
    assert_eq!((p.name.as_str(), p.score, p.category.as_str()), ("ABC", 12, "Beta"));
    assert_eq!(ApiService::pin_payload("1234").pin, "1234");
    assert!(default_true());
}
