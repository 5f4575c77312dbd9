use webhookpush::error::{
    STATUS_FORBIDDEN, STATUS_INTERNAL_SERVER_ERROR, STATUS_NOT_FOUND, STATUS_UNAUTHORIZED,
};
use webhookpush::models::{PushKeys, PushSubscription, StoredSubscription};
use webhookpush::validate::{
    authorize_unsubscribe, ensure_secure_base_url, host_allowed, subscription_url,
    validate_subscription,
};

fn make_subscription(endpoint: &str, p256dh_bytes: usize, auth_bytes: usize) -> PushSubscription {
    let p256dh = base64::encode_config(vec![1u8; p256dh_bytes], base64::URL_SAFE_NO_PAD);
    let auth = base64::encode_config(vec![2u8; auth_bytes], base64::URL_SAFE_NO_PAD);
    PushSubscription {
        endpoint: endpoint.to_string(),
        expiration_time: None,
        keys: PushKeys { p256dh, auth },
    }
}

#[test]
fn validate_subscription_accepts_valid() {
    let sub = make_subscription("https://example.com/endpoint", 65, 16);
    let allowed = vec!["example.com".to_string()];
    assert!(validate_subscription(&sub, &allowed).is_ok());
}

#[test]
fn validate_subscription_rejects_http() {
    let sub = make_subscription("http://example.com/endpoint", 65, 16);
    let allowed = vec!["example.com".to_string()];
    assert!(validate_subscription(&sub, &allowed).is_err());
}

#[test]
fn validate_subscription_rejects_invalid_p256dh() {
    let mut sub = make_subscription("https://example.com/endpoint", 65, 16);
    sub.keys.p256dh = "not-base64".to_string();
    let allowed = vec!["example.com".to_string()];
    assert!(validate_subscription(&sub, &allowed).is_err());
}

#[test]
fn validate_subscription_rejects_invalid_lengths() {
    let sub = make_subscription("https://example.com/endpoint", 64, 15);
    let allowed = vec!["example.com".to_string()];
    assert!(validate_subscription(&sub, &allowed).is_err());
}

#[test]
fn validate_subscription_rejects_64_and_17_byte_keys() {
    let allowed = vec!["example.com".to_string()];
    let sub = make_subscription("https://example.com/endpoint", 64, 16);
    let err = validate_subscription(&sub, &allowed).unwrap_err();
    assert_eq!(err.message, "invalid p256dh length");
    let sub = make_subscription("https://example.com/endpoint", 65, 17);
    let err = validate_subscription(&sub, &allowed).unwrap_err();
    assert_eq!(err.message, "invalid auth length");
}

#[test]
fn validate_subscription_error_details() {
    let allowed = vec!["example.com".to_string()];
    let sub = make_subscription("", 65, 16);
    let err = validate_subscription(&sub, &allowed).unwrap_err();
    assert_eq!(err.status, 400);
    assert_eq!(err.message, "endpoint required");
    let sub = make_subscription("https://other.example.org/x", 65, 16);
    let err = validate_subscription(&sub, &allowed).unwrap_err();
    assert_eq!(err.message, "endpoint host not allowed");
    let long = format!("https://example.com/{}", "a".repeat(2048));
    let sub = make_subscription(&long, 65, 16);
    let err = validate_subscription(&sub, &allowed).unwrap_err();
    assert_eq!(err.message, "endpoint too long");
}

#[test]
fn validate_subscription_allows_any_host_with_star() {
    let sub = make_subscription("https://anything.example.net/e", 65, 16);
    let allowed = vec!["*".to_string()];
    assert!(validate_subscription(&sub, &allowed).is_ok());
    assert!(validate_subscription(&sub, &[]).is_ok());
}

#[test]
fn host_allowed_ignores_ascii_case() {
    let allowed = vec!["FCM.googleapis.com".to_string()];
    assert!(host_allowed("fcm.googleapis.com", &allowed));
    assert!(!host_allowed("example.com", &allowed));
}

#[test]
fn ensure_secure_base_url_cases() {
    assert!(ensure_secure_base_url("https://push.example.com").is_ok());
    assert!(ensure_secure_base_url("http://localhost:3000").is_ok());
    assert!(ensure_secure_base_url("http://127.0.0.1:3000").is_ok());
    let err = ensure_secure_base_url("http://example.com").unwrap_err();
    assert_eq!(err.status, STATUS_INTERNAL_SERVER_ERROR);
    assert!(ensure_secure_base_url("not a url").is_err());
}

#[test]
fn subscription_url_trims_trailing_slashes() {
    assert_eq!(subscription_url("http://localhost:3000", "abcd1234"), "http://localhost:3000/abcd1234");
    assert_eq!(subscription_url("http://localhost:3000///", "abcd1234"), "http://localhost:3000/abcd1234");
}

fn stored(token: &str) -> StoredSubscription {
    StoredSubscription {
        subscription: make_subscription("https://example.com/e", 65, 16),
        created_at_ms: 0,
        delete_token: token.to_string(),
    }
}

#[test]
fn unsubscribe_requires_matching_token() {
    let s = stored("secret-token");
    let err = authorize_unsubscribe("", Some(&s)).unwrap_err();
    assert_eq!(err.status, STATUS_UNAUTHORIZED);
    let err = authorize_unsubscribe("wrong", None).unwrap_err();
    assert_eq!(err.status, STATUS_NOT_FOUND);
    let err = authorize_unsubscribe("wrong", Some(&s)).unwrap_err();
    assert_eq!(err.status, STATUS_FORBIDDEN);
    assert!(authorize_unsubscribe("secret-token", Some(&s)).is_ok());
}
