use webhookpush::config::{parse_cors_origins, parse_list, Config};
use webhookpush::error::STATUS_PAYLOAD_TOO_LARGE;
use webhookpush::hook::{check_content_length, check_meta_size, is_expired, send_offset_ms};
use webhookpush::meta::encode_hook_meta;
use webhookpush::models::HookMeta;
use webhookpush::rate_limiter::RateLimiter;

#[test]
fn rate_limit_zero_is_unlimited() {
    let mut rl = RateLimiter::new(0);
    for t in 0..100i64 {
        assert!(rl.allow("key", t));
    }
}

#[test]
fn rate_limit_caps_calls_within_a_window() {
    let mut rl = RateLimiter::new(2);
    assert!(rl.allow("u1", 0));
    assert!(rl.allow("u1", 5_000));
    assert!(!rl.allow("u1", 10_000));
    assert!(!rl.allow("u1", 59_999));
    // Another key has its own window.
    assert!(rl.allow("u2", 10_000));
    // A lapsed window restarts.
    assert!(rl.allow("u1", 60_000));
    assert!(rl.allow("u1", 60_001));
    assert!(!rl.allow("u1", 60_002));
}

#[test]
fn meta_size_check_yields_body_budget() {
    assert_eq!(check_meta_size(100, 1000).unwrap(), 900);
    let err = check_meta_size(1001, 1000).unwrap_err();
    assert_eq!(err.status, STATUS_PAYLOAD_TOO_LARGE);
    assert_eq!(err.message, "payload exceeds limit");
}

#[test]
fn content_length_check_rejects_oversize_early() {
    assert!(check_content_length(None, 100).is_ok());
    assert!(check_content_length(Some(100), 100).is_ok());
    let err = check_content_length(Some(101), 100).unwrap_err();
    assert_eq!(err.status, STATUS_PAYLOAD_TOO_LARGE);
}

#[test]
fn send_offsets_grow_by_one_delay_per_chunk() {
    assert_eq!(send_offset_ms(1, 50), 0);
    assert_eq!(send_offset_ms(2, 50), 50);
    assert_eq!(send_offset_ms(11, 50), 500);
    assert_eq!(send_offset_ms(5, 0), 0);
}

#[test]
fn expiry_is_strictly_older_than_cutoff() {
    let day = 86_400_000i64;
    assert!(is_expired(0, 31 * day, 30));
    assert!(!is_expired(day, 31 * day, 30));
    assert!(!is_expired(5 * day, 31 * day, 30));
}

#[test]
fn parse_list_trims_and_drops_empties() {
    let items = parse_list("a, b ,,c,");
    assert_eq!(items, vec!["a".to_string(), "b".to_string(), "c".to_string()]);
    assert_eq!(parse_list(""), Vec::<String>::new());
    assert_eq!(parse_list(" , ,"), Vec::<String>::new());
}

#[test]
fn cors_origins_star_allows_any() {
    let (any, list) = parse_cors_origins("http://a.example, *");
    assert!(any);
    assert!(list.is_empty());
    let (any, list) = parse_cors_origins("http://a.example, http://b.example");
    assert!(!any);
    assert_eq!(list, vec!["http://a.example".to_string(), "http://b.example".to_string()]);
}

#[test]
fn config_validate_rejects_zero_limits() {
    let cfg = Config {
        bind_addr: "0.0.0.0:3000".to_string(),
        public_base_url: "http://localhost:3000".to_string(),
        db_path: "webhookpush.redb".to_string(),
        static_dir: "frontend".to_string(),
        cors_allow_any: false,
        cors_origins: vec![],
        allowed_push_hosts: vec![],
        webhook_read_timeout_ms: 3000,
        vapid_public_key: String::new(),
        vapid_private_key: String::new(),
        vapid_subject: "mailto:admin@example.com".to_string(),
        max_payload_bytes: 100 * 1024,
        chunk_data_bytes: 2400,
        chunk_delay_ms: 50,
        subscription_ttl_days: 30,
        rate_limit_per_minute: 60,
        queue_max_bytes: 50 * 1024 * 1024,
        queue_workers: 2,
    };
    assert!(cfg.validate().is_ok());
    let mut bad = cfg.clone();
    bad.chunk_data_bytes = 0;
    assert_eq!(bad.validate().unwrap_err().message, "CHUNK_DATA_BYTES must be > 0");
    let mut bad = cfg.clone();
    bad.max_payload_bytes = 0;
    assert_eq!(bad.validate().unwrap_err().message, "MAX_PAYLOAD_BYTES must be > 0");
}

#[test]
fn hook_meta_serializes_canonically_with_escaping() {
    let meta = HookMeta {
        timestamp: "2024-01-01T00:00:00+00:00".to_string(),
        method: "POST".to_string(),
        path: "/hook/abcd".to_string(),
        query_string: "a=1&b=2".to_string(),
        headers: vec![
            ("content-type".to_string(), "text/plain".to_string()),
            ("x-quote".to_string(), "say \"hi\"\n".to_string()),
        ],
        source_ip: "127.0.0.1".to_string(),
    };
    let json = encode_hook_meta(&meta);
    let expected = "{\"timestamp\":\"2024-01-01T00:00:00+00:00\",\"method\":\"POST\",\"path\":\"/hook/abcd\",\"query_string\":\"a=1&b=2\",\"headers\":{\"content-type\":\"text/plain\",\"x-quote\":\"say \\\"hi\\\"\\n\"},\"source_ip\":\"127.0.0.1\"}";
    assert_eq!(json, expected);
    // The escaping matches the reference JSON serializer's.
    let value: serde_json::Value = serde_json::from_str(&json).unwrap();
    assert_eq!(value["headers"]["x-quote"], "say \"hi\"\n");
}
