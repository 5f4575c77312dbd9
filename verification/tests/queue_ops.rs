use webhookpush::error::STATUS_SERVICE_UNAVAILABLE;
use webhookpush::queue::{
    decode_record, encode_record, QueueRecord, QueueState, MAX_ATTEMPTS, RETRY_DELAY_MS,
};
use webhookpush::worker::{resolve_send, SendOutcome, WorkerAction};

fn record(uuid: &str, payload: &[u8], send_after_ms: i64, attempts: u32) -> QueueRecord {
    QueueRecord {
        uuid: uuid.to_string(),
        payload: payload.to_vec(),
        send_after_ms,
        attempts,
    }
}

#[test]
fn record_codec_round_trips() {
    let cases = vec![
        record("abcd1234", b"payload bytes", 1_700_000_000_123, 0),
        record("", b"", -5, 4),
        record("with unicode \u{00e9}", b"\x00\xff\x10", i64::MIN, u32::MAX),
    ];
    for r in cases {
        let bytes = encode_record(&r).unwrap();
        let d = decode_record(&bytes).unwrap();
        assert_eq!(d.uuid, r.uuid);
        assert_eq!(d.payload, r.payload);
        assert_eq!(d.send_after_ms, r.send_after_ms);
        assert_eq!(d.attempts, r.attempts);
    }
}

#[test]
fn record_decode_rejects_corrupt_input() {
    assert!(decode_record(&[]).is_err());
    assert!(decode_record(&[4u8, 1, 2]).is_err());
    let r = record("abc", b"xy", 7, 1);
    let mut bytes = encode_record(&r).unwrap();
    bytes.truncate(bytes.len() - 1);
    assert!(decode_record(&bytes).is_err());
}

#[test]
fn enqueue_assigns_strictly_increasing_sequences() {
    let mut q = QueueState::new();
    let s0 = q.enqueue(vec![1, 2, 3], 1000).unwrap();
    let s1 = q.enqueue(vec![4, 5], 1000).unwrap();
    let s2 = q.enqueue(vec![6], 1000).unwrap();
    assert!(s0 < s1 && s1 < s2);
    assert_eq!((s0, s1, s2), (0, 1, 2));
    assert_eq!(q.queue_bytes_value(), 6);
}

#[test]
fn enqueue_rejects_when_full() {
    let mut q = QueueState::new();
    q.enqueue(vec![0u8; 6], 10).unwrap();
    let err = q.enqueue(vec![0u8; 5], 10).unwrap_err();
    assert_eq!(err.status, STATUS_SERVICE_UNAVAILABLE);
    assert_eq!(err.message, "queue full");
    assert_eq!(q.queue_bytes_value(), 6);
    q.enqueue(vec![0u8; 4], 10).unwrap();
    assert_eq!(q.queue_bytes_value(), 10);
}

#[test]
fn claim_drop_requeue_keep_byte_accounting() {
    let mut q = QueueState::new();
    let ready = encode_record(&record("u1", b"abc", 0, 0)).unwrap();
    let later = encode_record(&record("u2", b"defg", i64::MAX, 0)).unwrap();
    let ready_len = ready.len() as u64;
    let later_len = later.len() as u64;
    q.enqueue(later.clone(), u64::MAX).unwrap();
    let s1 = q.enqueue(ready.clone(), u64::MAX).unwrap();
    assert_eq!(q.queue_bytes_value(), ready_len + later_len);

    // The first pending record is not ready; the second is claimed.
    let (seq, bytes) = q.claim_next(1_000).unwrap();
    assert_eq!(seq, s1);
    assert_eq!(bytes, ready);
    assert_eq!(q.queue_bytes_value(), ready_len + later_len);
    assert!(q.claim_next(1_000).is_none());

    // Requeue under a new sequence number: accounting is unchanged.
    let new_seq = q.requeue_inflight(seq, ready.clone());
    assert_eq!(new_seq, 2);
    assert_eq!(q.queue_bytes_value(), ready_len + later_len);

    // Claim again and resolve it: its bytes are released.
    let (seq2, _) = q.claim_next(1_000).unwrap();
    assert_eq!(seq2, new_seq);
    q.drop_inflight(seq2);
    assert_eq!(q.queue_bytes_value(), later_len);
}

#[test]
fn from_parts_checks_the_invariant() {
    let q = QueueState::from_parts(
        vec![(0, vec![1, 2]), (3, vec![3])],
        vec![(1, vec![4, 5, 6])],
        7,
    )
    .unwrap();
    assert_eq!(q.next_seq_value(), 7);
    assert_eq!(q.queue_bytes_value(), 6);
    // Pending out of order.
    assert!(QueueState::from_parts(vec![(3, vec![]), (0, vec![])], vec![], 7).is_none());
    // A sequence number at or above next_seq.
    assert!(QueueState::from_parts(vec![(9, vec![])], vec![], 7).is_none());
    // A duplicated sequence number.
    assert!(QueueState::from_parts(vec![(1, vec![])], vec![(1, vec![])], 7).is_none());
}

#[test]
fn retry_policy_bumps_attempts_and_drops_at_limit() {
    let r = record("u1", b"abc", 0, 0);
    match resolve_send(&r, SendOutcome::Retryable, 10_000) {
        WorkerAction::Requeue { record } => {
            assert_eq!(record.attempts, 1);
            assert_eq!(record.send_after_ms, 10_000 + RETRY_DELAY_MS);
            assert_eq!(record.uuid, r.uuid);
            assert_eq!(record.payload, r.payload);
        },
        _ => panic!("expected a requeue"),
    }
    let worn = record("u1", b"abc", 0, MAX_ATTEMPTS - 1);
    assert!(matches!(resolve_send(&worn, SendOutcome::Retryable, 0), WorkerAction::Remove));
    assert!(matches!(resolve_send(&r, SendOutcome::Delivered, 0), WorkerAction::Remove));
    assert!(matches!(
        resolve_send(&r, SendOutcome::SubscriptionDead, 0),
        WorkerAction::RemoveAndDeleteSubscription
    ));
    assert!(matches!(resolve_send(&r, SendOutcome::PayloadTooLarge, 0), WorkerAction::Remove));
}
