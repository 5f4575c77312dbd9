use webhookpush::chunker::{
    chunk_bytes, frame_prefix, resolve_chunk_size, resolve_chunking, Chunker,
};
use webhookpush::envdec::decode_envelope;
use webhookpush::envelope::encode_envelope;
use webhookpush::error::STATUS_PAYLOAD_TOO_LARGE;
use webhookpush::models::ChunkEnvelope;

const MAX_ENVELOPE_BYTES: usize = 3000;

#[test]
fn resolve_chunking_keeps_envelope_under_limit() {
    let payload = vec![0u8; 10_000];
    let request_id = "req-1";
    let chunk_size = resolve_chunk_size(request_id, 2400, payload.len()).unwrap();
    assert!(chunk_size > 0 && chunk_size <= 2400);

    let chunks: Vec<&[u8]> = payload.chunks(chunk_size).collect();
    let total_chunks = chunks.len();

    for (index, chunk) in chunks.iter().enumerate() {
        let is_last = index + 1 == total_chunks;
        let envelope = ChunkEnvelope {
            request_id: request_id.to_string(),
            chunk_index: index + 1,
            total_chunks: if is_last { Some(total_chunks) } else { None },
            is_last,
            data: base64::encode(chunk),
        };
        let size = encode_envelope(&envelope).len();
        assert!(size <= MAX_ENVELOPE_BYTES);
    }
}

#[test]
fn resolve_chunking_fixed_point() {
    let payload = vec![7u8; 10_000];
    let (chunk_size, total_chunks) = resolve_chunking(&payload, "req-1", 2400).unwrap();
    assert!(chunk_size >= 1 && chunk_size <= 2400);
    assert_eq!(total_chunks, (payload.len() + chunk_size - 1) / chunk_size);
}

#[test]
fn resolve_chunk_size_rejects_huge_overhead() {
    let request_id = "r".repeat(3000);
    let err = resolve_chunk_size(&request_id, 2400, 10_000).unwrap_err();
    assert_eq!(err.status, STATUS_PAYLOAD_TOO_LARGE);
}

#[test]
fn chunk_bytes_splits_exactly() {
    let r = chunk_bytes(&[], 4);
    assert_eq!(r, vec![Vec::<u8>::new()]);
    let r = chunk_bytes(&[1, 2, 3, 4, 5, 6, 7, 8], 4);
    assert_eq!(r, vec![vec![1, 2, 3, 4], vec![5, 6, 7, 8]]);
    let r = chunk_bytes(&[1, 2, 3, 4, 5], 4);
    assert_eq!(r, vec![vec![1, 2, 3, 4], vec![5]]);
}

fn run_chunker(
    request_id: &str,
    meta: &[u8],
    body: &[u8],
    configured: usize,
    max_body: usize,
) -> Result<Vec<ChunkEnvelope>, webhookpush::error::AppError> {
    let prefix = frame_prefix(meta);
    let max_total = prefix.len() + max_body;
    let chunk_size = resolve_chunk_size(request_id, configured, max_total)?;
    let mut chunker = Chunker::new(request_id.to_string(), prefix, chunk_size, max_body);
    let mut envelopes = chunker.push(body)?;
    let mut tail = chunker.finish();
    envelopes.append(&mut tail);
    Ok(envelopes)
}

#[test]
fn empty_body_gives_single_final_envelope() {
    let meta = b"{\"m\":1}";
    let envelopes = run_chunker("req-1", meta, &[], 2400, 1000).unwrap();
    assert_eq!(envelopes.len(), 1);
    let e = &envelopes[0];
    assert_eq!(e.chunk_index, 1);
    assert!(e.is_last);
    assert_eq!(e.total_chunks, Some(1));
    let mut framing = Vec::new();
    framing.extend_from_slice(b"WHP1");
    framing.extend_from_slice(&(meta.len() as u32).to_be_bytes());
    framing.extend_from_slice(meta);
    assert_eq!(e.data, base64::encode(&framing));
}

#[test]
fn large_body_chunks_in_order_and_reassembles() {
    let meta = b"{\"path\":\"/hook\"}";
    let body = vec![0u8; 10_000];
    let envelopes = run_chunker("req-1", meta, &body, 2400, 100 * 1024).unwrap();
    let total = envelopes.len();
    assert!(total >= 2);
    let mut framing = Vec::new();
    framing.extend_from_slice(b"WHP1");
    framing.extend_from_slice(&(meta.len() as u32).to_be_bytes());
    framing.extend_from_slice(meta);
    framing.extend_from_slice(&body);

    let mut reassembled = Vec::new();
    for (i, e) in envelopes.iter().enumerate() {
        assert_eq!(e.chunk_index, i + 1);
        let last = i + 1 == total;
        assert_eq!(e.is_last, last);
        assert_eq!(e.total_chunks, if last { Some(total) } else { None });
        let json = encode_envelope(e);
        assert!(json.len() <= MAX_ENVELOPE_BYTES);
        reassembled.extend_from_slice(&base64::decode(&e.data).unwrap());
    }
    assert_eq!(reassembled, framing);
}

#[test]
fn body_over_budget_is_rejected_with_413() {
    let meta = b"{}";
    let err = run_chunker("req-1", meta, &vec![1u8; 1001], 2400, 1000).unwrap_err();
    assert_eq!(err.status, STATUS_PAYLOAD_TOO_LARGE);
    assert_eq!(err.message, "payload exceeds limit");
    assert!(run_chunker("req-1", meta, &vec![1u8; 1000], 2400, 1000).is_ok());
}

#[test]
fn envelope_json_has_exact_canonical_form() {
    let e = ChunkEnvelope {
        request_id: "abc".to_string(),
        chunk_index: 12,
        total_chunks: None,
        is_last: false,
        data: "QUJD".to_string(),
    };
    assert_eq!(
        encode_envelope(&e),
        "{\"request_id\":\"abc\",\"chunk_index\":12,\"is_last\":false,\"data\":\"QUJD\"}"
    );
    let e = ChunkEnvelope {
        request_id: "abc".to_string(),
        chunk_index: 3,
        total_chunks: Some(3),
        is_last: true,
        data: String::new(),
    };
    assert_eq!(
        encode_envelope(&e),
        "{\"request_id\":\"abc\",\"chunk_index\":3,\"total_chunks\":3,\"is_last\":true,\"data\":\"\"}"
    );
}

#[test]
fn envelope_decode_inverts_encode() {
    let cases = vec![
        ChunkEnvelope {
            request_id: "550e8400e29b41d4a716446655440000".to_string(),
            chunk_index: 1,
            total_chunks: None,
            is_last: false,
            data: base64::encode(b"hello"),
        },
        ChunkEnvelope {
            request_id: "r1".to_string(),
            chunk_index: 42,
            total_chunks: Some(42),
            is_last: true,
            data: String::new(),
        },
    ];
    for e in cases {
        let json = encode_envelope(&e);
        let d = decode_envelope(&json).unwrap();
        assert_eq!(d.request_id, e.request_id);
        assert_eq!(d.chunk_index, e.chunk_index);
        assert_eq!(d.total_chunks, e.total_chunks);
        assert_eq!(d.is_last, e.is_last);
        assert_eq!(d.data, e.data);
        assert_eq!(encode_envelope(&d), json);
    }
    assert!(decode_envelope("{\"request_id\":\"x\"").is_none());
    assert!(decode_envelope("").is_none());
}
