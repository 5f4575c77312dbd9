//! Hook-coordinator decisions: sizing the serialized metadata against
//! the payload limit, the early content-length rejection, per-envelope
//! send scheduling, and subscription expiry.
use vstd::prelude::*;

use crate::error::{AppError, STATUS_PAYLOAD_TOO_LARGE};

verus! {

/// Check the serialized metadata against the payload limit; what remains
/// of the limit is the body budget.
pub fn check_meta_size(meta_len: usize, max_payload_bytes: usize) -> (r: Result<usize, AppError>)
    ensures
        match r {
            Ok(mb) => meta_len <= max_payload_bytes && meta_len <= u32::MAX && mb
                == max_payload_bytes - meta_len,
            Err(e) => e.status == STATUS_PAYLOAD_TOO_LARGE && ((meta_len > max_payload_bytes
                && e.message@ == ("payload exceeds limit")@) || (meta_len <= max_payload_bytes
                && meta_len > u32::MAX && e.message@ == ("metadata too large")@)),
        },
{
    if meta_len > max_payload_bytes {
        return Err(AppError::new(STATUS_PAYLOAD_TOO_LARGE, "payload exceeds limit"));
    }
    if meta_len > u32::MAX as usize {
        return Err(AppError::new(STATUS_PAYLOAD_TOO_LARGE, "metadata too large"));
    }
    Ok(max_payload_bytes - meta_len)
}

/// Reject a declared content length that exceeds the body budget before
/// reading any of the body.
pub fn check_content_length(content_length: Option<usize>, max_body_bytes: usize) -> (r: Result<
    (),
    AppError,
>)
    ensures
        match r {
            Ok(_) => content_length matches Some(l) ==> l <= max_body_bytes,
            Err(e) => e.status == STATUS_PAYLOAD_TOO_LARGE && e.message@ == (
            "payload exceeds limit")@ && (content_length matches Some(l) && l > max_body_bytes),
        },
{
    match content_length {
        Some(l) => {
            if l > max_body_bytes {
                Err(AppError::new(STATUS_PAYLOAD_TOO_LARGE, "payload exceeds limit"))
            } else {
                Ok(())
            }
        },
        None => Ok(()),
    }
}

/// When the envelope of chunk `index` becomes due, relative to the
/// request's start: one chunk delay per earlier envelope, saturating.
pub fn send_offset_ms(index: usize, delay_ms: u64) -> (r: u64)
    requires
        index >= 1,
    ensures
        r == if (index - 1) * delay_ms <= u64::MAX {
            ((index - 1) * delay_ms) as int
        } else {
            u64::MAX as int
        },
{
    let k = (index - 1) as u64;
    if delay_ms == 0 {
        return 0;
    }
    if k > u64::MAX / delay_ms {
        proof {
            let q = u64::MAX as int / delay_ms as int;
            vstd::arithmetic::div_mod::lemma_fundamental_div_mod(u64::MAX as int, delay_ms as int);
            assert((q + 1) * delay_ms as int == q * delay_ms as int + delay_ms as int)
                by (nonlinear_arith);
            assert(k as int * delay_ms as int >= (q + 1) * delay_ms as int) by (nonlinear_arith)
                requires
                    k as int >= q + 1,
                    delay_ms as int >= 1,
            ;
            assert(q * delay_ms as int == delay_ms as int * q) by (nonlinear_arith);
        }
        return u64::MAX;
    }
    proof {
        let q = u64::MAX as int / delay_ms as int;
        vstd::arithmetic::div_mod::lemma_fundamental_div_mod(u64::MAX as int, delay_ms as int);
        assert(k as int * delay_ms as int <= q * delay_ms as int) by (nonlinear_arith)
            requires
                k as int <= q,
                delay_ms as int >= 1,
        ;
        assert(q * delay_ms as int == delay_ms as int * q) by (nonlinear_arith);
    }
    k * delay_ms
}

/// Whether a subscription created at `created_at_ms` has outlived its
/// time-to-live of `ttl_days` days at `now_ms`.
pub fn is_expired(created_at_ms: i64, now_ms: i64, ttl_days: i64) -> (r: bool)
    requires
        0 <= ttl_days,
        ttl_days * 86400000 <= i64::MAX,
        i64::MIN + ttl_days * 86400000 <= now_ms,
    ensures
        r == (created_at_ms < now_ms - ttl_days * 86400000),
{
    proof {
        assert(ttl_days * 86400000 >= 0) by (nonlinear_arith)
            requires
                ttl_days >= 0,
        ;
    }
    let cutoff = now_ms - ttl_days * 86400000;
    created_at_ms < cutoff
}

} // verus!
