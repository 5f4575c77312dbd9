//! Dispatch-worker decisions: how one send outcome resolves a claimed
//! record — removal, removal with subscription deletion, or a retry
//! under a fresh sequence number with a bumped attempt counter.
use vstd::prelude::*;

use crate::bytevec::copy_range;
use crate::error::{AppError, STATUS_BAD_GATEWAY, STATUS_PAYLOAD_TOO_LARGE};
use crate::queue::{QueueRecord, MAX_ATTEMPTS, RETRY_DELAY_MS};

verus! {

/// How the push sender classified one delivery attempt.
#[derive(Clone, Copy, Debug, PartialEq, Eq, Structural)]
pub enum SendOutcome {
    /// The push service accepted the message.
    Delivered,
    /// The push service reported the endpoint gone or invalid.
    SubscriptionDead,
    /// The push service rejected the message as too large.
    PayloadTooLarge,
    /// Transport failure, timeout, or an upstream server error.
    Retryable,
}

/// What the worker must do with the claimed record.
#[derive(Debug)]
pub enum WorkerAction {
    /// Remove the record from inflight; its delivery is resolved.
    Remove,
    /// Remove the record and delete the target subscription.
    RemoveAndDeleteSubscription,
    /// Write the record back to pending under a fresh sequence number.
    Requeue { record: QueueRecord },
}

/// Decide the fate of a claimed record from its send outcome: successes
/// and terminal failures resolve the record; a dead endpoint also takes
/// its subscription; anything else retries after a fixed delay, until
/// the attempt counter reaches its bound.
pub fn resolve_send(record: &QueueRecord, outcome: SendOutcome, now_ms: i64) -> (a: WorkerAction)
    requires
        now_ms <= i64::MAX - RETRY_DELAY_MS,
        record.attempts < u32::MAX,
    ensures
        match outcome {
            SendOutcome::Delivered => a is Remove,
            SendOutcome::SubscriptionDead => a is RemoveAndDeleteSubscription,
            SendOutcome::PayloadTooLarge => a is Remove,
            SendOutcome::Retryable => {
                if record.attempts + 1 >= MAX_ATTEMPTS {
                    a is Remove
                } else {
                    a matches WorkerAction::Requeue { record: rr } && rr.uuid@ == record.uuid@
                        && rr.payload@ == record.payload@ && rr.attempts == record.attempts + 1
                        && rr.send_after_ms == now_ms + RETRY_DELAY_MS
                }
            },
        },
{
    match outcome {
        SendOutcome::Delivered => WorkerAction::Remove,
        SendOutcome::SubscriptionDead => WorkerAction::RemoveAndDeleteSubscription,
        SendOutcome::PayloadTooLarge => WorkerAction::Remove,
        SendOutcome::Retryable => {
            let attempts = record.attempts + 1;
            if attempts >= MAX_ATTEMPTS {
                WorkerAction::Remove
            } else {
                let uuid = clone_str(&record.uuid);
                let payload = copy_range(record.payload.as_slice(), 0, record.payload.len());
                WorkerAction::Requeue {
                    record: QueueRecord {
                        uuid,
                        payload,
                        send_after_ms: now_ms + RETRY_DELAY_MS,
                        attempts,
                    },
                }
            }
        },
    }
}

/// The error a failed send surfaces, mirrored from the sender's
/// classification; a delivered message surfaces none.
pub fn send_error(outcome: SendOutcome) -> (r: Option<AppError>)
    ensures
        match outcome {
            SendOutcome::Delivered => r is None,
            SendOutcome::SubscriptionDead => r matches Some(e) && e.status == STATUS_BAD_GATEWAY
                && e.message@ == ("subscription expired")@,
            SendOutcome::PayloadTooLarge => r matches Some(e) && e.status
                == STATUS_PAYLOAD_TOO_LARGE && e.message@ == ("push payload too large")@,
            SendOutcome::Retryable => r matches Some(e) && e.status == STATUS_BAD_GATEWAY
                && e.message@ == ("push failed")@,
        },
{
    match outcome {
        SendOutcome::Delivered => None,
        SendOutcome::SubscriptionDead => Some(
            AppError::new(STATUS_BAD_GATEWAY, "subscription expired"),
        ),
        SendOutcome::PayloadTooLarge => Some(
            AppError::new(STATUS_PAYLOAD_TOO_LARGE, "push payload too large"),
        ),
        SendOutcome::Retryable => Some(AppError::new(STATUS_BAD_GATEWAY, "push failed")),
    }
}

fn clone_str(s: &String) -> (r: String)
    ensures
        r@ == s@,
{
    s.clone()
}

} // verus!
