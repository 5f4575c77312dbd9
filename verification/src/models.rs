//! Data model: push subscriptions, hook metadata, and chunk envelopes.
use vstd::prelude::*;

verus! {

/// Key material a browser hands over with a push subscription:
/// URL-safe base64 of a 65-byte ECDH public key and a 16-byte auth secret.
#[derive(Clone, Debug)]
pub struct PushKeys {
    pub p256dh: String,
    pub auth: String,
}

/// A Web Push subscription as registered by a browser client.
#[derive(Clone, Debug)]
pub struct PushSubscription {
    pub endpoint: String,
    pub expiration_time: Option<i64>,
    pub keys: PushKeys,
}

/// A subscription at rest, with its creation instant (wall-clock
/// milliseconds) and the opaque token required to unsubscribe.
#[derive(Clone, Debug)]
pub struct StoredSubscription {
    pub subscription: PushSubscription,
    pub created_at_ms: i64,
    pub delete_token: String,
}

/// Reply to a successful subscribe call.
#[derive(Clone, Debug)]
pub struct SubscribeResponse {
    pub uuid: String,
    pub url: String,
    pub delete_token: String,
}

/// Metadata of one inbound hook request, serialized ahead of the body
/// in the framed payload. Header values that are not visible ASCII are
/// substituted by the caller before this record is built.
#[derive(Clone, Debug)]
pub struct HookMeta {
    pub timestamp: String,
    pub method: String,
    pub path: String,
    pub query_string: String,
    pub headers: Vec<(String, String)>,
    pub source_ip: String,
}

/// One Web Push message body: a slice of the framed request carried as
/// base64 in `data`. `total_chunks` is present exactly on the last chunk.
#[derive(Clone, Debug)]
pub struct ChunkEnvelope {
    pub request_id: String,
    pub chunk_index: usize,
    pub total_chunks: Option<usize>,
    pub is_last: bool,
    pub data: String,
}

/// Reply to the public-configuration call.
#[derive(Clone, Debug)]
pub struct ConfigResponse {
    pub public_key: String,
}

} // verus!
