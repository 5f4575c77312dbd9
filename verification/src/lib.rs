//! Core logic of a webhook-to-Web-Push relay: framing and chunking of inbound
//! request bodies into size-bounded JSON envelopes, a byte-bounded durable
//! dispatch queue with retry accounting, a fixed-window rate limiter, and
//! subscription validation.
pub mod b64;
pub mod bytevec;
pub mod chunker;
pub mod config;
pub mod digits;
pub mod envdec;
pub mod envelope;
pub mod hook;
pub mod error;
pub mod json;
pub mod meta;
pub mod models;
pub mod queue;
pub mod rate_limiter;
pub mod strutil;
pub mod validate;
pub mod worker;
