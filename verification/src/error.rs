//! Service error type: an HTTP status code paired with a short message.
use vstd::prelude::*;

verus! {

pub const STATUS_BAD_REQUEST: u16 = 400;

pub const STATUS_UNAUTHORIZED: u16 = 401;

pub const STATUS_FORBIDDEN: u16 = 403;

pub const STATUS_NOT_FOUND: u16 = 404;

pub const STATUS_REQUEST_TIMEOUT: u16 = 408;

pub const STATUS_PAYLOAD_TOO_LARGE: u16 = 413;

pub const STATUS_TOO_MANY_REQUESTS: u16 = 429;

pub const STATUS_INTERNAL_SERVER_ERROR: u16 = 500;

pub const STATUS_BAD_GATEWAY: u16 = 502;

pub const STATUS_SERVICE_UNAVAILABLE: u16 = 503;

/// An error surfaced to an HTTP client: a status code and a message body.
#[derive(Clone, Debug)]
pub struct AppError {
    pub status: u16,
    pub message: String,
}

impl AppError {
    pub fn new(status: u16, message: &str) -> (e: AppError)
        ensures
            e.status == status,
            e.message@ == message@,
    {
        AppError { status, message: message.to_owned() }
    }
}

} // verus!
