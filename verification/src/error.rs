//! The library's error type and the messages its variants carry.

use vstd::prelude::*;

use crate::text::{decimal, push_decimal, push_str, chars_to_string};

verus! {

/// Typed errors of the store, the query engine and the request checks.
#[derive(Debug)]
pub enum ContextCutterError {
    Validation(String),
    InvalidJson(String),
    Serialize(String),
    UnknownHandle(String),
    InvalidJsonPath(String),
    RequestFailed(String),
    PayloadTooLarge { actual_bytes: usize, max_bytes: usize },
    Internal(String),
}

impl ContextCutterError {
    /// The human-readable message of this error.
    pub open spec fn message_text(&self) -> Seq<char> {
        match self {
            ContextCutterError::Validation(s) => "validation error: "@ + s@,
            ContextCutterError::InvalidJson(s) => "invalid JSON payload: "@ + s@,
            ContextCutterError::Serialize(s) => "failed to serialize payload: "@ + s@,
            ContextCutterError::UnknownHandle(s) => "unknown handle_id: "@ + s@,
            ContextCutterError::InvalidJsonPath(s) => "invalid json path: "@ + s@,
            ContextCutterError::RequestFailed(s) => "request failed: "@ + s@,
            ContextCutterError::PayloadTooLarge { actual_bytes, max_bytes } => "payload too large: "@
                + decimal(*actual_bytes as nat) + " bytes exceeds limit "@ + decimal(*max_bytes as nat)
                + " bytes"@,
            ContextCutterError::Internal(s) => "internal error: "@ + s@,
        }
    }

    /// The human-readable message of this error (what its `Display` shows).
    pub fn message(&self) -> (r: String)
        ensures
            r@ == self.message_text(),
    {
        let mut out: Vec<char> = Vec::new();
        match self {
            ContextCutterError::Validation(s) => {
                push_str(&mut out, "validation error: ");
                push_str(&mut out, s.as_str());
            },
            ContextCutterError::InvalidJson(s) => {
                push_str(&mut out, "invalid JSON payload: ");
                push_str(&mut out, s.as_str());
            },
            ContextCutterError::Serialize(s) => {
                push_str(&mut out, "failed to serialize payload: ");
                push_str(&mut out, s.as_str());
            },
            ContextCutterError::UnknownHandle(s) => {
                push_str(&mut out, "unknown handle_id: ");
                push_str(&mut out, s.as_str());
            },
            ContextCutterError::InvalidJsonPath(s) => {
                push_str(&mut out, "invalid json path: ");
                push_str(&mut out, s.as_str());
            },
            ContextCutterError::RequestFailed(s) => {
                push_str(&mut out, "request failed: ");
                push_str(&mut out, s.as_str());
            },
            ContextCutterError::PayloadTooLarge { actual_bytes, max_bytes } => {
                push_str(&mut out, "payload too large: ");
                push_decimal(&mut out, *actual_bytes as u64);
                push_str(&mut out, " bytes exceeds limit ");
                push_decimal(&mut out, *max_bytes as u64);
                push_str(&mut out, " bytes");
            },
            ContextCutterError::Internal(s) => {
                push_str(&mut out, "internal error: ");
                push_str(&mut out, s.as_str());
            },
        }
        assert(out@ =~= self.message_text());
        chars_to_string(&out)
    }
}

} // verus!
