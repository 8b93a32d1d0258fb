//! Errors of event emission and their stable numeric codes.

use vstd::prelude::*;

verus! {

/// Errors returned by [`crate::emit::emit_event`].
///
/// Error codes (0xEE01 to 0xEE04) are stable and never change.
#[derive(Debug, Clone, PartialEq, Eq)]
#[allow(inconsistent_fields)]
pub enum EventError {
    /// The encoded payload is longer than the per-event limit.
    PayloadTooLarge { limit: usize, actual: usize },
    /// The transaction already holds as many events as it may.
    TooManyEvents { limit: u32, actual: u32 },
    /// The payloads of the transaction would together exceed their limit.
    TotalSizeTooLarge { limit: usize, actual: usize },
    /// Encoding the event failed; the text says why.
    EncodingFailed(String),
}

/// The code of each kind of error.
pub open spec fn spec_error_code(e: EventError) -> u32 {
    match e {
        EventError::PayloadTooLarge { .. } => 0xEE01,
        EventError::TooManyEvents { .. } => 0xEE02,
        EventError::TotalSizeTooLarge { .. } => 0xEE03,
        EventError::EncodingFailed(_) => 0xEE04,
    }
}

impl EventError {
    /// Deterministic numeric error code for each variant.
    pub fn error_code(&self) -> (code: u32)
        ensures
            code == spec_error_code(*self),
    {
        match self {
            EventError::PayloadTooLarge { .. } => 0xEE01,
            EventError::TooManyEvents { .. } => 0xEE02,
            EventError::TotalSizeTooLarge { .. } => 0xEE03,
            EventError::EncodingFailed(_) => 0xEE04,
        }
    }
}

} // verus!
