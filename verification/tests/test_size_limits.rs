//! Limits return `Err`, never panic, and leave the buffer unchanged.

use lez_events::{
    clear_events, emit_event, event_count, EventBuffer, EventError, MAX_EVENTS_PER_TX,
    MAX_EVENT_PAYLOAD_BYTES,
};

const FIXED: u64 = 0x8001;

fn pid() -> [u8; 32] {
    [0u8; 32]
}

/// The Borsh encoding of a struct holding `vec![0xFF; n]`: 4 + n bytes.
fn make_payload(n: usize) -> Vec<u8> {
    borsh::to_vec(&vec![0xFFu8; n]).unwrap()
}

#[test]
fn exact_limit_succeeds() {
    let mut buf = EventBuffer::new();
    clear_events(&mut buf);
    let result = emit_event(&mut buf, pid(), FIXED, 1, make_payload(MAX_EVENT_PAYLOAD_BYTES - 4));
    assert!(result.is_ok(), "exact limit should succeed: {result:?}");
    clear_events(&mut buf);
}

#[test]
fn one_byte_over_limit_fails() {
    let mut buf = EventBuffer::new();
    clear_events(&mut buf);
    let result = emit_event(&mut buf, pid(), FIXED, 1, make_payload(MAX_EVENT_PAYLOAD_BYTES - 4 + 1));
    assert!(
        matches!(result, Err(EventError::PayloadTooLarge { .. })),
        "should be PayloadTooLarge, got {result:?}"
    );
    assert_eq!(
        result,
        Err(EventError::PayloadTooLarge { limit: 1024, actual: 1025 })
    );
    assert_eq!(event_count(&buf), 0);
    clear_events(&mut buf);
}

#[test]
fn oversized_payload_returns_err_not_panic() {
    let mut buf = EventBuffer::new();
    clear_events(&mut buf);
    let result = emit_event(&mut buf, pid(), FIXED, 1, make_payload(MAX_EVENT_PAYLOAD_BYTES * 2));
    assert!(result.is_err(), "must not panic, must return Err");
    let code = result.unwrap_err().error_code();
    assert_eq!(code, 0xEE01, "error code must be 0xEE01 (PayloadTooLarge)");
    clear_events(&mut buf);
}

#[test]
fn max_events_succeeds() {
    let mut buf = EventBuffer::new();
    clear_events(&mut buf);
    for _ in 0..MAX_EVENTS_PER_TX {
        emit_event(&mut buf, pid(), FIXED, 1, make_payload(1)).unwrap();
    }
    clear_events(&mut buf);
}

#[test]
fn one_over_max_events_fails_with_correct_code() {
    let mut buf = EventBuffer::new();
    clear_events(&mut buf);
    for _ in 0..MAX_EVENTS_PER_TX {
        emit_event(&mut buf, pid(), FIXED, 1, make_payload(1)).unwrap();
    }
    let result = emit_event(&mut buf, pid(), FIXED, 1, make_payload(1));
    assert!(
        matches!(result, Err(EventError::TooManyEvents { .. })),
        "should be TooManyEvents, got {result:?}"
    );
    assert_eq!(
        result.clone(),
        Err(EventError::TooManyEvents { limit: 64, actual: 65 })
    );
    let code = result.unwrap_err().error_code();
    assert_eq!(code, 0xEE02, "error code must be 0xEE02 (TooManyEvents)");
    assert_eq!(event_count(&buf), 64);
    clear_events(&mut buf);
}

#[test]
fn error_codes_are_stable() {
    let payload_err = EventError::PayloadTooLarge {
        limit: 1024,
        actual: 2048,
    };
    let count_err = EventError::TooManyEvents {
        limit: 64,
        actual: 65,
    };
    let total_err = EventError::TotalSizeTooLarge {
        limit: 65536,
        actual: 65537,
    };
    let enc_err = EventError::EncodingFailed("test".to_string());

    assert_eq!(payload_err.error_code(), 0xEE01);
    assert_eq!(count_err.error_code(), 0xEE02);
    assert_eq!(total_err.error_code(), 0xEE03);
    assert_eq!(enc_err.error_code(), 0xEE04);
}

#[test]
fn full_buffer_of_largest_payloads_fits_the_total_limit() {
    let mut buf = EventBuffer::new();
    for _ in 0..MAX_EVENTS_PER_TX {
        emit_event(&mut buf, pid(), FIXED, 1, vec![0u8; MAX_EVENT_PAYLOAD_BYTES]).unwrap();
    }
    assert_eq!(event_count(&buf), 64);
}
