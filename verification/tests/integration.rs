//! Emit, drain, encode, decode and display, end to end.

use lez_events::{
    clear_events, decode_event, drain_events, emit_event, to_display, EventBuffer, EventRecord,
    EventSchema,
};

const TRANSFER: u64 = 0x0001;
const WITHDRAW_FAIL: u64 = 0x0011;

fn any_pid() -> [u8; 32] {
    [0xABu8; 32]
}

fn transfer(from: [u8; 32], to: [u8; 32], amount: u64) -> Vec<u8> {
    borsh::to_vec(&(from, to, amount)).unwrap()
}

fn no_schemas() -> Vec<EventSchema> {
    vec![]
}

/// The bytes of a list of records as Borsh writes a `Vec`: the count, then each record.
fn encode_list(events: &[EventRecord]) -> Vec<u8> {
    let mut out = (events.len() as u32).to_le_bytes().to_vec();
    for e in events {
        out.extend(e.to_bytes());
    }
    out
}

fn decode_list(bytes: &[u8]) -> Vec<EventRecord> {
    let count = u32::from_le_bytes(bytes[0..4].try_into().unwrap());
    let mut pos = 4;
    let mut out = Vec::new();
    for _ in 0..count {
        let (r, n) = EventRecord::read_at(bytes, pos).unwrap();
        out.push(r);
        pos += n;
    }
    out
}

#[test]
fn full_pipeline_success_path() {
    let mut buf = EventBuffer::new();
    clear_events(&mut buf);
    let pid = any_pid();

    emit_event(&mut buf, pid, TRANSFER, 1, transfer([0x01u8; 32], [0x02u8; 32], 1_000))
        .expect("emit Transfer");

    let events = drain_events(&mut buf);
    assert_eq!(events.len(), 1);

    let bytes = encode_list(&events);
    let decoded = decode_list(&bytes);
    assert_eq!(decoded.len(), 1);
    assert_eq!(decoded[0].discriminant, 0x0001);
    assert_eq!(decoded[0].sequence, 0);
    assert_eq!(decoded[0].program_id, pid);

    let schema = no_schemas();
    let decoded_ev = decode_event(&decoded[0], &schema);
    assert_eq!(decoded_ev.discriminant, 1);
    assert!(!decoded_ev.from_failed_tx);
}

#[test]
fn full_pipeline_failure_path() {
    let mut buf = EventBuffer::new();
    clear_events(&mut buf);
    let pid = any_pid();

    emit_event(
        &mut buf,
        pid,
        WITHDRAW_FAIL,
        1,
        borsh::to_vec(&(2_000u64, 500u64)).unwrap(),
    )
    .expect("emit fail");

    // Drained before the failure: the events are encoded already.
    let events = drain_events(&mut buf);
    let bytes = encode_list(&events);

    let decoded = decode_list(&bytes);
    assert_eq!(decoded.len(), 1, "event survives transaction panic");
    assert_eq!(decoded[0].discriminant, 0x0011);

    let schema = no_schemas();
    let ev = decode_event(&decoded[0], &schema);
    assert!(!ev.from_failed_tx);
    let display = to_display(&ev);
    assert!(display.contains("0x0011"), "display shows discriminant");
}

#[test]
fn decoder_handles_unknown_discriminant() {
    let mut buf = EventBuffer::new();
    clear_events(&mut buf);
    let pid = any_pid();

    emit_event(&mut buf, pid, TRANSFER, 1, transfer([0u8; 32], [0u8; 32], 42)).expect("emit");
    let events = drain_events(&mut buf);
    assert_eq!(events.len(), 1);

    let schema = no_schemas();
    let ev = decode_event(&events[0], &schema);

    assert!(
        ev.event_name.contains("Unknown") || ev.event_name.contains("Transfer"),
        "graceful fallback: got '{}'",
        ev.event_name
    );
    assert!(
        !ev.raw_payload_hex.is_empty(),
        "raw_payload_hex must be present"
    );
}

#[test]
fn borsh_encoding_is_deterministic() {
    let make = || {
        let mut buf = EventBuffer::new();
        clear_events(&mut buf);
        emit_event(&mut buf, any_pid(), TRANSFER, 1, transfer([0x01u8; 32], [0x02u8; 32], 100))
            .unwrap();
        let events = drain_events(&mut buf);
        encode_list(&events)
    };
    assert_eq!(make(), make(), "Borsh encoding must be deterministic");
}

#[test]
fn multi_event_ordering_preserved() {
    let mut buf = EventBuffer::new();
    clear_events(&mut buf);
    for i in 0..5u64 {
        emit_event(&mut buf, any_pid(), TRANSFER, 1, transfer([0u8; 32], [i as u8; 32], i)).unwrap();
    }
    let events = drain_events(&mut buf);
    assert_eq!(events.len(), 5);
    for (i, ev) in events.iter().enumerate() {
        assert_eq!(ev.sequence, i as u32, "seq must be monotonic");
    }
}

#[test]
fn emit_returns_err_on_oversized_payload() {
    let mut buf = EventBuffer::new();
    clear_events(&mut buf);
    let result = emit_event(
        &mut buf,
        any_pid(),
        0xFF01,
        1,
        borsh::to_vec(&vec![0u8; 2048]).unwrap(),
    );
    assert!(result.is_err(), "oversized payload must return Err");
    let code = result.unwrap_err().error_code();
    assert_eq!(code, 0xEE01, "error code must be 0xEE01 (PayloadTooLarge)");
}
