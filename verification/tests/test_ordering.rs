//! Events are numbered 0, 1, 2, ... in the order they are emitted.

use lez_events::{clear_events, drain_events, emit_event, event_count, EventBuffer};

const DUMMY: u64 = 0x9001;

fn dummy(value: u64) -> Vec<u8> {
    borsh::to_vec(&value).unwrap()
}

#[test]
fn first_event_has_sequence_zero() {
    let mut buf = EventBuffer::new();
    clear_events(&mut buf);
    let pid = [0u8; 32];
    emit_event(&mut buf, pid, DUMMY, 1, dummy(1)).unwrap();
    let events = drain_events(&mut buf);
    assert_eq!(events[0].sequence, 0);
}

#[test]
fn sequence_increments_monotonically() {
    let mut buf = EventBuffer::new();
    clear_events(&mut buf);
    let pid = [0u8; 32];
    for i in 0..5u64 {
        emit_event(&mut buf, pid, DUMMY, 1, dummy(i)).unwrap();
    }
    let events = drain_events(&mut buf);
    assert_eq!(events.len(), 5);
    for (i, e) in events.iter().enumerate() {
        assert_eq!(e.sequence, i as u32, "sequence at index {i}");
    }
}

#[test]
fn drain_resets_sequence_for_next_tx() {
    let mut buf = EventBuffer::new();
    clear_events(&mut buf);
    let pid = [0u8; 32];
    emit_event(&mut buf, pid, DUMMY, 1, dummy(0)).unwrap();
    emit_event(&mut buf, pid, DUMMY, 1, dummy(1)).unwrap();
    let _ = drain_events(&mut buf);

    emit_event(&mut buf, pid, DUMMY, 1, dummy(2)).unwrap();
    let events = drain_events(&mut buf);
    assert_eq!(events[0].sequence, 0, "sequence must restart after drain");
}

#[test]
fn event_count_follows_emits_and_drains() {
    let mut buf = EventBuffer::new();
    assert_eq!(event_count(&buf), 0);
    emit_event(&mut buf, [1u8; 32], DUMMY, 1, dummy(0)).unwrap();
    emit_event(&mut buf, [1u8; 32], DUMMY, 2, dummy(1)).unwrap();
    assert_eq!(event_count(&buf), 2);
    let events = drain_events(&mut buf);
    assert_eq!(event_count(&buf), 0);
    assert_eq!(events[1].schema_version, 2);
    assert_eq!(events[1].payload, dummy(1));
    emit_event(&mut buf, [1u8; 32], DUMMY, 1, dummy(0)).unwrap();
    clear_events(&mut buf);
    assert_eq!(event_count(&buf), 0);
}
