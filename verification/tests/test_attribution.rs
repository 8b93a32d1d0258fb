//! The SDK stores whatever `program_id` the caller passes; the sequencer
//! overwrites it afterwards.

use lez_events::{clear_events, drain_events, emit_event, EventBuffer};

fn ping(nonce: u64) -> Vec<u8> {
    borsh::to_vec(&nonce).unwrap()
}

const PING: u64 = 0x0099;

#[test]
fn program_id_stored_as_provided() {
    let mut buf = EventBuffer::new();
    clear_events(&mut buf);
    let pid = [0x42u8; 32];
    emit_event(&mut buf, pid, PING, 1, ping(1)).unwrap();
    let events = drain_events(&mut buf);
    assert_eq!(
        events[0].program_id, pid,
        "SDK stores the program_id provided by the caller"
    );
}

#[test]
fn sequencer_can_overwrite_program_id() {
    let mut buf = EventBuffer::new();
    clear_events(&mut buf);
    let caller_pid = [0xAAu8; 32];
    let real_pid = [0xBBu8; 32];
    emit_event(&mut buf, caller_pid, PING, 1, ping(2)).unwrap();
    let mut events = drain_events(&mut buf);

    for event in &mut events {
        event.program_id = real_pid;
    }

    assert_eq!(
        events[0].program_id, real_pid,
        "sequencer must be able to overwrite program_id"
    );
    assert_ne!(
        events[0].program_id, caller_pid,
        "caller-supplied id must be overwritten"
    );
}

#[test]
fn different_callers_produce_different_program_ids() {
    let mut buf = EventBuffer::new();
    clear_events(&mut buf);
    let pid_a = [0x01u8; 32];
    let pid_b = [0x02u8; 32];

    emit_event(&mut buf, pid_a, PING, 1, ping(0)).unwrap();
    let events_a = drain_events(&mut buf);

    emit_event(&mut buf, pid_b, PING, 1, ping(0)).unwrap();
    let events_b = drain_events(&mut buf);

    assert_ne!(
        events_a[0].program_id, events_b[0].program_id,
        "different callers must produce different program_ids"
    );
}
