//! The per-transaction event buffer: emitting, draining and clearing events.
//!
//! Events are numbered in the order they are emitted, starting at 0; the
//! limits on payload size, event count and total payload bytes are checked
//! before anything is stored, and a refused event leaves the buffer unchanged.

use crate::error::EventError;
use crate::event::{
    models, EventRecord, RecordModel, MAX_EVENTS_PER_TX, MAX_EVENT_PAYLOAD_BYTES,
    MAX_TOTAL_EVENT_BYTES,
};
use vstd::prelude::*;

verus! {

/// Sum of the payload lengths of `log`.
pub open spec fn total_payload(log: Seq<RecordModel>) -> nat
    decreases log.len(),
{
    if log.len() == 0 {
        0
    } else {
        total_payload(log.drop_last()) + log.last().payload.len()
    }
}

/// What every buffer holds: at most 64 events, each numbered by its position,
/// each with a 32-byte program id and a payload within the per-event limit.
pub open spec fn log_wf(log: Seq<RecordModel>) -> bool {
    &&& log.len() <= MAX_EVENTS_PER_TX
    &&& forall|i: int|
        #![trigger log[i]]
        0 <= i < log.len() ==> {
            &&& log[i].sequence == i
            &&& log[i].payload.len() <= MAX_EVENT_PAYLOAD_BYTES
            &&& log[i].program_id.len() == 32
        }
}

/// The record that emitting appends to `log`.
pub open spec fn next_record(
    log: Seq<RecordModel>,
    program_id: Seq<u8>,
    discriminant: u64,
    schema_version: u8,
    payload: Seq<u8>,
) -> RecordModel {
    RecordModel {
        program_id,
        sequence: log.len() as u32,
        discriminant,
        schema_version,
        payload,
    }
}

/// Outcome of emitting an event with an encoded `payload` on top of `log`:
/// the new log, or the error, checked in this order.
pub open spec fn emit_outcome(
    log: Seq<RecordModel>,
    program_id: Seq<u8>,
    discriminant: u64,
    schema_version: u8,
    payload: Seq<u8>,
) -> Result<Seq<RecordModel>, EventError> {
    if payload.len() > MAX_EVENT_PAYLOAD_BYTES {
        Err(
            EventError::PayloadTooLarge {
                limit: MAX_EVENT_PAYLOAD_BYTES,
                actual: payload.len() as usize,
            },
        )
    } else if log.len() >= MAX_EVENTS_PER_TX {
        Err(EventError::TooManyEvents { limit: MAX_EVENTS_PER_TX, actual: (log.len() + 1) as u32 })
    } else if total_payload(log) + payload.len() > MAX_TOTAL_EVENT_BYTES {
        Err(
            EventError::TotalSizeTooLarge {
                limit: MAX_TOTAL_EVENT_BYTES,
                actual: (total_payload(log) + payload.len()) as usize,
            },
        )
    } else {
        Ok(log.push(next_record(log, program_id, discriminant, schema_version, payload)))
    }
}

pub proof fn lemma_total_payload_bound(log: Seq<RecordModel>)
    requires
        forall|i: int| 0 <= i < log.len() ==> log[i].payload.len() <= MAX_EVENT_PAYLOAD_BYTES,
    ensures
        total_payload(log) <= log.len() * 1024,
    decreases log.len(),
{
    if log.len() > 0 {
        lemma_total_payload_bound(log.drop_last());
    }
}

/// The buffer of events emitted in the current transaction.
pub struct EventBuffer {
    records: Vec<EventRecord>,
}

impl View for EventBuffer {
    type V = Seq<RecordModel>;

    closed spec fn view(&self) -> Seq<RecordModel> {
        models(self.records@)
    }
}

impl EventBuffer {
    #[verifier::type_invariant]
    closed spec fn inv(self) -> bool {
        log_wf(models(self.records@))
    }

    /// An empty buffer.
    pub fn new() -> (buf: EventBuffer)
        ensures
            buf@ == Seq::<RecordModel>::empty(),
    {
        let buf = EventBuffer { records: Vec::new() };
        assert(buf@ =~= Seq::<RecordModel>::empty());
        buf
    }
}

/// Emit a structured event whose payload is already encoded.
///
/// Returns `Err` (never panics) when the payload exceeds
/// [`MAX_EVENT_PAYLOAD_BYTES`] (0xEE01), when the transaction already holds
/// [`MAX_EVENTS_PER_TX`] events (0xEE02), or when the payloads would together
/// exceed [`MAX_TOTAL_EVENT_BYTES`] (0xEE03); the buffer is then unchanged.
/// Otherwise the event is appended with the next sequence number.
pub fn emit_event(
    buf: &mut EventBuffer,
    program_id: [u8; 32],
    discriminant: u64,
    schema_version: u8,
    payload: Vec<u8>,
) -> (r: Result<(), EventError>)
    ensures
        log_wf(old(buf)@),
        log_wf(final(buf)@),
        r is Ok <==> payload@.len() <= MAX_EVENT_PAYLOAD_BYTES && old(buf)@.len()
            < MAX_EVENTS_PER_TX,
        match emit_outcome(old(buf)@, program_id@, discriminant, schema_version, payload@) {
            Ok(log) => r is Ok && final(buf)@ == log,
            Err(e) => r == Err::<(), EventError>(e) && final(buf)@ == old(buf)@,
        },
{
    proof {
        use_type_invariant(&*buf);
        lemma_total_payload_bound(buf@);
    }
    let ghost log = buf@;
    let plen = payload.len();
    if plen > MAX_EVENT_PAYLOAD_BYTES {
        return Err(EventError::PayloadTooLarge { limit: MAX_EVENT_PAYLOAD_BYTES, actual: plen });
    }
    let count = buf.records.len();
    if count as u32 >= MAX_EVENTS_PER_TX {
        return Err(EventError::TooManyEvents { limit: MAX_EVENTS_PER_TX, actual: count as u32 + 1 });
    }
    let mut total: usize = 0;
    let mut i: usize = 0;
    while i < count
        invariant
            i <= count,
            count == buf.records@.len(),
            log == models(buf.records@),
            log_wf(log),
            total == total_payload(log.subrange(0, i as int)),
            total <= i * 1024,
        decreases count - i,
    {
        proof {
            assert(log.subrange(0, i + 1).drop_last() =~= log.subrange(0, i as int));
            assert(log[i as int].payload.len() <= 1024);
        }
        total = total + buf.records[i].payload.len();
        i = i + 1;
    }
    assert(log.subrange(0, count as int) =~= log);
    if total + plen > MAX_TOTAL_EVENT_BYTES {
        return Err(EventError::TotalSizeTooLarge { limit: MAX_TOTAL_EVENT_BYTES, actual: total + plen });
    }
    let sequence = count as u32;
    let ghost new_log = log.push(next_record(log, program_id@, discriminant, schema_version, payload@));
    let mut records: Vec<EventRecord> = Vec::new();
    std::mem::swap(&mut records, &mut buf.records);
    records.push(EventRecord { program_id, sequence, discriminant, schema_version, payload });
    assert(models(records@) =~= new_log);
    buf.records = records;
    Ok(())
}

/// Drain all buffered events for this transaction, in the order they were
/// emitted; the buffer is empty afterwards.
pub fn drain_events(buf: &mut EventBuffer) -> (events: Vec<EventRecord>)
    ensures
        log_wf(old(buf)@),
        models(events@) == old(buf)@,
        events@.len() == old(buf)@.len(),
        forall|i: int| #![trigger events@[i]] 0 <= i < events@.len() ==> events@[i]@ == old(buf)@[i],
        final(buf)@ == Seq::<RecordModel>::empty(),
{
    proof {
        use_type_invariant(&*buf);
    }
    let mut events: Vec<EventRecord> = Vec::new();
    std::mem::swap(&mut events, &mut buf.records);
    assert(buf@ =~= Seq::<RecordModel>::empty());
    assert(forall|i: int| 0 <= i < events@.len() ==> models(events@)[i] == events@[i]@);
    events
}

/// Clear the event buffer without returning events.
pub fn clear_events(buf: &mut EventBuffer)
    ensures
        final(buf)@ == Seq::<RecordModel>::empty(),
{
    buf.records = Vec::new();
    assert(buf@ =~= Seq::<RecordModel>::empty());
}

/// Return the number of currently buffered events.
pub fn event_count(buf: &EventBuffer) -> (n: usize)
    ensures
        n == buf@.len(),
        log_wf(buf@),
{
    proof {
        use_type_invariant(buf);
    }
    buf.records.len()
}

} // verus!
