//! Properties that relate several operations of the library.

use crate::cli::{
    events_text, from_program, hex_outcome, hex_prefix_len, hex_value, is_hex_char, unhex,
};
use crate::bytes::{le_bytes, lemma_le_value_of_bytes, lemma_pow256_values};
use crate::decoder::{
    decoded_pairs, display_text, event_text, DecodedEvent, EventSchema, FieldType,
};
use crate::emit::{emit_outcome, lemma_total_payload_bound, log_wf, next_record, total_payload};
use crate::error::EventError;
use crate::event::{record_wf, RecordModel, MAX_EVENTS_PER_TX, MAX_EVENT_PAYLOAD_BYTES};
use crate::journal::{
    frame_bytes, journal_events, lemma_frame_roundtrip, starts_with_magic, JournalFault,
};
use crate::text::{decimal, hex_bytes, hex_digit};
use vstd::prelude::*;

verus! {

/// Emitting on a valid buffer succeeds exactly when the payload is within the
/// per-event limit and the transaction holds fewer than the maximum number of
/// events; the limit on total bytes is never what refuses an event.
pub proof fn lemma_emit_accepted_iff(
    log: Seq<RecordModel>,
    program_id: Seq<u8>,
    discriminant: u64,
    schema_version: u8,
    payload: Seq<u8>,
)
    requires
        log_wf(log),
    ensures
        emit_outcome(log, program_id, discriminant, schema_version, payload) is Ok <==> (
        payload.len() <= MAX_EVENT_PAYLOAD_BYTES && log.len() < MAX_EVENTS_PER_TX),
        !(emit_outcome(log, program_id, discriminant, schema_version, payload) matches Err(
            EventError::TotalSizeTooLarge { .. },
        )),
{
    lemma_total_payload_bound(log);
}

/// An accepted event is appended after the events already there, with its
/// position as sequence number, and the buffer stays valid.
pub proof fn lemma_emit_appends_next(
    log: Seq<RecordModel>,
    program_id: Seq<u8>,
    discriminant: u64,
    schema_version: u8,
    payload: Seq<u8>,
)
    requires
        log_wf(log),
        program_id.len() == 32,
        emit_outcome(log, program_id, discriminant, schema_version, payload) is Ok,
    ensures
        ({
            let new_log = emit_outcome(log, program_id, discriminant, schema_version, payload)->Ok_0;
            &&& log_wf(new_log)
            &&& new_log.len() == log.len() + 1
            &&& new_log.drop_last() == log
            &&& new_log.last() == next_record(log, program_id, discriminant, schema_version, payload)
            &&& new_log.last().sequence == log.len()
            &&& new_log.last().program_id == program_id
            &&& new_log.last().discriminant == discriminant
            &&& new_log.last().schema_version == schema_version
            &&& new_log.last().payload == payload
            &&& forall|i: int| 0 <= i < log.len() ==> #[trigger] new_log[i] == log[i]
        }),
{
    let new_log = emit_outcome(log, program_id, discriminant, schema_version, payload)->Ok_0;
    assert(new_log.drop_last() =~= log);
    assert forall|i: int| #![trigger new_log[i]] 0 <= i < new_log.len() implies {
        &&& new_log[i].sequence == i
        &&& new_log[i].payload.len() <= MAX_EVENT_PAYLOAD_BYTES
        &&& new_log[i].program_id.len() == 32
    } by {
        if i < log.len() {
            assert(new_log[i] == log[i]);
        }
    }
}

/// After a drain the buffer is empty, so the next accepted event is numbered 0.
pub proof fn lemma_sequence_restarts_after_drain(
    program_id: Seq<u8>,
    discriminant: u64,
    schema_version: u8,
    payload: Seq<u8>,
)
    requires
        payload.len() <= MAX_EVENT_PAYLOAD_BYTES,
    ensures
        emit_outcome(Seq::empty(), program_id, discriminant, schema_version, payload) == Ok::<
            Seq<RecordModel>,
            EventError,
        >(
            seq![
                RecordModel {
                    program_id,
                    sequence: 0,
                    discriminant,
                    schema_version,
                    payload,
                },
            ],
        ),
{
    assert(total_payload(Seq::<RecordModel>::empty()) == 0);
    assert(Seq::<RecordModel>::empty().push(
        next_record(Seq::empty(), program_id, discriminant, schema_version, payload),
    ) =~= seq![RecordModel { program_id, sequence: 0, discriminant, schema_version, payload }]);
}

/// Events drained from a buffer survive the journal: framed in front of
/// program output that does not open with the magic bytes, the journal
/// parses back to exactly those events, in order, and the output untouched.
pub proof fn lemma_drained_events_survive_journal(log: Seq<RecordModel>, output: Seq<u8>)
    requires
        log_wf(log),
        log.len() > 0,
        !starts_with_magic(output),
    ensures
        journal_events(frame_bytes(log) + output) == Ok::<(Seq<RecordModel>, Seq<u8>), JournalFault>(
            (log, output),
        ),
{
    assert forall|i: int| 0 <= i < log.len() implies record_wf(#[trigger] log[i]) by {
        assert(log[i].payload.len() <= MAX_EVENT_PAYLOAD_BYTES);
    }
    lemma_frame_roundtrip(log, output);
}

/// The ASCII bytes of a text.
pub open spec fn ascii_bytes(t: Seq<char>) -> Seq<u8> {
    t.map_values(|c: char| c as u8)
}

/// Decoding the lowercase hex that the decoder prints gives back the bytes.
pub proof fn lemma_hex_roundtrip(b: Seq<u8>)
    ensures
        hex_outcome(ascii_bytes(hex_bytes(b))) == Ok::<Seq<u8>, crate::cli::HexError>(b),
    decreases b.len(),
{
    let t = ascii_bytes(hex_bytes(b));
    lemma_hex_digits(b);
    assert(t.len() == 2 * b.len());
    assert(t.len() % 2 == 0);
    lemma_unhex_of_hex(b);
}

proof fn lemma_hex_digit_ascii(d: nat)
    requires
        d < 16,
    ensures
        is_hex_char(hex_digit(d) as u8),
        hex_value(hex_digit(d) as u8) == d,
{
}

/// The hex text of `b` has two hex digits per byte and nothing else.
proof fn lemma_hex_digits(b: Seq<u8>)
    ensures
        hex_bytes(b).len() == 2 * b.len(),
        hex_prefix_len(ascii_bytes(hex_bytes(b))) == 2 * b.len(),
    decreases b.len(),
{
    if b.len() > 0 {
        lemma_hex_digits(b.drop_first());
        let t = ascii_bytes(hex_bytes(b));
        let rest = ascii_bytes(hex_bytes(b.drop_first()));
        lemma_hex_digit_ascii((b[0] / 16) as nat);
        lemma_hex_digit_ascii((b[0] % 16) as nat);
        assert(t.drop_first().drop_first() =~= rest);
        assert(t[0] == hex_digit((b[0] / 16) as nat) as u8);
        assert(t[1] == hex_digit((b[0] % 16) as nat) as u8);
        assert(t.drop_first()[0] == t[1]);
        assert(hex_prefix_len(t.drop_first()) == 1 + hex_prefix_len(rest));
        assert(hex_prefix_len(t) == 1 + hex_prefix_len(t.drop_first()));
    }
}

proof fn lemma_unhex_of_hex(b: Seq<u8>)
    ensures
        unhex(ascii_bytes(hex_bytes(b))) == b,
    decreases b.len(),
{
    if b.len() > 0 {
        lemma_hex_digits(b.drop_first());
        lemma_unhex_of_hex(b.drop_first());
        let t = ascii_bytes(hex_bytes(b));
        lemma_hex_digit_ascii((b[0] / 16) as nat);
        lemma_hex_digit_ascii((b[0] % 16) as nat);
        assert(t.skip(2) =~= ascii_bytes(hex_bytes(b.drop_first())));
        assert(seq![b[0]] + b.drop_first() =~= b);
    }
}

/// Selecting no program keeps every event.
pub proof fn lemma_no_program_keeps_all(rs: Seq<RecordModel>)
    ensures
        from_program(rs, None) == rs,
    decreases rs.len(),
{
    if rs.len() > 0 {
        lemma_no_program_keeps_all(rs.drop_last());
        assert(rs.drop_last() + seq![rs.last()] =~= rs);
    }
}

/// `c` is a decimal digit.
pub open spec fn is_digit(c: char) -> bool {
    48 <= (c as u32) <= 57
}

/// The number that a string of decimal digits denotes, most significant first.
pub open spec fn digits_value(s: Seq<char>) -> nat
    decreases s.len(),
{
    if s.len() == 0 {
        0
    } else {
        digits_value(s.drop_last()) * 10 + ((s.last() as u32) - 48) as nat
    }
}

/// The decimal text of a number is a non-empty string of digits, without a
/// leading zero (but for zero itself), whose digits denote the number.
pub proof fn lemma_decimal_denotes(v: nat)
    ensures
        decimal(v).len() >= 1,
        forall|i: int| 0 <= i < decimal(v).len() ==> is_digit(#[trigger] decimal(v)[i]),
        digits_value(decimal(v)) == v,
        decimal(v)[0] == '0' ==> v == 0 && decimal(v).len() == 1,
    decreases v,
{
    assert((hex_digit(v % 10) as u32) == 48 + v % 10);
    assert(digits_value(Seq::<char>::empty()) == 0);
    if v < 10 {
        assert(seq![hex_digit(v)].drop_last() =~= Seq::<char>::empty());
        assert(digits_value(seq![hex_digit(v)]) == v);
    } else {
        lemma_decimal_denotes(v / 10);
        let d = decimal(v);
        assert(d.drop_last() =~= decimal(v / 10));
        assert(d.last() == hex_digit(v % 10));
        assert(digits_value(d) == digits_value(decimal(v / 10)) * 10 + v % 10);
        assert(forall|i: int| 0 <= i < d.len() - 1 ==> d[i] == decimal(v / 10)[i]);
        assert(d[0] == decimal(v / 10)[0]);
    }
}

/// The terminal text of an event opens with `[seq=`, then the sequence number
/// in decimal digits that denote it, then `]`.
pub proof fn lemma_display_shows_sequence(d: DecodedEvent)
    ensures
        ({
            let text = display_text(d);
            let n = decimal(d.sequence as nat).len() as int;
            &&& text.subrange(0, 5) == "[seq="@
            &&& forall|i: int| 5 <= i < 5 + n ==> is_digit(#[trigger] text[i])
            &&& digits_value(text.subrange(5, 5 + n)) == d.sequence
            &&& text[5 + n] == ']'
        }),
{
    reveal_strlit("[seq=");
    reveal_strlit("] ");
    let text = display_text(d);
    let t = decimal(d.sequence as nat);
    lemma_decimal_denotes(d.sequence as nat);
    assert(text.subrange(0, 5) =~= "[seq="@);
    assert(text.subrange(5, 5 + t.len() as int) =~= t);
    assert(forall|i: int| 5 <= i < 5 + t.len() ==> text[i] == t[i - 5]);
    assert(text[5 + t.len() as int] == "] "@[0]);
}

/// A field of type `U128` shows the decimal of the number whose Borsh
/// (little-endian) encoding fills it: decoding the encoding of any `v` under a
/// schema with one `U128` field gives that field's name and the digits of `v`.
pub proof fn lemma_u128_field_shows_value(
    schemas: Seq<EventSchema>,
    r: RecordModel,
    name: String,
    v: u128,
)
    requires
        schemas.len() > 0,
        schemas[0].discriminant == r.discriminant,
        schemas[0].fields@ == seq![(name, FieldType::U128)],
        r.payload == le_bytes(v as nat, 16),
    ensures
        decoded_pairs(schemas, r) == seq![(name@, decimal(v as nat))],
        digits_value(decoded_pairs(schemas, r)[0].1) == v,
{
    lemma_pow256_values();
    crate::bytes::lemma_le_bytes_len(v as nat, 16);
    lemma_le_value_of_bytes(v as nat, 16);
    assert(r.payload.subrange(0, 16) =~= r.payload);
    let fields = schemas[0].fields@;
    assert(fields.len() == 1);
    assert(fields[0] == (name, FieldType::U128));
    assert(fields.drop_first() =~= Seq::<(String, FieldType)>::empty());
    assert(crate::decoder::decoded_fields(r.payload, 16, fields.drop_first())
        == Seq::<(Seq<char>, Seq<char>)>::empty());
    assert(crate::decoder::schema_for(schemas, r.discriminant) == Some(schemas[0]));
    assert(crate::decoder::le_at(r.payload, 0, 16) == v);
    assert(crate::decoder::field_text(r.payload, 0, FieldType::U128) == Some(
        (decimal(v as nat), 16nat),
    ));
    assert(seq![(name@, decimal(v as nat))] + Seq::<(Seq<char>, Seq<char>)>::empty() =~= seq![
        (name@, decimal(v as nat)),
    ]);
    lemma_decimal_denotes(v as nat);
}

/// Selecting a program keeps exactly the events whose program id is that
/// program's, in their order: the result is the subsequence of those events.
pub proof fn lemma_program_filter_selects(rs: Seq<RecordModel>, p: Seq<u8>)
    ensures
        from_program(rs, Some(p)) == rs.filter(|r: RecordModel| r.program_id == p),
        forall|i: int|
            0 <= i < from_program(rs, Some(p)).len() ==> (#[trigger] from_program(
                rs,
                Some(p),
            )[i]).program_id == p,
        forall|i: int|
            0 <= i < rs.len() && (#[trigger] rs[i]).program_id == p ==> from_program(
                rs,
                Some(p),
            ).contains(rs[i]),
    decreases rs.len(),
{
    let pred = |r: RecordModel| r.program_id == p;
    reveal(Seq::filter);
    if rs.len() > 0 {
        lemma_program_filter_selects(rs.drop_last(), p);
        if pred(rs.last()) {
            assert(from_program(rs.drop_last(), Some(p)) + seq![rs.last()] =~= from_program(
                rs.drop_last(),
                Some(p),
            ).push(rs.last()));
        } else {
            assert(from_program(rs.drop_last(), Some(p)) + Seq::<RecordModel>::empty()
                =~= from_program(rs.drop_last(), Some(p)));
        }
    }
    broadcast use vstd::seq_lib::group_filter_ensures;
    assert forall|i: int| 0 <= i < rs.len() && (#[trigger] rs[i]).program_id == p implies from_program(
        rs,
        Some(p),
    ).contains(rs[i]) by {
        rs.lemma_filter_contains(pred, i);
    }
}

/// The text of a list of events is the text of its first part followed by the
/// text of the rest: every event is shown, in order.
pub proof fn lemma_events_text_concat(
    a: Seq<RecordModel>,
    b: Seq<RecordModel>,
    schemas: Seq<EventSchema>,
    failed: bool,
)
    ensures
        events_text(a + b, schemas, failed) == events_text(a, schemas, failed) + events_text(
            b,
            schemas,
            failed,
        ),
    decreases b.len(),
{
    if b.len() == 0 {
        assert(a + b =~= a);
        assert(events_text(a, schemas, failed) + Seq::<char>::empty() =~= events_text(
            a,
            schemas,
            failed,
        ));
    } else {
        lemma_events_text_concat(a, b.drop_last(), schemas, failed);
        assert((a + b).drop_last() =~= a + b.drop_last());
        assert((a + b).last() == b.last());
        assert(events_text(a, schemas, failed) + events_text(b.drop_last(), schemas, failed)
            + event_text(b.last(), schemas, failed) =~= events_text(a, schemas, failed) + (
        events_text(b.drop_last(), schemas, failed) + event_text(b.last(), schemas, failed)));
    }
}

/// The text of one event is its own terminal text, and the length of the text
/// of a list is the sum of the lengths of its events' texts.
pub proof fn lemma_events_text_each(
    rs: Seq<RecordModel>,
    r: RecordModel,
    schemas: Seq<EventSchema>,
    failed: bool,
)
    ensures
        events_text(seq![r], schemas, failed) == event_text(r, schemas, failed),
        events_text(rs.push(r), schemas, failed) == events_text(rs, schemas, failed) + event_text(
            r,
            schemas,
            failed,
        ),
        events_text(rs.push(r), schemas, failed).len() == events_text(rs, schemas, failed).len()
            + event_text(r, schemas, failed).len(),
{
    lemma_events_text_concat(Seq::empty(), seq![r], schemas, failed);
    lemma_events_text_concat(rs, seq![r], schemas, failed);
    assert(Seq::<RecordModel>::empty() + seq![r] =~= seq![r]);
    assert(rs + seq![r] =~= rs.push(r));
    assert(seq![r].drop_last() =~= Seq::<RecordModel>::empty());
    assert(Seq::<char>::empty() + event_text(r, schemas, failed) =~= event_text(r, schemas, failed));
}

} // verus!
