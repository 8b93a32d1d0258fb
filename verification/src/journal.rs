//! The framed event transport at the front of an execution journal.
//!
//! A frame is the magic bytes `LEZE`, the wire version (one byte), the number
//! of records (4 bytes, little-endian) and the encoded records. Frames may
//! follow one another; whatever follows the last frame is the rest of the
//! journal, handed back untouched.

use crate::bytes::{
    le_bytes, le_value, lemma_le_bytes_len, lemma_le_value_of_bytes, lemma_pow256_values, read_le,
    write_le,
};
use crate::event::{
    lemma_parse_record_bytes, models, parse_record, record_bytes,
    record_wf, EventRecord, RecordModel,
};
use vstd::prelude::*;

verus! {

/// The magic bytes that open a frame: `LEZE`.
pub const MAGIC_BYTES: [u8; 4] = [0x4C, 0x45, 0x5A, 0x45];

/// The version of the frame format.
pub const WIRE_VERSION: u8 = 1;

/// Why a journal could not be parsed.
#[derive(Debug, PartialEq, Eq)]
pub enum ParseError {
    /// A frame's header is cut short.
    MalformedHeader,
    /// A frame carries a wire version other than [`WIRE_VERSION`].
    UnsupportedVersion(u8),
    /// A record could not be read; the text says why.
    DeserializationError(String),
}

/// The kinds of failure, as the specification speaks of them.
pub enum JournalFault {
    MalformedHeader,
    UnsupportedVersion(u8),
    Truncated,
}

/// The text that a truncated record is reported with.
pub open spec fn truncated_message() -> Seq<char> {
    "Unexpected length of input"@
}

/// `e` is the error that reports `f`.
pub open spec fn reports(e: ParseError, f: JournalFault) -> bool {
    match f {
        JournalFault::MalformedHeader => e is MalformedHeader,
        JournalFault::UnsupportedVersion(v) => e == ParseError::UnsupportedVersion(v),
        JournalFault::Truncated => e matches ParseError::DeserializationError(m) && m@
            == truncated_message(),
    }
}

/// The magic bytes as a sequence.
pub open spec fn magic() -> Seq<u8> {
    seq![0x4Cu8, 0x45u8, 0x5Au8, 0x45u8]
}

pub open spec fn starts_with_magic(j: Seq<u8>) -> bool {
    j.len() >= 4 && j.subrange(0, 4) == magic()
}

/// Reads `count` records one after another from the front of `s`: the records
/// and the number of bytes they took, or `None` where `s` ends too soon.
pub open spec fn parse_records(s: Seq<u8>, count: nat) -> Option<(Seq<RecordModel>, nat)>
    decreases count,
{
    if count == 0 {
        Some((Seq::empty(), 0))
    } else {
        match parse_records(s, (count - 1) as nat) {
            None => None,
            Some((rs, m)) => match parse_record(s.skip(m as int)) {
                None => None,
                Some((r, n)) => Some((rs.push(r), m + n)),
            },
        }
    }
}

pub proof fn lemma_parse_records_len(s: Seq<u8>, count: nat)
    ensures
        parse_records(s, count) matches Some((rs, m)) ==> m <= s.len() && rs.len() == count,
    decreases count,
{
    if count > 0 {
        lemma_parse_records_len(s, (count - 1) as nat);
    }
}

/// Once a record cannot be read, no longer run of records can be read either.
pub proof fn lemma_parse_records_stuck(s: Seq<u8>, a: nat, b: nat)
    requires
        a <= b,
        parse_records(s, a) is None,
    ensures
        parse_records(s, b) is None,
    decreases b,
{
    if a < b {
        lemma_parse_records_stuck(s, a, (b - 1) as nat);
    }
}

/// The events of the frames at the front of `j` and the bytes after them, or
/// the first fault met.
pub open spec fn journal_events(j: Seq<u8>) -> Result<(Seq<RecordModel>, Seq<u8>), JournalFault>
    decreases j.len(),
{
    if !starts_with_magic(j) {
        Ok((Seq::empty(), j))
    } else if j.len() < 9 {
        Err(JournalFault::MalformedHeader)
    } else if j[4] != WIRE_VERSION {
        Err(JournalFault::UnsupportedVersion(j[4]))
    } else {
        match parse_records(j.skip(9), le_value(j.subrange(5, 9))) {
            None => Err(JournalFault::Truncated),
            Some((events, used)) => {
                proof {
                    lemma_parse_records_len(j.skip(9), le_value(j.subrange(5, 9)));
                }
                prepend(events, journal_events(j.skip(9 + used as int)))
            },
        }
    }
}

/// `events` in front of the events of an outcome; a fault stays a fault.
pub open spec fn prepend(
    events: Seq<RecordModel>,
    r: Result<(Seq<RecordModel>, Seq<u8>), JournalFault>,
) -> Result<(Seq<RecordModel>, Seq<u8>), JournalFault> {
    match r {
        Ok((more, rest)) => Ok((events + more, rest)),
        Err(f) => Err(f),
    }
}

/// The encodings of `events`, one after another.
pub open spec fn records_bytes(events: Seq<RecordModel>) -> Seq<u8>
    decreases events.len(),
{
    if events.len() == 0 {
        Seq::empty()
    } else {
        records_bytes(events.drop_last()) + record_bytes(events.last())
    }
}

/// The frame that carries `events`.
pub open spec fn frame_bytes(events: Seq<RecordModel>) -> Seq<u8> {
    magic() + seq![WIRE_VERSION] + le_bytes((events.len() as u32) as nat, 4) + records_bytes(events)
}

fn magic_at(journal: &[u8], pos: usize) -> (b: bool)
    requires
        pos <= journal@.len(),
    ensures
        b == starts_with_magic(journal@.skip(pos as int)),
{
    let len = journal.len();
    if len - pos < 4 {
        return false;
    }
    let b = journal[pos] == 0x4C && journal[pos + 1] == 0x45 && journal[pos + 2] == 0x5A
        && journal[pos + 3] == 0x45;
    assert(b == (journal@.skip(pos as int).subrange(0, 4) =~= magic()));
    b
}

/// Parses the framed event stream at the front of the execution journal.
///
/// Returns the events of all frames at the front and the remaining bytes.
/// A journal that does not start with a frame gives no events and is handed
/// back whole.
pub fn parse_journal(journal: &[u8]) -> (res: Result<(Vec<EventRecord>, &[u8]), ParseError>)
    ensures
        match journal_events(journal@) {
            Ok((events, rest)) => res matches Ok((v, r)) && models(v@) == events && r@ == rest,
            Err(f) => res matches Err(e) && reports(e, f),
        },
{
    let len = journal.len();
    let mut events: Vec<EventRecord> = Vec::new();
    let mut pos: usize = 0;
    assert(journal@.skip(0) =~= journal@);
    assert(models(events@) =~= Seq::<RecordModel>::empty());
    while magic_at(journal, pos)
        invariant
            pos <= len,
            len == journal@.len(),
            journal_events(journal@) == prepend(
                models(events@),
                journal_events(journal@.skip(pos as int)),
            ),
        decreases len - pos,
    {
        let ghost s = journal@.skip(pos as int);
        if len - pos < 9 {
            return Err(ParseError::MalformedHeader);
        }
        let version = journal[pos + 4];
        if version != WIRE_VERSION {
            return Err(ParseError::UnsupportedVersion(version));
        }
        assert(s.subrange(5, 9) =~= journal@.subrange(pos + 5, pos + 9));
        proof {
            lemma_pow256_values();
        }
        let count = read_le(journal, pos + 5, 4) as u32;
        let start = pos + 9;
        pos = start;
        let ghost body = journal@.skip(start as int);
        assert(s.skip(9) =~= body);
        let mut frame: Vec<EventRecord> = Vec::new();
        let mut k: u32 = 0;
        assert(models(frame@) =~= Seq::<RecordModel>::empty());
        while k < count
            invariant
                start <= pos <= len,
                len == journal@.len(),
                k <= count,
                body == journal@.skip(start as int),
                body == s.skip(9),
                starts_with_magic(s),
                s.len() >= 9,
                s[4] == WIRE_VERSION,
                count == le_value(s.subrange(5, 9)),
                journal_events(journal@) == prepend(models(events@), journal_events(s)),
                parse_records(body, k as nat) == Some((models(frame@), (pos - start) as nat)),
            decreases count - k,
        {
            assert(journal@.skip(pos as int) =~= body.skip(pos - start));
            match EventRecord::read_at(journal, pos) {
                None => {
                    proof {
                        lemma_parse_records_stuck(body, (k + 1) as nat, count as nat);
                        assert(journal_events(s) == Err::<(Seq<RecordModel>, Seq<u8>), JournalFault>(
                            JournalFault::Truncated,
                        ));
                    }
                    return Err(
                        ParseError::DeserializationError(
                            String::from_str("Unexpected length of input"),
                        ),
                    );
                },
                Some((record, n)) => {
                    let ghost before = models(frame@);
                    frame.push(record);
                    assert(models(frame@) =~= before.push(record@));
                    pos = pos + n;
                },
            }
            k = k + 1;
        }
        let ghost frame_models = models(frame@);
        let ghost old_events = models(events@);
        assert(s.skip(9 + (pos - start)) =~= journal@.skip(pos as int));
        events.append(&mut frame);
        assert(models(events@) =~= old_events + frame_models);
        proof {
            let tail = journal_events(journal@.skip(pos as int));
            assert(journal_events(s) == prepend(frame_models, tail));
            match tail {
                Ok((more, rest)) => {
                    assert(old_events + (frame_models + more) =~= (old_events + frame_models)
                        + more);
                },
                Err(_) => {},
            }
        }
    }
    assert(models(events@) + Seq::<RecordModel>::empty() =~= models(events@));
    let rest = &journal[pos..len];
    assert(rest@ =~= journal@.skip(pos as int));
    Ok((events, rest))
}

/// The frame that carries `events`, or no bytes at all where there are no
/// events: what is committed to the journal for a transaction.
pub fn frame_events(events: &Vec<EventRecord>) -> (frame: Vec<u8>)
    requires
        forall|i: int| 0 <= i < events@.len() ==> events@[i].payload@.len() <= u32::MAX,
    ensures
        events@.len() == 0 ==> frame@ == Seq::<u8>::empty(),
        events@.len() > 0 ==> frame@ == frame_bytes(models(events@)),
{
    let mut frame: Vec<u8> = Vec::new();
    if events.len() == 0 {
        return frame;
    }
    frame.push(0x4C);
    frame.push(0x45);
    frame.push(0x5A);
    frame.push(0x45);
    frame.push(WIRE_VERSION);
    let n = events.len();
    #[verifier::truncate]
    let count = n as u32;
    write_le(&mut frame, count as u128, 4);
    let ghost header = frame@;
    let ghost m = models(events@);
    assert(header =~= magic() + seq![WIRE_VERSION] + le_bytes((m.len() as u32) as nat, 4));
    assert(m.subrange(0, 0) =~= Seq::<RecordModel>::empty());
    assert(header + records_bytes(m.subrange(0, 0)) =~= header);
    let mut i: usize = 0;
    while i < n
        invariant
            i <= n,
            n == events@.len(),
            m == models(events@),
            forall|k: int| 0 <= k < events@.len() ==> events@[k].payload@.len() <= u32::MAX,
            frame@ == header + records_bytes(m.subrange(0, i as int)),
        decreases n - i,
    {
        events[i].write_to(&mut frame);
        assert(m.subrange(0, i + 1).drop_last() =~= m.subrange(0, i as int));
        assert(m.subrange(0, i + 1).last() == events@[i as int]@);
        i = i + 1;
    }
    assert(m.subrange(0, n as int) =~= m);
    frame
}

/// Reading back encoded records, whatever follows them, gives the records
/// and the length of their encodings.
pub proof fn lemma_parse_records_bytes(events: Seq<RecordModel>, rest: Seq<u8>)
    requires
        forall|i: int| 0 <= i < events.len() ==> record_wf(#[trigger] events[i]),
    ensures
        parse_records(records_bytes(events) + rest, events.len()) == Some(
            (events, records_bytes(events).len()),
        ),
    decreases events.len(),
{
    if events.len() > 0 {
        let init = events.drop_last();
        let last = events.last();
        let tail = record_bytes(last) + rest;
        assert(forall|i: int| 0 <= i < init.len() ==> init[i] == events[i]);
        lemma_parse_records_bytes(init, tail);
        let s = records_bytes(events) + rest;
        assert(s =~= records_bytes(init) + tail);
        assert(s.skip(records_bytes(init).len() as int) =~= tail);
        assert(record_wf(events[events.len() - 1]));
        lemma_parse_record_bytes(last, rest);
        assert(init.push(last) =~= events);
    }
}

/// A frame in front of any journal adds its events in front of the events
/// that the journal holds, and leaves the rest as the journal leaves it.
pub proof fn lemma_frame_prepends(events: Seq<RecordModel>, j: Seq<u8>)
    requires
        0 < events.len() <= u32::MAX,
        forall|i: int| 0 <= i < events.len() ==> record_wf(#[trigger] events[i]),
    ensures
        journal_events(frame_bytes(events) + j) == prepend(events, journal_events(j)),
{
    let f = frame_bytes(events) + j;
    let n = events.len();
    lemma_le_bytes_len(n, 4);
    lemma_pow256_values();
    lemma_le_value_of_bytes(n, 4);
    assert(f.subrange(0, 4) =~= magic());
    assert(f[4] == WIRE_VERSION);
    assert(f.subrange(5, 9) =~= le_bytes(n, 4));
    assert(f.skip(9) =~= records_bytes(events) + j);
    lemma_parse_records_bytes(events, j);
    let used = records_bytes(events).len();
    assert(f.skip(9 + used as int) =~= j);
}

/// Framing events and parsing the journal gives back exactly those events,
/// and the bytes that follow the frame untouched.
pub proof fn lemma_frame_roundtrip(events: Seq<RecordModel>, rest: Seq<u8>)
    requires
        0 < events.len() <= u32::MAX,
        forall|i: int| 0 <= i < events.len() ==> record_wf(#[trigger] events[i]),
        !starts_with_magic(rest),
    ensures
        journal_events(frame_bytes(events) + rest) == Ok::<(Seq<RecordModel>, Seq<u8>), JournalFault>(
            (events, rest),
        ),
{
    lemma_frame_prepends(events, rest);
    assert(events + Seq::<RecordModel>::empty() =~= events);
}

/// A journal that does not open with the magic bytes holds no events and is
/// handed back whole.
pub proof fn lemma_unframed_journal(j: Seq<u8>)
    requires
        !starts_with_magic(j),
    ensures
        journal_events(j) == Ok::<(Seq<RecordModel>, Seq<u8>), JournalFault>((Seq::empty(), j)),
{
}

} // verus!
