//! The decisions of the command-line decoder: reading hex input, picking the
//! events to show, and rendering them.

use crate::decoder::{
    decode_event, decodes, event_text, lemma_display_of_decoded, to_display, DecodedEvent,
    EventSchema,
};
use crate::event::{models, parse_record, EventRecord, RecordModel};
use crate::journal::{journal_events, parse_journal, reports, ParseError};
use vstd::prelude::*;
use vstd::string::StringSliceAdditionalSpecFns;

verus! {

/// Why hex text could not be decoded.
#[derive(Debug, Clone, Copy, PartialEq, Eq)]
pub enum HexError {
    /// A character that is not a hex digit, and its byte position.
    InvalidHexCharacter { c: char, index: usize },
    /// An odd number of hex digits.
    OddLength,
    /// The text does not fit the fixed size asked for.
    InvalidStringLength,
}

/// Why a command-line input could not be used.
#[derive(Debug, Clone, PartialEq, Eq)]
pub enum CliError {
    /// The text is not valid hex.
    InvalidHex(HexError),
    /// A program id that is not 32 bytes long; the length it has.
    ProgramIdLength(usize),
    /// The bytes end before the record they should hold.
    RecordTruncated,
}

/// `b` is the ASCII code of a hex digit, in either case.
pub open spec fn is_hex_char(b: u8) -> bool {
    (48 <= b <= 57) || (65 <= b <= 70) || (97 <= b <= 102)
}

/// The value of the hex digit whose ASCII code is `b`.
pub open spec fn hex_value(b: u8) -> nat {
    if b <= 57 {
        (b - 48) as nat
    } else if b <= 70 {
        (b - 55) as nat
    } else {
        (b - 87) as nat
    }
}

/// The bytes that pairs of hex digits denote, high digit first.
pub open spec fn unhex(s: Seq<u8>) -> Seq<u8>
    decreases s.len(),
{
    if s.len() < 2 {
        Seq::empty()
    } else {
        seq![(16 * hex_value(s[0]) + hex_value(s[1])) as u8] + unhex(s.skip(2))
    }
}

/// The number of hex digits at the front of `s`.
pub open spec fn hex_prefix_len(s: Seq<u8>) -> nat
    decreases s.len(),
{
    if s.len() == 0 || !is_hex_char(s[0]) {
        0
    } else {
        1 + hex_prefix_len(s.drop_first())
    }
}

/// Outcome of decoding hex text `s` (as bytes) into bytes.
pub open spec fn hex_outcome(s: Seq<u8>) -> Result<Seq<u8>, HexError> {
    if s.len() % 2 == 1 {
        Err(HexError::OddLength)
    } else if hex_prefix_len(s) < s.len() {
        Err(
            HexError::InvalidHexCharacter {
                c: s[hex_prefix_len(s) as int] as char,
                index: hex_prefix_len(s) as usize,
            },
        )
    } else {
        Ok(unhex(s))
    }
}

/// `hex::decode`: an odd number of bytes is refused; otherwise the first byte
/// that is not a hex digit (either case) is reported with its position;
/// otherwise each pair of digits gives one byte, high digit first.
#[verifier::external_body]
fn hex_decode_bytes(data: &[u8]) -> (r: Result<Vec<u8>, HexError>)
    ensures
        match hex_outcome(data@) {
            Ok(b) => r matches Ok(v) && v@ == b,
            Err(e) => r == Err::<Vec<u8>, HexError>(e),
        },
{
    match hex::decode(data) {
        Ok(v) => Ok(v),
        Err(hex::FromHexError::InvalidHexCharacter { c, index }) => Err(
            HexError::InvalidHexCharacter { c, index },
        ),
        Err(hex::FromHexError::OddLength) => Err(HexError::OddLength),
        Err(hex::FromHexError::InvalidStringLength) => Err(HexError::InvalidStringLength),
    }
}

/// The hex digits of text `t` (as bytes): without a leading `0x` where it has one.
pub open spec fn hex_digits_of(t: Seq<u8>) -> Seq<u8> {
    if t.len() >= 2 && t[0] == 48 && t[1] == 120 {
        t.skip(2)
    } else {
        t
    }
}

/// Strip an optional `0x` prefix and hex-decode.
pub fn hex_decode(s: &str) -> (r: Result<Vec<u8>, HexError>)
    ensures
        match hex_outcome(hex_digits_of(s.spec_bytes())) {
            Ok(b) => r matches Ok(v) && v@ == b,
            Err(e) => r == Err::<Vec<u8>, HexError>(e),
        },
{
    let b = s.as_bytes();
    let len = b.len();
    if len >= 2 && b[0] == 48 && b[1] == 120 {
        let digits = &b[2..len];
        assert(digits@ =~= b@.skip(2));
        hex_decode_bytes(digits)
    } else {
        hex_decode_bytes(b)
    }
}

/// No schemas: every event is shown by its discriminant and raw payload.
pub fn no_schemas() -> (schemas: Vec<EventSchema>)
    ensures
        schemas@.len() == 0,
{
    Vec::new()
}

/// The events of the frames at the front of a journal.
pub fn records_from_journal(bytes: &[u8]) -> (r: Result<Vec<EventRecord>, ParseError>)
    ensures
        match journal_events(bytes@) {
            Ok((events, _)) => r matches Ok(v) && models(v@) == events,
            Err(f) => r matches Err(e) && reports(e, f),
        },
{
    match parse_journal(bytes) {
        Ok((events, _rest)) => Ok(events),
        Err(e) => Err(e),
    }
}

/// A 32-byte program id given in hex, with or without `0x`.
pub fn parse_program_id(s: &str) -> (r: Result<[u8; 32], CliError>)
    ensures
        match hex_outcome(hex_digits_of(s.spec_bytes())) {
            Ok(b) => if b.len() == 32 {
                r matches Ok(id) && id@ == b
            } else {
                r == Err::<[u8; 32], CliError>(CliError::ProgramIdLength(b.len() as usize))
            },
            Err(e) => r == Err::<[u8; 32], CliError>(CliError::InvalidHex(e)),
        },
{
    match hex_decode(s) {
        Err(e) => Err(CliError::InvalidHex(e)),
        Ok(b) => {
            if b.len() != 32 {
                return Err(CliError::ProgramIdLength(b.len()));
            }
            let mut id = [0u8; 32];
            let mut i: usize = 0;
            while i < 32
                invariant
                    i <= 32,
                    b@.len() == 32,
                    forall|k: int| 0 <= k < i ==> id@[k] == b@[k],
                decreases 32 - i,
            {
                id[i] = b[i];
                i = i + 1;
            }
            assert(id@ =~= b@);
            Ok(id)
        },
    }
}

/// A record given as the hex of its encoding, with or without `0x`; bytes
/// after the record are ignored.
pub fn decode_record_hex(s: &str) -> (r: Result<EventRecord, CliError>)
    ensures
        match hex_outcome(hex_digits_of(s.spec_bytes())) {
            Ok(b) => match parse_record(b) {
                Some((m, _)) => r matches Ok(rec) && rec@ == m,
                None => r == Err::<EventRecord, CliError>(CliError::RecordTruncated),
            },
            Err(e) => r == Err::<EventRecord, CliError>(CliError::InvalidHex(e)),
        },
{
    match hex_decode(s) {
        Err(e) => Err(CliError::InvalidHex(e)),
        Ok(b) => {
            assert(b@.skip(0) =~= b@);
            match EventRecord::read_at(b.as_slice(), 0) {
                Some((record, _)) => Ok(record),
                None => Err(CliError::RecordTruncated),
            }
        },
    }
}

fn same_id(a: &[u8; 32], b: &[u8; 32]) -> (r: bool)
    ensures
        r == (a@ == b@),
{
    let mut i: usize = 0;
    while i < 32
        invariant
            i <= 32,
            forall|k: int| 0 <= k < i ==> a@[k] == b@[k],
        decreases 32 - i,
    {
        if a[i] != b[i] {
            return false;
        }
        i = i + 1;
    }
    assert(a@ =~= b@);
    true
}

/// The records of `rs` from program `program`, in order; all of them where
/// there is no program to select.
pub open spec fn from_program(rs: Seq<RecordModel>, program: Option<Seq<u8>>) -> Seq<RecordModel>
    decreases rs.len(),
{
    if rs.len() == 0 {
        Seq::empty()
    } else {
        let keep = match program {
            None => true,
            Some(p) => rs.last().program_id == p,
        };
        from_program(rs.drop_last(), program) + if keep {
            seq![rs.last()]
        } else {
            Seq::empty()
        }
    }
}

/// The events of `records` that come from `program`, in order; all of them
/// where no program is given.
pub fn filter_by_program(records: &Vec<EventRecord>, program: Option<[u8; 32]>) -> (out: Vec<
    EventRecord,
>)
    ensures
        models(out@) == from_program(
            models(records@),
            match program {
                None => None,
                Some(p) => Some(p@),
            },
        ),
{
    let ghost sel = match program {
        None => None,
        Some(p) => Some(p@),
    };
    let ghost all = models(records@);
    let mut out: Vec<EventRecord> = Vec::new();
    let n = records.len();
    let mut i: usize = 0;
    assert(all.subrange(0, 0) =~= Seq::<RecordModel>::empty());
    assert(models(out@) =~= Seq::<RecordModel>::empty());
    while i < n
        invariant
            i <= n,
            n == all.len(),
            all == models(records@),
            models(out@) == from_program(all.subrange(0, i as int), sel),
            sel == match program {
                None => None,
                Some(p) => Some(p@),
            },
        decreases n - i,
    {
        let r = &records[i];
        assert(all.subrange(0, i + 1).drop_last() =~= all.subrange(0, i as int));
        assert(all.subrange(0, i + 1).last() == r@);
        let keep = match &program {
            None => true,
            Some(p) => same_id(&r.program_id, p),
        };
        let ghost before_out = models(out@);
        if keep {
            out.push(r.duplicate());
            assert(models(out@) =~= before_out + seq![r@]);
        } else {
            assert(models(out@) =~= before_out + Seq::<RecordModel>::empty());
        }
        i = i + 1;
    }
    assert(all.subrange(0, n as int) =~= all);
    out
}

/// Decodes each record, marking each as coming from a failed transaction
/// where `from_failed_tx`.
pub fn decode_records(records: &Vec<EventRecord>, schemas: &Vec<EventSchema>, from_failed_tx: bool) -> (out: Vec<DecodedEvent>)
    ensures
        out@.len() == records@.len(),
        forall|i: int|
            0 <= i < records@.len() ==> decodes(#[trigger] out@[i], records@[i]@, schemas@)
                && out@[i].from_failed_tx == from_failed_tx,
{
    let mut out: Vec<DecodedEvent> = Vec::new();
    let n = records.len();
    let mut i: usize = 0;
    while i < n
        invariant
            i <= n,
            n == records@.len(),
            out@.len() == i,
            forall|k: int|
                0 <= k < i ==> decodes(#[trigger] out@[k], records@[k]@, schemas@)
                    && out@[k].from_failed_tx == from_failed_tx,
        decreases n - i,
    {
        let mut d = decode_event(&records[i], schemas);
        d.from_failed_tx = from_failed_tx;
        out.push(d);
        i = i + 1;
    }
    out
}

/// The terminal texts of `rs`, one after another.
pub open spec fn events_text(rs: Seq<RecordModel>, schemas: Seq<EventSchema>, failed: bool) -> Seq<
    char,
>
    decreases rs.len(),
{
    if rs.len() == 0 {
        Seq::empty()
    } else {
        events_text(rs.drop_last(), schemas, failed) + event_text(rs.last(), schemas, failed)
    }
}

/// The terminal text of a list of events: `"(no events)\n"` where there are
/// none, otherwise the display of each decoded event in turn.
pub fn display_events(records: &Vec<EventRecord>, schemas: &Vec<EventSchema>, from_failed_tx: bool) -> (s: String)
    ensures
        records@.len() == 0 ==> s@ == "(no events)\n"@,
        records@.len() > 0 ==> s@ == events_text(models(records@), schemas@, from_failed_tx),
{
    if records.len() == 0 {
        return String::from_str("(no events)\n");
    }
    let decoded = decode_records(records, schemas, from_failed_tx);
    let mut out = String::new();
    let n = decoded.len();
    let ghost all = models(records@);
    let mut i: usize = 0;
    assert(all.subrange(0, 0) =~= Seq::<RecordModel>::empty());
    assert(out@ =~= events_text(all.subrange(0, 0), schemas@, from_failed_tx));
    while i < n
        invariant
            i <= n,
            n == decoded@.len(),
            n == records@.len(),
            all == models(records@),
            forall|k: int|
                0 <= k < n ==> decodes(#[trigger] decoded@[k], records@[k]@, schemas@)
                    && decoded@[k].from_failed_tx == from_failed_tx,
            out@ == events_text(all.subrange(0, i as int), schemas@, from_failed_tx),
        decreases n - i,
    {
        let text = to_display(&decoded[i]);
        proof {
            lemma_display_of_decoded(decoded@[i as int], records@[i as int]@, schemas@);
            assert(all.subrange(0, i + 1).drop_last() =~= all.subrange(0, i as int));
        }
        out.append(text.as_str());
        i = i + 1;
    }
    assert(all.subrange(0, n as int) =~= all);
    out
}

/// The blocks that the watcher scans next: from the block after the last one
/// seen up to the latest block the RPC reports, when that is newer; `None`
/// when there is nothing new (or no report). After scanning, the end of the
/// range is the last block seen.
pub fn blocks_to_scan(last_seen: u64, reported: Option<u64>) -> (range: Option<(u64, u64)>)
    ensures
        match reported {
            Some(latest) => if latest > last_seen {
                range == Some(((last_seen + 1) as u64, latest))
            } else {
                range is None
            },
            None => range is None,
        },
{
    match reported {
        Some(latest) => {
            if latest > last_seen {
                Some((last_seen + 1, latest))
            } else {
                None
            }
        },
        None => None,
    }
}

} // verus!
