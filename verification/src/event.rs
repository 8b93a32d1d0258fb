//! The canonical event record and its wire format.
//!
//! A record is written field after field, in this frozen order:
//! `program_id` (32 bytes), `sequence` (4 bytes, little-endian),
//! `discriminant` (8 bytes, little-endian), `schema_version` (1 byte),
//! the payload length (4 bytes, little-endian) and the payload bytes.

use crate::bytes::{
    le_bytes, le_value, lemma_le_bytes_len, lemma_le_value_of_bytes, lemma_pow256_values, read_le,
    write_le,
};
use vstd::prelude::*;

verus! {

/// Largest Borsh-encoded payload that one event may carry.
pub const MAX_EVENT_PAYLOAD_BYTES: usize = 1024;

/// Largest number of events in one transaction.
pub const MAX_EVENTS_PER_TX: u32 = 64;

/// Largest sum of payload lengths in one transaction (64 events of 1024 bytes).
pub const MAX_TOTAL_EVENT_BYTES: usize = 65536;

/// Canonical on-chain event record for LEZ programs.
///
/// Field order is frozen: it is the order of the wire format.
/// `program_id` is enforced by the sequencer; programs cannot set it.
#[derive(Debug, Clone, PartialEq, Eq)]
pub struct EventRecord {
    /// Program that emitted this event. Overwritten by the sequencer.
    pub program_id: [u8; 32],
    /// 0-indexed position in this transaction's event list.
    pub sequence: u32,
    /// Event type identifier, defined by the program author.
    pub discriminant: u64,
    /// Schema version for forward compatibility; 1 for v1.
    pub schema_version: u8,
    /// Borsh-encoded event payload.
    pub payload: Vec<u8>,
}

/// The mathematical value of an [`EventRecord`].
pub struct RecordModel {
    pub program_id: Seq<u8>,
    pub sequence: u32,
    pub discriminant: u64,
    pub schema_version: u8,
    pub payload: Seq<u8>,
}

impl View for EventRecord {
    type V = RecordModel;

    open spec fn view(&self) -> RecordModel {
        RecordModel {
            program_id: self.program_id@,
            sequence: self.sequence,
            discriminant: self.discriminant,
            schema_version: self.schema_version,
            payload: self.payload@,
        }
    }
}

/// The models of a sequence of records.
pub open spec fn models(v: Seq<EventRecord>) -> Seq<RecordModel> {
    v.map_values(|r: EventRecord| r@)
}

/// A model that a record can have and that the wire format can carry.
pub open spec fn record_wf(r: RecordModel) -> bool {
    &&& r.program_id.len() == 32
    &&& r.payload.len() <= u32::MAX
}

/// The bytes of an encoded record.
pub open spec fn record_bytes(r: RecordModel) -> Seq<u8> {
    r.program_id + le_bytes(r.sequence as nat, 4) + le_bytes(r.discriminant as nat, 8) + seq![
        r.schema_version,
    ] + le_bytes(r.payload.len(), 4) + r.payload
}

/// Reads one record from the front of `s`: the record and the number of bytes
/// it took, or `None` where `s` ends before the record does.
pub open spec fn parse_record(s: Seq<u8>) -> Option<(RecordModel, nat)> {
    if s.len() < 49 {
        None
    } else {
        let len = le_value(s.subrange(45, 49));
        if s.len() < 49 + len {
            None
        } else {
            Some(
                (
                    RecordModel {
                        program_id: s.subrange(0, 32),
                        sequence: le_value(s.subrange(32, 36)) as u32,
                        discriminant: le_value(s.subrange(36, 44)) as u64,
                        schema_version: s[44],
                        payload: s.subrange(49, 49 + len as int),
                    },
                    (49 + len) as nat,
                ),
            )
        }
    }
}

pub proof fn lemma_record_bytes_len(r: RecordModel)
    ensures
        record_bytes(r).len() == r.program_id.len() + 17 + r.payload.len(),
{
    lemma_le_bytes_len(r.sequence as nat, 4);
    lemma_le_bytes_len(r.discriminant as nat, 8);
    lemma_le_bytes_len(r.payload.len(), 4);
}

/// Reading back an encoded record, whatever follows it, gives the record and
/// the length of its encoding.
pub proof fn lemma_parse_record_bytes(r: RecordModel, rest: Seq<u8>)
    requires
        record_wf(r),
    ensures
        parse_record(record_bytes(r) + rest) == Some((r, record_bytes(r).len())),
{
    let b = record_bytes(r);
    let s = b + rest;
    lemma_record_bytes_len(r);
    let seq_b = le_bytes(r.sequence as nat, 4);
    let disc_b = le_bytes(r.discriminant as nat, 8);
    let len_b = le_bytes(r.payload.len(), 4);
    lemma_le_bytes_len(r.sequence as nat, 4);
    lemma_le_bytes_len(r.discriminant as nat, 8);
    lemma_le_bytes_len(r.payload.len(), 4);
    lemma_pow256_values();
    assert(s.subrange(0, 32) =~= r.program_id);
    assert(s.subrange(32, 36) =~= seq_b);
    assert(s.subrange(36, 44) =~= disc_b);
    assert(s[44] == r.schema_version);
    assert(s.subrange(45, 49) =~= len_b);
    lemma_le_value_of_bytes(r.sequence as nat, 4);
    lemma_le_value_of_bytes(r.discriminant as nat, 8);
    lemma_le_value_of_bytes(r.payload.len(), 4);
    assert(s.subrange(49, 49 + r.payload.len() as int) =~= r.payload);
}

/// Different records have different encodings.
pub proof fn lemma_record_bytes_injective(a: RecordModel, b: RecordModel)
    requires
        record_wf(a),
        record_wf(b),
        record_bytes(a) == record_bytes(b),
    ensures
        a == b,
{
    lemma_parse_record_bytes(a, Seq::empty());
    lemma_parse_record_bytes(b, Seq::empty());
    assert(record_bytes(a) + Seq::<u8>::empty() =~= record_bytes(a));
    assert(record_bytes(b) + Seq::<u8>::empty() =~= record_bytes(b));
}

impl EventRecord {
    /// A copy of `self`.
    pub fn duplicate(&self) -> (r: EventRecord)
        ensures
            r@ == self@,
    {
        EventRecord {
            program_id: self.program_id,
            sequence: self.sequence,
            discriminant: self.discriminant,
            schema_version: self.schema_version,
            payload: vstd::slice::slice_to_vec(self.payload.as_slice()),
        }
    }

    /// Appends the encoding of `self` to `out`.
    pub fn write_to(&self, out: &mut Vec<u8>)
        requires
            self.payload@.len() <= u32::MAX,
        ensures
            final(out)@ == old(out)@ + record_bytes(self@),
    {
        let mut i: usize = 0;
        while i < 32
            invariant
                i <= 32,
                out@ == old(out)@ + self.program_id@.subrange(0, i as int),
            decreases 32 - i,
        {
            out.push(self.program_id[i]);
            assert(self.program_id@.subrange(0, i + 1) =~= self.program_id@.subrange(
                0,
                i as int,
            ).push(self.program_id@[i as int]));
            i = i + 1;
        }
        assert(self.program_id@.subrange(0, 32) =~= self.program_id@);
        write_le(out, self.sequence as u128, 4);
        write_le(out, self.discriminant as u128, 8);
        out.push(self.schema_version);
        write_le(out, self.payload.len() as u128, 4);
        let mut j: usize = 0;
        let ghost mid = out@;
        while j < self.payload.len()
            invariant
                j <= self.payload@.len(),
                out@ == mid + self.payload@.subrange(0, j as int),
            decreases self.payload@.len() - j,
        {
            out.push(self.payload[j]);
            assert(self.payload@.subrange(0, j + 1) =~= self.payload@.subrange(0, j as int).push(
                self.payload@[j as int],
            ));
            j = j + 1;
        }
        assert(self.payload@.subrange(0, j as int) =~= self.payload@);
        assert(out@ =~= old(out)@ + record_bytes(self@));
    }

    /// The encoding of `self`: the bytes that Borsh writes for the record.
    pub fn to_bytes(&self) -> (bytes: Vec<u8>)
        requires
            self.payload@.len() <= u32::MAX,
        ensures
            bytes@ == record_bytes(self@),
    {
        let mut out: Vec<u8> = Vec::new();
        self.write_to(&mut out);
        assert(out@ =~= record_bytes(self@));
        out
    }

    /// Reads the record that starts at `pos`: the record and the number of
    /// bytes it took, or `None` where the bytes end before the record does.
    pub fn read_at(bytes: &[u8], pos: usize) -> (res: Option<(EventRecord, usize)>)
        requires
            pos <= bytes@.len(),
        ensures
            match parse_record(bytes@.skip(pos as int)) {
                None => res is None,
                Some((m, n)) => res matches Some((r, k)) && r@ == m && k == n,
            },
    {
        let len = bytes.len();
        let ghost s = bytes@.skip(pos as int);
        if len - pos < 49 {
            return None;
        }
        assert(s.subrange(45, 49) =~= bytes@.subrange(pos + 45, pos + 49));
        proof {
            lemma_pow256_values();
        }
        let plen = read_le(bytes, pos + 45, 4) as usize;
        if len - pos - 49 < plen {
            return None;
        }
        let mut program_id = [0u8; 32];
        let mut i: usize = 0;
        while i < 32
            invariant
                i <= 32,
                pos + 49 <= bytes@.len(),
                len == bytes@.len(),
                forall|k: int| 0 <= k < i ==> program_id@[k] == bytes@[pos + k],
            decreases 32 - i,
        {
            program_id[i] = bytes[pos + i];
            i = i + 1;
        }
        assert(program_id@ =~= s.subrange(0, 32));
        assert(s.subrange(32, 36) =~= bytes@.subrange(pos + 32, pos + 36));
        assert(s.subrange(36, 44) =~= bytes@.subrange(pos + 36, pos + 44));
        let sequence = read_le(bytes, pos + 32, 4) as u32;
        let discriminant = read_le(bytes, pos + 36, 8) as u64;
        let schema_version = bytes[pos + 44];
        let payload = vstd::slice::slice_to_vec(&bytes[pos + 49..pos + 49 + plen]);
        assert(payload@ =~= s.subrange(49, 49 + plen));
        let record = EventRecord { program_id, sequence, discriminant, schema_version, payload };
        Some((record, 49 + plen))
    }
}

} // verus!
