//! Decoding records into readable events, and rendering them as text.

use crate::bytes::{le_value, lemma_pow256_values, read_le};
use crate::event::{EventRecord, RecordModel};
use crate::text::{
    decimal, hex_bytes, hex_encode, hex_of, push_char, push_decimal, push_hex_padded4,
    zero_padded,
};
use vstd::prelude::*;
use vstd::utf8::{decode_utf8, valid_utf8};

verus! {

/// A fully decoded event with human-readable fields.
#[derive(Debug)]
pub struct DecodedEvent {
    /// `"0x"` and the lowercase hex of the 32-byte program id.
    pub program_id: String,
    /// The schema's name, or `"Unknown(0x{discriminant:04x})"` when no schema matches.
    pub event_name: String,
    pub sequence: u32,
    pub schema_version: u8,
    pub discriminant: u64,
    /// Decoded field name and value pairs (empty for unknown events).
    pub fields: Vec<(String, String)>,
    /// Always present: the lowercase hex of the raw payload bytes.
    pub raw_payload_hex: String,
    /// `true` when the event came from a transaction that ultimately failed.
    pub from_failed_tx: bool,
}

/// Description of one event variant so the decoder can name fields.
pub struct EventSchema {
    pub discriminant: u64,
    pub name: String,
    pub fields: Vec<(String, FieldType)>,
}

/// Borsh-compatible primitive types that can appear in event payloads.
#[derive(Debug, Clone, Copy, PartialEq, Eq)]
pub enum FieldType {
    U8,
    U32,
    U64,
    U128,
    Bool,
    /// 32-byte array rendered as `"0x{hex}"`.
    Bytes32,
    /// Variable-length byte slice rendered as `"0x{hex}"`.
    VecU8,
    String,
}

/// What `String::from_utf8_lossy` makes of `bytes`.
pub uninterp spec fn utf8_lossy(bytes: Seq<u8>) -> Seq<char>;

/// `String::from_utf8_lossy` of std, made owned. Where `bytes` are valid
/// UTF-8 the documentation promises their decoding; invalid sequences are
/// replaced, which this contract leaves to the name `utf8_lossy`.
#[verifier::external_body]
fn string_from_utf8_lossy(bytes: &[u8]) -> (s: String)
    ensures
        s@ == utf8_lossy(bytes@),
        valid_utf8(bytes@) ==> s@ == decode_utf8(bytes@),
{
    String::from_utf8_lossy(bytes).into_owned()
}

/// The little-endian number of `n` bytes at `pos`.
pub open spec fn le_at(p: Seq<u8>, pos: nat, n: nat) -> nat {
    le_value(p.subrange(pos as int, (pos + n) as int))
}

/// The text of a field of type `ft` read at `pos` of payload `p`, and the
/// position after it; `None` where the payload ends too soon.
pub open spec fn field_text(p: Seq<u8>, pos: nat, ft: FieldType) -> Option<(Seq<char>, nat)> {
    match ft {
        FieldType::U8 => if pos + 1 <= p.len() {
            Some((decimal(p[pos as int] as nat), pos + 1))
        } else {
            None
        },
        FieldType::Bool => if pos + 1 <= p.len() {
            Some(
                (
                    if p[pos as int] != 0 {
                        "true"@
                    } else {
                        "false"@
                    },
                    pos + 1,
                ),
            )
        } else {
            None
        },
        FieldType::U32 => if pos + 4 <= p.len() {
            Some((decimal(le_at(p, pos, 4)), pos + 4))
        } else {
            None
        },
        FieldType::U64 => if pos + 8 <= p.len() {
            Some((decimal(le_at(p, pos, 8)), pos + 8))
        } else {
            None
        },
        FieldType::U128 => if pos + 16 <= p.len() {
            Some((decimal(le_at(p, pos, 16)), pos + 16))
        } else {
            None
        },
        FieldType::Bytes32 => if pos + 32 <= p.len() {
            Some((seq!['0', 'x'] + hex_bytes(p.subrange(pos as int, (pos + 32) as int)), pos + 32))
        } else {
            None
        },
        FieldType::VecU8 => if pos + 4 <= p.len() && pos + 4 + le_at(p, pos, 4) <= p.len() {
            let end = pos + 4 + le_at(p, pos, 4);
            Some((seq!['0', 'x'] + hex_bytes(p.subrange((pos + 4) as int, end as int)), end))
        } else {
            None
        },
        FieldType::String => if pos + 4 <= p.len() && pos + 4 + le_at(p, pos, 4) <= p.len() {
            let end = pos + 4 + le_at(p, pos, 4);
            Some((utf8_lossy(p.subrange((pos + 4) as int, end as int)), end))
        } else {
            None
        },
    }
}

/// The named field texts that decoding `fields` from `pos` on gives: one per
/// field, up to the first field that the payload is too short for.
pub open spec fn decoded_fields(p: Seq<u8>, pos: nat, fields: Seq<(String, FieldType)>) -> Seq<
    (Seq<char>, Seq<char>),
>
    decreases fields.len(),
{
    if fields.len() == 0 {
        Seq::empty()
    } else {
        match field_text(p, pos, fields[0].1) {
            None => Seq::empty(),
            Some((t, q)) => seq![(fields[0].0@, t)] + decoded_fields(p, q, fields.drop_first()),
        }
    }
}

/// The texts of name and value pairs.
pub open spec fn pairs_view(v: Seq<(String, String)>) -> Seq<(Seq<char>, Seq<char>)> {
    v.map_values(|x: (String, String)| (x.0@, x.1@))
}

/// The first schema for discriminant `d`, if any.
pub open spec fn schema_for(schemas: Seq<EventSchema>, d: u64) -> Option<EventSchema>
    decreases schemas.len(),
{
    if schemas.len() == 0 {
        None
    } else if schemas[0].discriminant == d {
        Some(schemas[0])
    } else {
        schema_for(schemas.drop_first(), d)
    }
}

/// The name that the decoder gives to events with discriminant `d`.
pub open spec fn decoded_name(schemas: Seq<EventSchema>, d: u64) -> Seq<char> {
    match schema_for(schemas, d) {
        None => unknown_name(d),
        Some(schema) => schema.name@,
    }
}

/// The named field texts that the decoder gives for record `r`.
pub open spec fn decoded_pairs(schemas: Seq<EventSchema>, r: RecordModel) -> Seq<
    (Seq<char>, Seq<char>),
> {
    match schema_for(schemas, r.discriminant) {
        None => Seq::empty(),
        Some(schema) => decoded_fields(r.payload, 0, schema.fields@),
    }
}

/// `d` is what decoding record `r` with `schemas` gives, the failure mark aside.
pub open spec fn decodes(d: DecodedEvent, r: RecordModel, schemas: Seq<EventSchema>) -> bool {
    &&& d.program_id@ == seq!['0', 'x'] + hex_bytes(r.program_id)
    &&& d.event_name@ == decoded_name(schemas, r.discriminant)
    &&& d.sequence == r.sequence
    &&& d.schema_version == r.schema_version
    &&& d.discriminant == r.discriminant
    &&& pairs_view(d.fields@) == decoded_pairs(schemas, r)
    &&& d.raw_payload_hex@ == hex_bytes(r.payload)
}

/// The name that an event without a schema is shown by.
pub open spec fn unknown_name(d: u64) -> Seq<char> {
    "Unknown(0x"@ + zero_padded(hex_of(d as nat), 4) + ")"@
}

fn decimal_string(v: u128) -> (s: String)
    ensures
        s@ == decimal(v as nat),
{
    let mut s = String::new();
    push_decimal(&mut s, v);
    assert(s@ =~= decimal(v as nat));
    s
}

/// `"0x"` followed by the lowercase hex of `bytes`.
fn prefixed_hex(bytes: &[u8]) -> (s: String)
    ensures
        s@ == seq!['0', 'x'] + hex_bytes(bytes@),
{
    let mut s = String::from_str("0x");
    let h = hex_encode(bytes);
    s.append(h.as_str());
    proof {
        reveal_strlit("0x");
    }
    assert(s@ =~= seq!['0', 'x'] + hex_bytes(bytes@));
    s
}

fn read_field(payload: &[u8], pos: usize, ft: FieldType) -> (r: Option<(String, usize)>)
    requires
        pos <= payload@.len(),
    ensures
        match field_text(payload@, pos as nat, ft) {
            None => r is None,
            Some((t, q)) => r matches Some((s, k)) && s@ == t && k == q,
        },
{
    let len = payload.len();
    let avail = len - pos;
    proof {
        lemma_pow256_values();
    }
    match ft {
        FieldType::U8 => {
            if avail < 1 {
                return None;
            }
            Some((decimal_string(payload[pos] as u128), pos + 1))
        },
        FieldType::Bool => {
            if avail < 1 {
                return None;
            }
            if payload[pos] != 0 {
                Some((String::from_str("true"), pos + 1))
            } else {
                Some((String::from_str("false"), pos + 1))
            }
        },
        FieldType::U32 => {
            if avail < 4 {
                return None;
            }
            let v = read_le(payload, pos, 4);
            assert(payload@.subrange(pos as int, pos + 4) == payload@.subrange(
                pos as int,
                (pos + 4) as int,
            ));
            Some((decimal_string(v), pos + 4))
        },
        FieldType::U64 => {
            if avail < 8 {
                return None;
            }
            let v = read_le(payload, pos, 8);
            assert(payload@.subrange(pos as int, pos + 8) == payload@.subrange(
                pos as int,
                (pos + 8) as int,
            ));
            Some((decimal_string(v), pos + 8))
        },
        FieldType::U128 => {
            if avail < 16 {
                return None;
            }
            let v = read_le(payload, pos, 16);
            assert(payload@.subrange(pos as int, pos + 16) == payload@.subrange(
                pos as int,
                (pos + 16) as int,
            ));
            Some((decimal_string(v), pos + 16))
        },
        FieldType::Bytes32 => {
            if avail < 32 {
                return None;
            }
            Some((prefixed_hex(&payload[pos..pos + 32]), pos + 32))
        },
        FieldType::VecU8 => {
            if avail < 4 {
                return None;
            }
            let n = read_le(payload, pos, 4) as usize;
            if avail - 4 < n {
                return None;
            }
            Some((prefixed_hex(&payload[pos + 4..pos + 4 + n]), pos + 4 + n))
        },
        FieldType::String => {
            if avail < 4 {
                return None;
            }
            let n = read_le(payload, pos, 4) as usize;
            if avail - 4 < n {
                return None;
            }
            let s = string_from_utf8_lossy(&payload[pos + 4..pos + 4 + n]);
            Some((s, pos + 4 + n))
        },
    }
}

/// Decodes the payload field by field according to `schema_fields`; the
/// first field that the payload is too short for ends the decoding, and the
/// fields decoded so far are returned.
fn decode_fields(payload: &[u8], schema_fields: &Vec<(String, FieldType)>) -> (out: Vec<
    (String, String),
>)
    ensures
        pairs_view(out@) == decoded_fields(payload@, 0, schema_fields@),
{
    let mut out: Vec<(String, String)> = Vec::new();
    let mut pos: usize = 0;
    let mut i: usize = 0;
    let n = schema_fields.len();
    let ghost fs = schema_fields@;
    assert(fs.skip(0) =~= fs);
    assert(pairs_view(out@) =~= Seq::<(Seq<char>, Seq<char>)>::empty());
    while i < n
        invariant
            i <= n,
            n == fs.len(),
            fs == schema_fields@,
            pos <= payload@.len(),
            decoded_fields(payload@, 0, fs) == pairs_view(out@) + decoded_fields(
                payload@,
                pos as nat,
                fs.skip(i as int),
            ),
        decreases n - i,
    {
        let entry = &schema_fields[i];
        let ghost rest = fs.skip(i as int);
        assert(rest[0] == fs[i as int]);
        assert(rest.drop_first() =~= fs.skip(i + 1));
        match read_field(payload, pos, entry.1) {
            None => {
                assert(pairs_view(out@) + Seq::<(Seq<char>, Seq<char>)>::empty() =~= pairs_view(
                    out@,
                ));
                return out;
            },
            Some((value, next)) => {
                let ghost before = pairs_view(out@);
                let name = entry.0.clone();
                out.push((name, value));
                assert(pairs_view(out@) =~= before.push((fs[i as int].0@, value@)));
                assert(before + decoded_fields(payload@, pos as nat, rest) =~= pairs_view(out@)
                    + decoded_fields(payload@, next as nat, fs.skip(i + 1)));
                pos = next;
            },
        }
        i = i + 1;
    }
    assert(fs.skip(n as int) =~= Seq::<(String, FieldType)>::empty());
    assert(pairs_view(out@) + Seq::<(Seq<char>, Seq<char>)>::empty() =~= pairs_view(out@));
    out
}

/// Decode a raw [`EventRecord`] using the provided schemas.
///
/// The first schema whose discriminant matches names the event and its
/// fields; where none matches, the name is `"Unknown(0x{discriminant:04x})"`
/// and there are no fields. The raw payload hex is always present. This
/// function never panics.
pub fn decode_event(record: &EventRecord, schemas: &Vec<EventSchema>) -> (d: DecodedEvent)
    ensures
        decodes(d, record@, schemas@),
        !d.from_failed_tx,
{
    let program_id = prefixed_hex(&record.program_id);
    let raw_payload_hex = hex_encode(record.payload.as_slice());
    let mut k: usize = 0;
    let n = schemas.len();
    assert(schemas@.skip(0) =~= schemas@);
    while k < n
        invariant
            k <= n,
            n == schemas@.len(),
            program_id@ == seq!['0', 'x'] + hex_bytes(record.program_id@),
            raw_payload_hex@ == hex_bytes(record.payload@),
            schema_for(schemas@, record.discriminant) == schema_for(
                schemas@.skip(k as int),
                record.discriminant,
            ),
        decreases n - k,
    {
        assert(schemas@.skip(k as int).drop_first() =~= schemas@.skip(k + 1));
        if schemas[k].discriminant == record.discriminant {
            let schema = &schemas[k];
            let fields = decode_fields(record.payload.as_slice(), &schema.fields);
            return DecodedEvent {
                program_id,
                event_name: schema.name.clone(),
                sequence: record.sequence,
                schema_version: record.schema_version,
                discriminant: record.discriminant,
                fields,
                raw_payload_hex,
                from_failed_tx: false,
            };
        }
        k = k + 1;
    }
    let mut event_name = String::from_str("Unknown(0x");
    push_hex_padded4(&mut event_name, record.discriminant);
    event_name.append(")");
    let fields: Vec<(String, String)> = Vec::new();
    assert(pairs_view(fields@) =~= Seq::<(Seq<char>, Seq<char>)>::empty());
    DecodedEvent {
        program_id,
        event_name,
        sequence: record.sequence,
        schema_version: record.schema_version,
        discriminant: record.discriminant,
        fields,
        raw_payload_hex,
        from_failed_tx: false,
    }
}

/// The length of the longest field name.
pub open spec fn max_name_len(fields: Seq<(Seq<char>, Seq<char>)>) -> nat
    decreases fields.len(),
{
    if fields.len() == 0 {
        0
    } else if max_name_len(fields.drop_last()) >= fields.last().0.len() {
        max_name_len(fields.drop_last())
    } else {
        fields.last().0.len()
    }
}

pub proof fn lemma_max_name_len(fields: Seq<(Seq<char>, Seq<char>)>)
    ensures
        forall|i: int| 0 <= i < fields.len() ==> #[trigger] fields[i].0.len() <= max_name_len(fields),
    decreases fields.len(),
{
    if fields.len() > 0 {
        lemma_max_name_len(fields.drop_last());
        assert(forall|i: int| 0 <= i < fields.len() - 1 ==> fields[i] == fields.drop_last()[i]);
    }
}

/// `n` spaces.
pub open spec fn spaces(n: nat) -> Seq<char> {
    Seq::new(n, |i: int| ' ')
}

/// The line that shows field `f` when names take `width` characters:
/// `"  name:"`, padded with spaces so that the values line up one column after
/// the longest name's colon, then one space, the value and a line break.
pub open spec fn field_line(f: (Seq<char>, Seq<char>), width: nat) -> Seq<char> {
    "  "@ + f.0 + ":"@ + spaces((width - f.0.len()) as nat) + " "@ + f.1 + "\n"@
}

/// The lines that show decoded fields, one per field, values aligned after
/// names padded to `width`.
pub open spec fn field_lines(fields: Seq<(Seq<char>, Seq<char>)>, width: nat) -> Seq<char>
    decreases fields.len(),
{
    if fields.len() == 0 {
        Seq::empty()
    } else {
        field_lines(fields.drop_last(), width) + field_line(fields.last(), width)
    }
}

/// The terminal text of a decoded event.
pub open spec fn display_text(d: DecodedEvent) -> Seq<char> {
    "[seq="@ + decimal(d.sequence as nat) + "] "@ + d.event_name@ + (if d.from_failed_tx {
        "  [FAILED TX]"@
    } else {
        Seq::empty()
    }) + "  (program: "@ + d.program_id@ + ")\n"@ + (if d.fields@.len() == 0 {
        "  raw: "@ + d.raw_payload_hex@ + "\n"@
    } else {
        field_lines(pairs_view(d.fields@), max_name_len(pairs_view(d.fields@)))
    })
}

/// Renders a [`DecodedEvent`] as a human-readable, terminal-friendly string:
/// a header line with the sequence number, the name, a `[FAILED TX]` mark for
/// events of failed transactions and the program id, then one line per field
/// with the values lined up in one column after the longest name, or the raw
/// payload hex where there are no fields.
///
/// ```text
/// [seq=0] InsufficientFunds  [FAILED TX]  (program: 0xabcd...1234)
///   account:   0xdeadbeef...cafebabe
///   requested: 1000000
///   available: 500
/// ```
pub fn to_display(decoded: &DecodedEvent) -> (s: String)
    ensures
        s@ == display_text(*decoded),
{
    let mut out = String::from_str("[seq=");
    push_decimal(&mut out, decoded.sequence as u128);
    out.append("] ");
    out.append(decoded.event_name.as_str());
    if decoded.from_failed_tx {
        out.append("  [FAILED TX]");
    }
    out.append("  (program: ");
    out.append(decoded.program_id.as_str());
    out.append(")\n");
    let ghost header = out@;
    if decoded.fields.len() == 0 {
        out.append("  raw: ");
        out.append(decoded.raw_payload_hex.as_str());
        out.append("\n");
    } else {
        let n = decoded.fields.len();
        let ghost fv = pairs_view(decoded.fields@);
        let mut width: usize = 0;
        let mut j: usize = 0;
        assert(fv.subrange(0, 0) =~= Seq::<(Seq<char>, Seq<char>)>::empty());
        while j < n
            invariant
                j <= n,
                n == decoded.fields@.len(),
                fv == pairs_view(decoded.fields@),
                width == max_name_len(fv.subrange(0, j as int)),
            decreases n - j,
        {
            let l = decoded.fields[j].0.as_str().unicode_len();
            assert(fv.subrange(0, j + 1).drop_last() =~= fv.subrange(0, j as int));
            assert(fv.subrange(0, j + 1).last() == fv[j as int]);
            if l > width {
                width = l;
            }
            j = j + 1;
        }
        assert(fv.subrange(0, n as int) =~= fv);
        proof {
            lemma_max_name_len(fv);
        }
        let mut i: usize = 0;
        assert(header + field_lines(fv.subrange(0, 0), width as nat) =~= header);
        while i < n
            invariant
                i <= n,
                n == decoded.fields@.len(),
                fv == pairs_view(decoded.fields@),
                width == max_name_len(fv),
                forall|k: int| 0 <= k < fv.len() ==> #[trigger] fv[k].0.len() <= width,
                out@ == header + field_lines(fv.subrange(0, i as int), width as nat),
            decreases n - i,
        {
            let entry = &decoded.fields[i];
            let ghost before = out@;
            let l = entry.0.as_str().unicode_len();
            assert(fv[i as int].0.len() <= width);
            out.append("  ");
            out.append(entry.0.as_str());
            out.append(":");
            let pad = width - l;
            let ghost padded = out@;
            let mut k: usize = 0;
            while k < pad
                invariant
                    k <= pad,
                    out@ == padded + spaces(k as nat),
                decreases pad - k,
            {
                push_char(&mut out, ' ');
                assert(spaces((k + 1) as nat) =~= spaces(k as nat).push(' '));
                k = k + 1;
            }
            out.append(" ");
            out.append(entry.1.as_str());
            out.append("\n");
            assert(out@ =~= before + field_line(fv[i as int], width as nat));
            assert(fv.subrange(0, i + 1).drop_last() =~= fv.subrange(0, i as int));
            assert(fv.subrange(0, i + 1).last() == fv[i as int]);
            assert(out@ =~= header + field_lines(fv.subrange(0, i + 1), width as nat));
            i = i + 1;
        }
        assert(fv.subrange(0, n as int) =~= fv);
    }
    out
}

/// The terminal text of record `r` decoded with `schemas`, marked as coming
/// from a failed transaction where `failed`.
pub open spec fn event_text(r: RecordModel, schemas: Seq<EventSchema>, failed: bool) -> Seq<char> {
    "[seq="@ + decimal(r.sequence as nat) + "] "@ + decoded_name(schemas, r.discriminant) + (if failed {
        "  [FAILED TX]"@
    } else {
        Seq::empty()
    }) + "  (program: "@ + (seq!['0', 'x'] + hex_bytes(r.program_id)) + ")\n"@ + (if decoded_pairs(
        schemas,
        r,
    ).len() == 0 {
        "  raw: "@ + hex_bytes(r.payload) + "\n"@
    } else {
        field_lines(decoded_pairs(schemas, r), max_name_len(decoded_pairs(schemas, r)))
    })
}

/// The text of an event decoded from a record is the text of the record.
pub proof fn lemma_display_of_decoded(d: DecodedEvent, r: RecordModel, schemas: Seq<EventSchema>)
    requires
        decodes(d, r, schemas),
    ensures
        display_text(d) == event_text(r, schemas, d.from_failed_tx),
{
    assert(pairs_view(d.fields@).len() == d.fields@.len());
}

} // verus!
