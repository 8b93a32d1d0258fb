//! The wire format of an event record.

use lez_events::EventRecord;

fn make_record(sequence: u32, discriminant: u64, payload: &[u8]) -> EventRecord {
    EventRecord {
        program_id: [0u8; 32],
        sequence,
        discriminant,
        schema_version: 1,
        payload: payload.to_vec(),
    }
}

#[test]
fn same_input_produces_identical_bytes() {
    let r1 = make_record(42, 0x0001, b"hello");
    let r2 = make_record(42, 0x0001, b"hello");
    assert_eq!(
        r1.to_bytes(),
        r2.to_bytes(),
        "Borsh encoding must be deterministic"
    );
}

#[test]
fn round_trip_encode_decode() {
    let original = make_record(7, 0xDEAD, b"test payload");
    let bytes = original.to_bytes();
    let (decoded, used) = EventRecord::read_at(&bytes, 0).unwrap();
    assert_eq!(original, decoded, "round-trip must produce identical struct");
    assert_eq!(used, bytes.len());
}

#[test]
fn different_discriminant_produces_different_bytes() {
    let r1 = make_record(0, 0x0001, b"same");
    let r2 = make_record(0, 0x0002, b"same");
    assert_ne!(
        r1.to_bytes(),
        r2.to_bytes(),
        "different discriminants must produce different bytes"
    );
}

#[test]
fn field_order_matches_spec() {
    let record = EventRecord {
        program_id: [0xABu8; 32],
        sequence: 1u32,
        discriminant: 0x00000000_0000FFFFu64,
        schema_version: 1u8,
        payload: vec![0x42u8],
    };
    let bytes = record.to_bytes();

    assert_eq!(&bytes[0..32], &[0xABu8; 32]);
    assert_eq!(&bytes[32..36], &1u32.to_le_bytes());
    assert_eq!(&bytes[36..44], &0x00000000_0000FFFFu64.to_le_bytes());
    assert_eq!(bytes[44], 1u8);
    assert_eq!(&bytes[45..49], &1u32.to_le_bytes());
    assert_eq!(bytes[49], 0x42u8);
}

#[test]
fn encoding_matches_borsh() {
    let record = EventRecord {
        program_id: [0x5Au8; 32],
        sequence: 63,
        discriminant: 0x0102_0304_0506_0708,
        schema_version: 2,
        payload: vec![9, 8, 7, 6, 5],
    };
    let expected = borsh::to_vec(&(
        record.program_id,
        record.sequence,
        record.discriminant,
        record.schema_version,
        record.payload.clone(),
    ))
    .unwrap();
    assert_eq!(record.to_bytes(), expected);
    assert_eq!(record.to_bytes().len(), 49 + 5);
}

#[test]
fn read_at_refuses_short_input() {
    let record = make_record(3, 4, b"abcdef");
    let bytes = record.to_bytes();
    assert!(EventRecord::read_at(&bytes[..bytes.len() - 1], 0).is_none());
    assert!(EventRecord::read_at(&bytes[..48], 0).is_none());
}

#[test]
fn read_at_reads_at_an_offset_and_ignores_what_follows() {
    let record = make_record(3, 4, b"xyz");
    let mut bytes = vec![0xEE, 0xEE];
    bytes.extend(record.to_bytes());
    bytes.extend_from_slice(&[1, 2, 3]);
    let (decoded, used) = EventRecord::read_at(&bytes, 2).unwrap();
    assert_eq!(decoded, record);
    assert_eq!(used, 52);
}
