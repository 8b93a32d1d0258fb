//! Decoding records with schemas, and their terminal text.

use lez_events::{decode_event, to_display, EventRecord, EventSchema, FieldType};

fn record(discriminant: u64, payload: Vec<u8>) -> EventRecord {
    EventRecord {
        program_id: [0xABu8; 32],
        sequence: 3,
        discriminant,
        schema_version: 1,
        payload,
    }
}

fn schema(discriminant: u64, name: &str, fields: &[(&str, FieldType)]) -> EventSchema {
    EventSchema {
        discriminant,
        name: name.to_string(),
        fields: fields.iter().map(|(n, t)| (n.to_string(), *t)).collect(),
    }
}

#[test]
fn unknown_discriminant_is_named_with_padded_hex() {
    let ev = decode_event(&record(0x11, vec![0xDE, 0xAD]), &vec![]);
    assert_eq!(ev.event_name, "Unknown(0x0011)");
    assert!(ev.fields.is_empty());
    assert_eq!(ev.raw_payload_hex, "dead");
    assert_eq!(ev.program_id, format!("0x{}", "ab".repeat(32)));
    assert_eq!(ev.sequence, 3);
    assert_eq!(ev.schema_version, 1);

    let wide = decode_event(&record(0x12345, vec![]), &vec![]);
    assert_eq!(wide.event_name, "Unknown(0x12345)");
    let zero = decode_event(&record(0, vec![]), &vec![]);
    assert_eq!(zero.event_name, "Unknown(0x0000)");
}

#[test]
fn every_field_type_decodes() {
    let mut payload = vec![7u8];
    payload.push(1);
    payload.extend_from_slice(&70000u32.to_le_bytes());
    payload.extend_from_slice(&u64::MAX.to_le_bytes());
    payload.extend_from_slice(&u128::MAX.to_le_bytes());
    payload.extend_from_slice(&[0x11u8; 32]);
    payload.extend(borsh::to_vec(&vec![0xCAu8, 0xFE]).unwrap());
    payload.extend(borsh::to_vec(&"héllo".to_string()).unwrap());
    let s = schema(
        0x42,
        "Everything",
        &[
            ("a", FieldType::U8),
            ("b", FieldType::Bool),
            ("c", FieldType::U32),
            ("d", FieldType::U64),
            ("e", FieldType::U128),
            ("f", FieldType::Bytes32),
            ("g", FieldType::VecU8),
            ("h", FieldType::String),
        ],
    );
    let ev = decode_event(&record(0x42, payload), &vec![s]);
    assert_eq!(ev.event_name, "Everything");
    let values: Vec<(&str, &str)> = ev.fields.iter().map(|(n, v)| (n.as_str(), v.as_str())).collect();
    assert_eq!(
        values,
        vec![
            ("a", "7"),
            ("b", "true"),
            ("c", "70000"),
            ("d", "18446744073709551615"),
            ("e", "340282366920938463463374607431768211455"),
            ("f", format!("0x{}", "11".repeat(32)).as_str()),
            ("g", "0xcafe"),
            ("h", "héllo"),
        ]
    );
}

#[test]
fn decoding_stops_at_the_first_field_that_does_not_fit() {
    let s = schema(
        1,
        "Short",
        &[("x", FieldType::U32), ("y", FieldType::U64), ("z", FieldType::Bool)],
    );
    let mut payload = 5u32.to_le_bytes().to_vec();
    payload.extend_from_slice(&[1, 2, 3]);
    let ev = decode_event(&record(1, payload), &vec![s]);
    assert_eq!(ev.fields, vec![("x".to_string(), "5".to_string())]);
}

#[test]
fn first_matching_schema_wins_and_bool_zero_is_false() {
    let first = schema(9, "First", &[("flag", FieldType::Bool)]);
    let second = schema(9, "Second", &[]);
    let other = schema(8, "Other", &[]);
    let ev = decode_event(&record(9, vec![0]), &vec![other, first, second]);
    assert_eq!(ev.event_name, "First");
    assert_eq!(ev.fields, vec![("flag".to_string(), "false".to_string())]);
}

#[test]
fn invalid_utf8_is_replaced() {
    let s = schema(2, "Text", &[("t", FieldType::String)]);
    let payload = borsh::to_vec(&vec![0x61u8, 0xFF, 0x62]).unwrap();
    let ev = decode_event(&record(2, payload), &vec![s]);
    assert_eq!(ev.fields[0].1, "a\u{FFFD}b");
}

#[test]
fn display_of_unknown_event_shows_raw_payload() {
    let mut ev = decode_event(&record(0x11, vec![1, 2]), &vec![]);
    ev.from_failed_tx = true;
    let pid = format!("0x{}", "ab".repeat(32));
    assert_eq!(
        to_display(&ev),
        format!("[seq=3] Unknown(0x0011)  [FAILED TX]  (program: {pid})\n  raw: 0102\n")
    );
}

#[test]
fn display_of_known_event_lists_fields() {
    let s = schema(
        0x11,
        "InsufficientFunds",
        &[("requested", FieldType::U64), ("available", FieldType::U64)],
    );
    let payload = borsh::to_vec(&(1_000_000u64, 500u64)).unwrap();
    let ev = decode_event(&record(0x11, payload), &vec![s]);
    let pid = format!("0x{}", "ab".repeat(32));
    assert_eq!(
        to_display(&ev),
        format!("[seq=3] InsufficientFunds  (program: {pid})\n  requested: 1000000\n  available: 500\n")
    );
}

#[test]
fn display_aligns_field_values_in_one_column() {
    let d = lez_events::DecodedEvent {
        program_id: "0xabcd...1234".into(),
        event_name: "InsufficientFunds".into(),
        sequence: 0,
        schema_version: 1,
        discriminant: 0x11,
        fields: vec![
            ("account".into(), "0xdeadbeef...cafebabe".into()),
            ("requested".into(), "1000000".into()),
            ("available".into(), "500".into()),
        ],
        raw_payload_hex: String::new(),
        from_failed_tx: true,
    };
    assert_eq!(
        to_display(&d),
        "[seq=0] InsufficientFunds  [FAILED TX]  (program: 0xabcd...1234)\n  account:   0xdeadbeef...cafebabe\n  requested: 1000000\n  available: 500\n"
    );
}

#[test]
fn display_pads_by_characters_not_bytes() {
    let d = lez_events::DecodedEvent {
        program_id: "0x00".into(),
        event_name: "E".into(),
        sequence: 1,
        schema_version: 1,
        discriminant: 1,
        fields: vec![("é".into(), "1".into()), ("abc".into(), "2".into())],
        raw_payload_hex: String::new(),
        from_failed_tx: false,
    };
    assert_eq!(
        to_display(&d),
        "[seq=1] E  (program: 0x00)\n  é:   1\n  abc: 2\n"
    );
}
