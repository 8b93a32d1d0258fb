//! Structured events for LEZ programs: the record format, the per-transaction
//! event buffer with its limits, the framed journal transport, and the decoder
//! that turns records back into readable text.

pub mod bytes;
pub mod event;
pub mod error;
pub mod emit;
pub mod journal;
pub mod text;
pub mod decoder;
pub mod cli;
pub mod laws;

pub use cli::{
    blocks_to_scan, decode_record_hex, decode_records, display_events, filter_by_program,
    hex_decode, no_schemas, parse_program_id, records_from_journal, CliError, HexError,
};
pub use decoder::{decode_event, to_display, DecodedEvent, EventSchema, FieldType};
pub use emit::{clear_events, drain_events, emit_event, event_count, EventBuffer};
pub use error::EventError;
pub use event::{EventRecord, MAX_EVENTS_PER_TX, MAX_EVENT_PAYLOAD_BYTES, MAX_TOTAL_EVENT_BYTES};
pub use journal::{frame_events, parse_journal, ParseError, MAGIC_BYTES, WIRE_VERSION};
