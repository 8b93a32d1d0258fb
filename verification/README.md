# lez_events

Structured events for LEZ programs, verified with Verus.

- `src/event.rs`: the event record and its wire format (the Borsh layout), with
  encoding, decoding and the round-trip lemma.
- `src/emit.rs`: the per-transaction event buffer: emitting under the payload,
  count and total-size limits, draining and clearing.
- `src/journal.rs`: the `LEZE` frame that carries drained events at the front of
  an execution journal, and the journal parser.
- `src/decoder.rs`, `src/text.rs`: decoding records with schemas into readable
  fields, and their terminal text.
- `src/cli.rs`: the decisions of the command-line decoder (hex input, program
  selection, rendering).
- `src/laws.rs`: properties that relate several operations.
- `app/`: the `lez-event-cli` program, the thread-local SDK entry points
  (`emit_event`, `drain_events`, `execute_program`, `impl_lez_event!`) and the
  copies of the types that carry Borsh, serde and thiserror derives.
