# source2_demo

Bit-level codecs and rewriting for Source 2 demo files, written in Verus
and proved against their contracts.

## Layout

- `src/bits.rs`: the model of a bit stream (a `Seq<bool>`, lowest bit of
  each byte first) and of a reading position.
- `src/writer.rs`, `src/reader.rs`, `src/varint.rs`: the bit writer, the
  bit reader over a byte slice, and the varint, zig-zag and `ubit var`
  encodings; `src/roundtrip.rs` proves that each read gives back what the
  matching write wrote.
- `src/message.rs`: outer demo message framing, plain and Snappy-compressed,
  and its round trip.
- `src/entry.rs`, `src/string_table.rs`: string table entry updates and the
  packed string table format: decoding with prefix-compressed keys,
  encoding with every key in full.
- `src/rewrite.rs`, `src/table_update.rs`: rewriting entries, both by
  re-encoding and by splicing new values into the bits as read, and the
  demo messages that carry string tables.
- `src/table_laws.rs`, `src/locality.rs`, `src/preserve_laws.rs`: what
  decoding gives back of encoded and of spliced entries.
- `src/packet.rs`: the inner messages of a packet and message rewrite
  outcomes; `src/packet_rewrite.rs`: rewriting a packet's messages with
  packet rewriters.
- `src/demo_run.rs`: what a demo rewrite does with each outer message,
  and the file info offset it records.
- `src/entity_splice.rs`: writing new entity field values in place of the
  bits they were read from.
- `src/field_path.rs`, `src/field_type.rs`, `src/codec.rs`: entity field
  paths, field type names, and the Huffman code of field path operations
  with its eight-bit decode table.
- `src/text.rs`, `src/type_utils.rs`, `src/observer.rs`: text helpers, the
  recognition of observer parameter types by their token text, and name
  patterns.
- `src/compression.rs`: the Snappy calls, through the `snap` crate.
- `app/lib.rs`: helpers generic over `prost::Message`.
