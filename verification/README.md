# dns_resolver

A small recursive DNS server whose packet handling and resolution decisions
are verified with Verus.

- `src/dns/wire.rs`: the model of the 512-byte buffer: what a sequence of
  byte writes does to it, and what a read gives back.
- `src/dns/buffer.rs`: `BytePacketBuffer`, with checked reads and writes of
  bytes, big-endian integers and domain names (with compression pointers).
- `src/dns/name.rs`, `src/dns/text.rs`: the model of names on the wire, and
  the standard-library text conversions a reader uses.
- `src/dns/header.rs`, `question.rs`, `record.rs`, `packet.rs`: the message
  format, each type with a mathematical view and a reading and a writing
  specification.
- `src/dns/resolver.rs`: the query a resolver sends, the step it takes after
  each response, and the response the server returns.
- `src/dns/laws.rs`: what reading gives back of what was written, for
  integers, names, headers, questions, records and whole packets.
- `app/main.rs`: the UDP server around the library.
