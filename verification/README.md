# mzquic

A small QUIC transport, verified with Verus.

- `src/` — the library: variable-length integers (`varint`), identifiers
  (`common`), error codes (`error`), frame and packet codecs (`frame`,
  `packet`), range sets, stream state machines and the connection
  (`connection`), the test programs' event handlers (`programs`) and the
  text values are shown with (`text`). Byte buffers come from the `bytes`
  crate through the trusted items of `buf`.
- `tests/` — tests of the library.
- `app/` — the client and server programs: command line, UDP sockets,
  timers, the per-connection loop, logging and files.

Run the server with `mzquic server ADDR PROGRAM`, the client with
`mzquic client ADDR PROGRAM`, where PROGRAM is `ping-pong`,
`ping-pong-stop`, `stream-echo` or `file-transfer`.

## Scope

The connection accepts and sends packets, tracks what it sent, estimates
the round-trip time, and works out when a sent packet counts as lost, by
time and by packet count. What happens to a packet once it is declared
lost or acknowledged (taking it out of its space, the congestion response,
retransmitting its frames) is left open: the operations that would need it
are specified for the inputs on which no packet is lost or acknowledged
yet.

The properties proved of the library include: the reassembly buffer keeps
every byte it stored and adds the new ones; reads give back the stream in
order; packet headers and numbers round-trip through their encodings; the
deduplicator remembers every packet number inserted; a stream reset by the
peer and reported stays closed.
