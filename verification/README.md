# protofish2

Protofish2 is a QUIC-based transfer protocol: each transfer has a reliable
stream (ordered delivery, gaps reported by NACK and filled by retransmission)
and an unreliable stream (chunks as they arrive), with credit-based
backpressure and optional payload compression.

## Layout

- `src/` — the library, verified with Verus:
  - `wire.rs`: big-endian integer encodings and byte-level readers/writers;
  - `datagram/packet.rs`: the datagram header and the fragmentation header,
    with round-trip proofs;
  - `datagram/router.rs`: the bounded, time-limited buffer for packets of
    streams that are not registered yet;
  - `connection/`: control-stream messages, their wire format and the
    parse/serialize round trip;
  - `mani/transfer/assembler.rs`: the reorder window of a reliable stream;
  - `mani/transfer/recv.rs`: credit coordination between the two sinks and
    the reliable stream's per-packet step;
  - `mani/transfer/compression.rs`: fragment regrouping and credit batching;
  - `mani/transfer/send.rs`: sequence numbering and the retransmission buffer;
  - `mani/transfer/backpressure.rs`: the credit check that gates sending;
  - `opus_stream.rs`: the audio frames of an Ogg/Opus file (read with the
    `ogg` crate) and their timestamps;
  - `cert_chain.rs`: the certificate chain in PEM text (read with
    `rustls-pemfile`).
- `app/` — the async runtime around the library (tokio channels, QUIC
  datagrams through quinn, the length-delimited control-stream codec) and the
  audio demo's command line, certificates and audio output.
- `tests/` — tests of the library on concrete values.
