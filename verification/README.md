# mio_ws

The protocol side of a small WebSocket client, verified with Verus.

- `src/coding.rs`: frame opcodes and their byte coding, with round-trip lemmas.
- `src/ws.rs`: the opcode values as RFC 6455 lists them.
- `src/protocol.rs`: reading `ws://` and `wss://` URLs into scheme, host, port and path.
- `src/frame.rs`: the base framing header, `tungstenite`'s header parser behind a
  contract, and the deframing of a receive buffer, with round-trip and split-reception lemmas.
- `src/buffer.rs`: the receive buffer, `bytes::BytesMut`, behind contracts.
- `src/client.rs`: one connection's handshake state, request, response check and
  deframing into text messages; length-prefixed packet splitting.
- `src/text.rs`: searching character and byte sequences, decimal digits.
- `app/`: the program: sockets and TLS with `mio` and `rustls`, the handshake and
  worker threads, name resolution.
