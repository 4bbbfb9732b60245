//! A small WebSocket client library: opcode coding, URL parsing, frame
//! deframing and handshake bookkeeping, each stated and proved with Verus.

pub mod buffer;
pub mod client;
pub mod coding;
pub mod frame;
pub mod protocol;
pub mod text;
pub mod ws;

pub use client::{decode_packets, FrameError, HandshakeReply, HandshakeState, WsClient};
pub use coding::{Control, Data, OpCode};
pub use protocol::{first_ipv4, HostInfo, ResolvedAddr, WsProtocol};
pub use ws::Opcode;
