use bytes::BytesMut;
use mio_ws::{
    decode_packets, FrameError, HandshakeReply, HandshakeState, HostInfo, WsClient, WsProtocol,
};
use tungstenite::protocol::frame::coding::{Data as TData, OpCode as TOpCode};
use tungstenite::protocol::frame::FrameHeader;

fn host(path: &str) -> HostInfo {
    HostInfo {
        protocol: WsProtocol::Ws,
        domain: "127.0.0.1".to_string(),
        ip: "127.0.0.1".to_string(),
        port: 80,
        path: path.to_string(),
    }
}

fn client() -> WsClient {
    WsClient::new(7, host("/chat"))
}

/// An unmasked text frame as tungstenite writes it.
fn text_frame(payload: &[u8]) -> Vec<u8> {
    let header = FrameHeader { opcode: TOpCode::Data(TData::Text), ..FrameHeader::default() };
    let mut out = Vec::new();
    header.format(payload.len() as u64, &mut out).unwrap();
    out.extend_from_slice(payload);
    out
}

fn decode(c: &mut WsClient) -> (Vec<String>, Result<(), FrameError>) {
    let mut messages = Vec::new();
    let res = c.encode_packets(&mut messages);
    (messages, res)
}

#[test]
fn new_client_starts_empty() {
    let c = client();
    assert_eq!(c.client_token, 7);
    assert_eq!(c.handshake_state, HandshakeState::Initial);
    assert!(c.header.is_none());
    assert_eq!(c.in_buffer.len(), 0);
    assert_eq!(c.host_info.path, "/chat");
}

#[test]
fn send_handshake_builds_the_request() {
    let mut c = client();
    let request = c.send_handshake();
    assert_eq!(c.handshake_state, HandshakeState::Initial);
    c.handshake_sent();
    assert_eq!(
        request,
        "GET /chat HTTP/1.1\r\n\
         Host: server.example.com\r\n\
         Upgrade: websocket\r\n\
         Connection: Upgrade\r\n\
         Sec-WebSocket-Key: dGhlIHNhbXBsZSBub25jZQ==\r\n\
         Origin: http://example.com\r\n\
         Sec-WebSocket-Protocol: chat, superchat\r\n\
         Sec-WebSocket-Version: 13\r\n\
         \r\n"
    );
    assert_eq!(c.handshake_state, HandshakeState::WaitingForResponse);
}

#[test]
fn push_received_appends() {
    let mut c = client();
    c.push_received(b"ab");
    c.push_received(b"");
    c.push_received(b"cd");
    assert_eq!(&c.in_buffer[..], b"abcd");
}

#[test]
fn handshake_response_no_data_and_incomplete() {
    let mut c = client();
    c.handshake_sent();
    assert!(matches!(c.read_handshake_response(), HandshakeReply::NoData));
    c.push_received(b"HTTP/1.1 101 Switching Protocols\r\nUpgrade: websocket\r\n");
    assert!(matches!(c.read_handshake_response(), HandshakeReply::Incomplete));
    assert_eq!(c.in_buffer.len(), 54);
    assert_eq!(c.handshake_state, HandshakeState::WaitingForResponse);
}

#[test]
fn handshake_response_accepted_keeps_following_bytes() {
    let mut c = client();
    c.handshake_sent();
    let response = b"HTTP/1.1 101 Switching Protocols\r\nUpgrade: websocket\r\n\r\n";
    c.push_received(response);
    let frame = text_frame(b"hi");
    c.push_received(&frame);
    match c.read_handshake_response() {
        HandshakeReply::Accepted(text) => {
            assert_eq!(text.as_bytes(), &response[..]);
        }
        other => panic!("unexpected reply {:?}", other),
    }
    assert_eq!(c.handshake_state, HandshakeState::Completed);
    assert_eq!(&c.in_buffer[..], &frame[..]);
    let (messages, res) = decode(&mut c);
    assert_eq!(res, Ok(()));
    assert_eq!(messages, vec!["hi".to_string()]);
}

#[test]
fn handshake_response_rejected() {
    let mut c = client();
    c.handshake_sent();
    c.push_received(b"HTTP/1.1 400 Bad Request\r\nX: y\r\n\r\nrest");
    match c.read_handshake_response() {
        HandshakeReply::Rejected(text) => assert_eq!(text, "HTTP/1.1 400 Bad Request\r\nX: y\r\n\r\n"),
        other => panic!("unexpected reply {:?}", other),
    }
    assert_eq!(c.handshake_state, HandshakeState::WaitingForResponse);
    assert_eq!(&c.in_buffer[..], b"rest");
}

#[test]
fn handshake_status_line_may_stand_anywhere_in_the_head() {
    let mut c = client();
    c.push_received(b"X: HTTP/1.1 101 Switching Protocols\r\n\r\n");
    assert!(matches!(c.read_handshake_response(), HandshakeReply::Accepted(_)));
    assert_eq!(c.handshake_state, HandshakeState::Completed);
}

#[test]
fn frames_are_deframed_in_order() {
    let mut c = client();
    let mut data = Vec::new();
    data.extend(text_frame(b"one"));
    data.extend(text_frame(b""));
    data.extend(text_frame("größe".as_bytes()));
    c.push_received(&data);
    let (messages, res) = decode(&mut c);
    assert_eq!(res, Ok(()));
    assert_eq!(messages, vec!["one".to_string(), String::new(), "größe".to_string()]);
    assert_eq!(c.in_buffer.len(), 0);
    assert!(c.header.is_none());
}

#[test]
fn long_frames_use_extended_lengths() {
    let mut c = client();
    let medium = vec![b'm'; 300];
    let long = vec![b'l'; 70000];
    let mut data = text_frame(&medium);
    assert_eq!(data[1], 126);
    let long_frame = text_frame(&long);
    assert_eq!(long_frame[1], 127);
    data.extend(long_frame);
    c.push_received(&data);
    let (messages, res) = decode(&mut c);
    assert_eq!(res, Ok(()));
    assert_eq!(messages.len(), 2);
    assert_eq!(messages[0].as_bytes(), &medium[..]);
    assert_eq!(messages[1].as_bytes(), &long[..]);
}

#[test]
fn partial_payload_waits_for_more_bytes() {
    let mut c = client();
    let frame = text_frame(b"hello world");
    c.push_received(&frame[..5]);
    let (messages, res) = decode(&mut c);
    assert_eq!(res, Ok(()));
    assert!(messages.is_empty());
    // The header has been read; its payload length is kept.
    assert_eq!(c.header.as_ref().map(|(_, len)| *len), Some(11));
    assert_eq!(&c.in_buffer[..], &frame[2..5]);
    c.push_received(&frame[5..]);
    let (messages, res) = decode(&mut c);
    assert_eq!(res, Ok(()));
    assert_eq!(messages, vec!["hello world".to_string()]);
    assert!(c.header.is_none());
    assert_eq!(c.in_buffer.len(), 0);
}

#[test]
fn partial_header_waits_for_more_bytes() {
    let mut c = client();
    let frame = text_frame(&vec![b'x'; 200]);
    c.push_received(&frame[..3]);
    let (messages, res) = decode(&mut c);
    assert_eq!(res, Ok(()));
    assert!(messages.is_empty());
    assert!(c.header.is_none());
    assert_eq!(&c.in_buffer[..], &frame[..3]);
    c.push_received(&frame[3..]);
    let (messages, _) = decode(&mut c);
    assert_eq!(messages.len(), 1);
}

#[test]
fn a_single_byte_is_left_for_later() {
    let mut c = client();
    c.push_received(&[0x81]);
    let (messages, res) = decode(&mut c);
    assert_eq!(res, Ok(()));
    assert!(messages.is_empty());
    assert_eq!(&c.in_buffer[..], &[0x81]);
}

#[test]
fn short_pending_payload_waits_for_two_bytes() {
    // A one-byte payload whose header arrived alone: with a single byte
    // buffered the loop does not run, so it is delivered only once a
    // second byte is there.
    let mut c = client();
    c.push_received(&[0x81, 0x01]);
    let (messages, _) = decode(&mut c);
    assert!(messages.is_empty());
    c.push_received(b"X");
    let (messages, _) = decode(&mut c);
    assert!(messages.is_empty());
    c.push_received(&[0x81]);
    let (messages, _) = decode(&mut c);
    assert_eq!(messages, vec!["X".to_string()]);
    assert_eq!(&c.in_buffer[..], &[0x81]);
}

#[test]
fn reserved_opcode_is_refused() {
    let mut c = client();
    let mut data = text_frame(b"ok");
    data.extend_from_slice(&[0x83, 0x00, 0x81, 0x00]);
    c.push_received(&data);
    let (messages, res) = decode(&mut c);
    assert_eq!(messages, vec!["ok".to_string()]);
    assert_eq!(res, Err(FrameError::InvalidOpcode(3)));
    assert_eq!(&c.in_buffer[..], &[0x83, 0x00, 0x81, 0x00]);

    let mut c = client();
    c.push_received(&[0x0F, 0x00]);
    let (_, res) = decode(&mut c);
    assert_eq!(res, Err(FrameError::InvalidOpcode(15)));
}

#[test]
fn masked_payload_is_handed_on_as_received() {
    let mut c = client();
    // Masked frame: mask bit set, four mask bytes, payload not unmasked.
    c.push_received(&[0x81, 0x82, 1, 2, 3, 4, b'a', b'b']);
    let (messages, res) = decode(&mut c);
    assert_eq!(res, Ok(()));
    assert_eq!(messages, vec!["ab".to_string()]);
}

#[test]
fn invalid_utf8_payload_is_replaced() {
    let mut c = client();
    c.push_received(&text_frame(&[b'a', 0xFF, b'b']));
    let (messages, _) = decode(&mut c);
    assert_eq!(messages, vec!["a\u{FFFD}b".to_string()]);
}

#[test]
fn decode_packets_splits_length_prefixed_packets() {
    let mut buf = BytesMut::new();
    buf.extend_from_slice(&[0, 3, b'a', b'b', b'c', 0, 0, 1, 0]);
    buf.extend_from_slice(&vec![b'z'; 256]);
    buf.extend_from_slice(&[0, 5, b'x']);
    let payloads = decode_packets(&mut buf);
    assert_eq!(payloads.len(), 3);
    assert_eq!(&payloads[0][..], b"abc");
    assert_eq!(&payloads[1][..], b"");
    assert_eq!(&payloads[2][..], &vec![b'z'; 256][..]);
    assert_eq!(&buf[..], &[0, 5, b'x']);

    let mut short = BytesMut::new();
    short.extend_from_slice(&[7]);
    assert!(decode_packets(&mut short).is_empty());
    assert_eq!(&short[..], &[7]);
}

#[test]
fn buffered_len_and_handshake_due() {
    let mut c = client();
    assert_eq!(c.buffered_len(), 0);
    assert!(c.handshake_due());
    c.push_received(b"xyz");
    assert_eq!(c.buffered_len(), 3);
    c.handshake_sent();
    assert!(!c.handshake_due());
}

#[test]
fn handshake_is_due_only_once() {
    let mut c = client();
    assert!(c.handshake_due());
    c.handshake_sent();
    assert!(!c.handshake_due());
    c.push_received(b"HTTP/1.1 400 Bad Request\r\n\r\n");
    let _ = c.read_handshake_response();
    assert!(!c.handshake_due());
    let _ = decode(&mut c);
    assert!(!c.handshake_due());
}
