//! The protocol side of one WebSocket client connection: the opening
//! handshake, the receive buffer, and the deframing of what arrives into
//! text messages. The connection's socket stays with the caller, who sends
//! what this returns and hands over what it reads.

use vstd::prelude::*;

use tungstenite::protocol::frame::FrameHeader;

use crate::buffer::{
    buffer_advance, buffer_bytes, buffer_extend, buffer_len, buffer_split_to, buffer_with_capacity,
    bytes_of,
};
use crate::frame::{deframe, deframe_payload, lossy_string, parse_frame_header, utf8_lossy};
use crate::protocol::HostInfo;
use crate::text::{chars_of, find, find_bytes, find_chars, lemma_find};

verus! {

/// Where the opening handshake of a connection stands.
#[derive(Debug, PartialEq, Eq, Clone, Copy, Structural)]
pub enum HandshakeState {
    Initial,
    WaitingForResponse,
    Completed,
    Failed,
}

/// What a frame of the receive buffer was refused for.
#[derive(Debug, PartialEq, Eq, Clone, Copy, Structural)]
pub enum FrameError {
    /// The frame header carries an opcode that RFC 6455 reserves.
    InvalidOpcode(u8),
}

/// What the receive buffer holds of the server's handshake response.
#[derive(Debug)]
pub enum HandshakeReply {
    /// Nothing has arrived.
    NoData,
    /// The response headers have not fully arrived.
    Incomplete,
    /// The response switches protocols; it is handed back as text.
    Accepted(String),
    /// The response does anything else; it is handed back as text.
    Rejected(String),
}

/// One client connection: its token, handshake state, target, the header
/// of a frame whose payload is awaited with that payload's length, and
/// the bytes received and not yet consumed.
pub struct WsClient {
    pub client_token: usize,
    pub handshake_state: HandshakeState,
    pub host_info: HostInfo,
    pub header: Option<(FrameHeader, u64)>,
    pub in_buffer: bytes::BytesMut,
}

/// The initial capacity of a connection's receive buffer.
pub const IN_BUFFER_CAPACITY: usize = 8192;

/// The payload length of an awaited frame, if any.
pub open spec fn pending_of(header: Option<(FrameHeader, u64)>) -> Option<nat> {
    match header {
        Some((_, len)) => Some(len as nat),
        None => None,
    }
}

/// The handshake request for `path`.
pub open spec fn handshake_request(path: Seq<char>) -> Seq<char> {
    "GET "@ + path + " HTTP/1.1\r\nHost: server.example.com\r\nUpgrade: websocket\r\nConnection: Upgrade\r\nSec-WebSocket-Key: dGhlIHNhbXBsZSBub25jZQ==\r\nOrigin: http://example.com\r\nSec-WebSocket-Protocol: chat, superchat\r\nSec-WebSocket-Version: 13\r\n\r\n"@
}

/// A step from `before` to `after` never makes the handshake due again:
/// the state is `Initial` afterwards only where it was before.
pub open spec fn keeps_started(before: HandshakeState, after: HandshakeState) -> bool {
    after == HandshakeState::Initial ==> before == HandshakeState::Initial
}

/// The blank line that ends the response headers.
pub open spec fn header_end_marker() -> Seq<u8> {
    seq![13u8, 10u8, 13u8, 10u8]
}

/// The status line of an accepted handshake.
pub open spec fn switching_protocols() -> Seq<char> {
    "HTTP/1.1 101 Switching Protocols"@
}

impl FrameError {
    /// The error for a frame header that `tungstenite` refused, whose first
    /// byte is `first`: the header parser refuses nothing but a reserved
    /// opcode, which is the low four bits of that byte.
    fn from_header_error(e: tungstenite::Error, first: u8) -> (err: FrameError)
        ensures
            err == FrameError::InvalidOpcode(first % 16),
    {
        FrameError::InvalidOpcode(first % 16)
    }
}

impl WsClient {
    /// A connection that has not started its handshake, with an empty
    /// receive buffer and no frame awaited.
    pub fn new(client_token: usize, host_info: HostInfo) -> (c: Self)
        ensures
            c.client_token == client_token,
            c.handshake_state == HandshakeState::Initial,
            c.host_info == host_info,
            c.header is None,
            bytes_of(c.in_buffer) == Seq::<u8>::empty(),
    {
        WsClient {
            client_token,
            handshake_state: HandshakeState::Initial,
            host_info,
            header: None,
            in_buffer: buffer_with_capacity(IN_BUFFER_CAPACITY),
        }
    }

    /// The handshake request to send for the target's path.
    pub fn send_handshake(&self) -> (request: String)
        ensures
            request@ == handshake_request(self.host_info.path@),
            request@ == "GET "@ + self.host_info.path@ + " HTTP/1.1\r\nHost: server.example.com\r\nUpgrade: websocket\r\nConnection: Upgrade\r\nSec-WebSocket-Key: dGhlIHNhbXBsZSBub25jZQ==\r\nOrigin: http://example.com\r\nSec-WebSocket-Protocol: chat, superchat\r\nSec-WebSocket-Version: 13\r\n\r\n"@,
    {
        let mut request = "GET ".to_owned();
        request.append(self.host_info.path.as_str());
        request.append(" HTTP/1.1\r\nHost: server.example.com\r\nUpgrade: websocket\r\nConnection: Upgrade\r\nSec-WebSocket-Key: dGhlIHNhbXBsZSBub25jZQ==\r\nOrigin: http://example.com\r\nSec-WebSocket-Protocol: chat, superchat\r\nSec-WebSocket-Version: 13\r\n\r\n");
        request
    }

    /// Records that the handshake request has been sent: the response is
    /// awaited from now on.
    pub fn handshake_sent(&mut self)
        ensures
            final(self).handshake_state == HandshakeState::WaitingForResponse,
            keeps_started(old(self).handshake_state, final(self).handshake_state),
            final(self).client_token == old(self).client_token,
            final(self).host_info == old(self).host_info,
            final(self).header == old(self).header,
            final(self).in_buffer == old(self).in_buffer,
    {
        self.handshake_state = HandshakeState::WaitingForResponse;
    }

    /// The number of bytes in the receive buffer.
    pub fn buffered_len(&self) -> (n: usize)
        ensures
            n == bytes_of(self.in_buffer).len(),
    {
        buffer_len(&self.in_buffer)
    }

    /// Whether the handshake request is yet to be sent: the handshake has
    /// not started.
    pub fn handshake_due(&self) -> (b: bool)
        ensures
            b == (self.handshake_state == HandshakeState::Initial),
    {
        self.handshake_state == HandshakeState::Initial
    }

    /// Appends received bytes to the receive buffer.
    pub fn push_received(&mut self, data: &[u8])
        requires
            bytes_of(old(self).in_buffer).len() + data@.len() <= isize::MAX,
        ensures
            bytes_of(final(self).in_buffer) == bytes_of(old(self).in_buffer) + data@,
            keeps_started(old(self).handshake_state, final(self).handshake_state),
            final(self).client_token == old(self).client_token,
            final(self).handshake_state == old(self).handshake_state,
            final(self).host_info == old(self).host_info,
            final(self).header == old(self).header,
    {
        buffer_extend(&mut self.in_buffer, data);
    }

    /// Deframes the receive buffer as far as it goes: the payload of each
    /// whole frame, read as UTF-8 with invalid sequences replaced, is
    /// appended to `messages` in order, and its header and payload leave the
    /// buffer. It goes on while the buffer holds two bytes or more, and
    /// stops where a header or a payload has not fully arrived; a header
    /// already read is then kept with its payload length. A header with a
    /// reserved opcode stops it with an error and stays in the buffer.
    pub fn encode_packets(&mut self, messages: &mut Vec<String>) -> (res: Result<(), FrameError>)
        ensures
            ({
                let d = deframe(pending_of(old(self).header), bytes_of(old(self).in_buffer));
                &&& final(messages)@.map_values(|m: String| m@) == old(messages)@.map_values(|m: String| m@)
                    + d.messages.map_values(|p: Seq<u8>| utf8_lossy(p))
                &&& bytes_of(final(self).in_buffer) == d.rest
                &&& pending_of(final(self).header) == d.pending
                &&& match d.error {
                    Some(code) => res == Err::<(), FrameError>(FrameError::InvalidOpcode(code)),
                    None => res is Ok,
                }
            }),
            final(self).client_token == old(self).client_token,
            final(self).handshake_state == old(self).handshake_state,
            keeps_started(old(self).handshake_state, final(self).handshake_state),
            final(self).host_info == old(self).host_info,
    {
        let ghost total = deframe(pending_of(self.header), bytes_of(self.in_buffer));
        let ghost old_msgs = messages@.map_values(|m: String| m@);
        let ghost mut acc: Seq<Seq<u8>> = Seq::empty();
        let ghost token = self.client_token;
        let ghost state = self.handshake_state;
        let ghost host = self.host_info;
        assert(total.messages =~= acc + total.messages);
        assert(messages@.map_values(|m: String| m@) =~= old_msgs + acc.map_values(|p: Seq<u8>| utf8_lossy(p)));
        let mut outcome: Result<(), FrameError> = Ok(());
        loop
            invariant_except_break
                total.messages == acc + deframe(pending_of(self.header), bytes_of(self.in_buffer)).messages,
                total.rest == deframe(pending_of(self.header), bytes_of(self.in_buffer)).rest,
                total.pending == deframe(pending_of(self.header), bytes_of(self.in_buffer)).pending,
                total.error == deframe(pending_of(self.header), bytes_of(self.in_buffer)).error,
                outcome is Ok,
            invariant
                messages@.map_values(|m: String| m@) == old_msgs + acc.map_values(|p: Seq<u8>| utf8_lossy(p)),
                self.client_token == token,
                self.handshake_state == state,
                self.host_info == host,
            ensures
                total.messages == acc,
                total.rest == bytes_of(self.in_buffer),
                total.pending == pending_of(self.header),
                match total.error {
                    Some(code) => outcome == Err::<(), FrameError>(FrameError::InvalidOpcode(code)),
                    None => outcome is Ok,
                },
            decreases 2 * bytes_of(self.in_buffer).len() + (if self.header is Some { 3int } else { 1int }),
        {
            if buffer_len(&self.in_buffer) < 2 {
                assert(total.messages =~= acc);
                break;
            }
            let ghost buf = bytes_of(self.in_buffer);
            let ghost cur = deframe(pending_of(self.header), buf);
            let len: u64;
            if self.header.is_none() {
                let first = buffer_bytes(&self.in_buffer)[0];
                let parsed = parse_frame_header(buffer_bytes(&self.in_buffer));
                match parsed {
                    Err(e) => {
                        outcome = Err(FrameError::from_header_error(e, first));
                        assert(total.messages =~= acc);
                        break;
                    },
                    Ok(None) => {
                        assert(total.messages =~= acc);
                        break;
                    },
                    Ok(Some((header, l, used))) => {
                        self.header = Some((header, l));
                        buffer_advance(&mut self.in_buffer, used);
                        len = l;
                    },
                }
            } else {
                len = match &self.header {
                    Some((_, l)) => *l,
                    None => 0,
                };
            }
            assert(cur == deframe_payload(len as nat, bytes_of(self.in_buffer)));
            if len <= buffer_len(&self.in_buffer) as u64 {
                self.header = None;
                let payload = buffer_split_to(&mut self.in_buffer, len as usize);
                let text = lossy_string(buffer_bytes(&payload));
                let ghost before = messages@;
                messages.push(text);
                proof {
                    assert(messages@.map_values(|m: String| m@) =~= before.map_values(|m: String| m@).push(text@));
                    let next = acc.push(bytes_of(payload));
                    assert(next.map_values(|p: Seq<u8>| utf8_lossy(p)) =~= acc.map_values(|p: Seq<u8>| utf8_lossy(p)).push(utf8_lossy(bytes_of(payload))));
                    assert(total.messages =~= next + deframe(pending_of(self.header), bytes_of(self.in_buffer)).messages);
                    acc = next;
                }
            } else {
                assert(total.messages =~= acc);
                break;
            }
        }
        outcome
    }

    /// Reads the server's handshake response from the receive buffer. With
    /// nothing received, or no blank line ending the headers yet, nothing
    /// changes. Otherwise the response up to and with that first blank line
    /// leaves the buffer, whatever follows stays for the frames, and the
    /// response, read as UTF-8 with invalid sequences replaced, is accepted
    /// exactly when it holds the status line `HTTP/1.1 101 Switching
    /// Protocols`; the handshake is then completed.
    pub fn read_handshake_response(&mut self) -> (reply: HandshakeReply)
        ensures
            ({
                let b = bytes_of(old(self).in_buffer);
                match find(b, header_end_marker()) {
                    None => {
                        &&& (if b.len() == 0 { reply is NoData } else { reply is Incomplete })
                        &&& *final(self) == *old(self)
                    },
                    Some(i) => {
                        let text = utf8_lossy(b.take(i + 4));
                        &&& bytes_of(final(self).in_buffer) == b.skip(i + 4)
                        &&& (if find(text, switching_protocols()) is Some {
                            &&& reply matches HandshakeReply::Accepted(s) && s@ == text
                            &&& final(self).handshake_state == HandshakeState::Completed
                        } else {
                            &&& reply matches HandshakeReply::Rejected(s) && s@ == text
                            &&& final(self).handshake_state == old(self).handshake_state
                        })
                        &&& final(self).client_token == old(self).client_token
                        &&& final(self).host_info == old(self).host_info
                        &&& final(self).header == old(self).header
                    },
                }
            }),
            keeps_started(old(self).handshake_state, final(self).handshake_state),
            ({
                let b = bytes_of(old(self).in_buffer);
                let status = "HTTP/1.1 101 Switching Protocols"@;
                find(b, seq![13u8, 10u8, 13u8, 10u8]) matches Some(i) ==> {
                    let text = utf8_lossy(b.take(i + 4));
                    (reply is Accepted) <==> exists|j: int|
                        0 <= j && j + status.len() <= text.len() && #[trigger] text.subrange(j, j + status.len()) == status
                }
            }),
    {
        let marker: Vec<u8> = vec![13u8, 10u8, 13u8, 10u8];
        assert(marker@ =~= header_end_marker());
        let found = find_bytes(buffer_bytes(&self.in_buffer), marker.as_slice());
        match found {
            None => {
                if buffer_len(&self.in_buffer) == 0 {
                    HandshakeReply::NoData
                } else {
                    HandshakeReply::Incomplete
                }
            },
            Some(i) => {
                let n = buffer_len(&self.in_buffer);
                assert(i + 4 <= n);
                let head = buffer_split_to(&mut self.in_buffer, i + 4);
                let text = lossy_string(buffer_bytes(&head));
                let text_chars = chars_of(text.as_str());
                let status = chars_of("HTTP/1.1 101 Switching Protocols");
                proof {
                    assert(header_end_marker() =~= seq![13u8, 10u8, 13u8, 10u8]);
                    lemma_find(text_chars@, status@);
                }
                if find_chars(&text_chars, &status).is_some() {
                    self.handshake_state = HandshakeState::Completed;
                    HandshakeReply::Accepted(text)
                } else {
                    HandshakeReply::Rejected(text)
                }
            },
        }
    }
}

/// The payloads of the buffer `buf` read as packets that each start with
/// a two-byte big-endian length, in order, and the bytes left once no whole
/// packet remains.
pub open spec fn length_prefixed(buf: Seq<u8>) -> (Seq<Seq<u8>>, Seq<u8>)
    decreases buf.len(),
{
    if buf.len() < 2 {
        (Seq::empty(), buf)
    } else {
        let len = buf[0] as int * 256 + buf[1] as int;
        if buf.len() < 2 + len {
            (Seq::empty(), buf)
        } else {
            let next = length_prefixed(buf.skip(2 + len));
            (seq![buf.subrange(2, 2 + len)] + next.0, next.1)
        }
    }
}

/// Splits the whole length-prefixed packets off the front of `buf`: each
/// starts with a two-byte big-endian payload length; the payloads are
/// returned in order and a partial packet stays in `buf`.
pub fn decode_packets(buf: &mut bytes::BytesMut) -> (payloads: Vec<bytes::BytesMut>)
    ensures
        payloads@.map_values(|p: bytes::BytesMut| bytes_of(p)) == length_prefixed(bytes_of(*old(buf))).0,
        bytes_of(*final(buf)) == length_prefixed(bytes_of(*old(buf))).1,
{
    let ghost total = length_prefixed(bytes_of(*buf));
    let mut payloads: Vec<bytes::BytesMut> = Vec::new();
    loop
        invariant_except_break
            total.0 == payloads@.map_values(|p: bytes::BytesMut| bytes_of(p)) + length_prefixed(bytes_of(*buf)).0,
            total.1 == length_prefixed(bytes_of(*buf)).1,
        ensures
            total.0 == payloads@.map_values(|p: bytes::BytesMut| bytes_of(p)),
            total.1 == bytes_of(*buf),
        decreases bytes_of(*buf).len(),
    {
        let n = buffer_len(buf);
        if n < 2 {
            assert(total.0 =~= payloads@.map_values(|p: bytes::BytesMut| bytes_of(p)));
            break;
        }
        let bytes = buffer_bytes(buf);
        let len = (bytes[0] as usize) * 256 + bytes[1] as usize;
        if n - 2 < len {
            assert(total.0 =~= payloads@.map_values(|p: bytes::BytesMut| bytes_of(p)));
            break;
        }
        let ghost b = bytes_of(*buf);
        buffer_advance(buf, 2);
        let payload = buffer_split_to(buf, len);
        let ghost before = payloads@;
        payloads.push(payload);
        proof {
            assert(b.skip(2).take(len as int) =~= b.subrange(2, 2 + len));
            assert(b.skip(2).skip(len as int) =~= b.skip(2 + len));
            assert(payloads@.map_values(|p: bytes::BytesMut| bytes_of(p)) =~= before.map_values(|p: bytes::BytesMut| bytes_of(p)).push(b.subrange(2, 2 + len)));
            assert(total.0 =~= payloads@.map_values(|p: bytes::BytesMut| bytes_of(p)) + length_prefixed(bytes_of(*buf)).0);
        }
    }
    payloads
}

/// A whole packet at the front of a buffer, its length written in two
/// big-endian bytes, gives back its payload first; splitting then goes on
/// with what follows it.
pub proof fn lemma_packet_roundtrip(payload: Seq<u8>, rest: Seq<u8>)
    requires
        payload.len() < 65536,
    ensures
        ({
            let packet = seq![(payload.len() / 256) as u8, (payload.len() % 256) as u8] + payload;
            let next = length_prefixed(rest);
            length_prefixed(packet + rest) == (seq![payload] + next.0, next.1)
        }),
{
    let n = payload.len();
    let b = seq![(n / 256) as u8, (n % 256) as u8] + payload + rest;
    assert(b[0] as int * 256 + b[1] as int == n);
    assert(b.subrange(2, 2 + n as int) =~= payload);
    assert(b.skip(2 + n as int) =~= rest);
    assert(b =~= seq![(n / 256) as u8, (n % 256) as u8] + payload + rest);
}

/// Once the request is recorded as sent, the handshake is never due again:
/// along any run of the connection's steps, each keeping it started, from
/// the state `handshake_sent` leaves, no state is `Initial`, so the request
/// goes out at most once.
pub proof fn lemma_request_sent_once(states: Seq<HandshakeState>)
    requires
        states.len() > 0,
        states[0] == HandshakeState::WaitingForResponse,
        forall|i: int| 0 <= i < states.len() - 1 ==> keeps_started(#[trigger] states[i], states[i + 1]),
    ensures
        forall|i: int| 0 <= i < states.len() ==> #[trigger] states[i] != HandshakeState::Initial,
    decreases states.len(),
{
    if states.len() > 1 {
        let prefix = states.drop_last();
        assert forall|i: int| 0 <= i < prefix.len() - 1 implies keeps_started(#[trigger] prefix[i], prefix[i + 1]) by {
            assert(keeps_started(states[i], states[i + 1]));
        }
        lemma_request_sent_once(prefix);
        assert forall|i: int| 0 <= i < states.len() implies #[trigger] states[i] != HandshakeState::Initial by {
            if i < states.len() - 1 {
                assert(prefix[i] != HandshakeState::Initial);
            } else {
                assert(prefix[i - 1] != HandshakeState::Initial);
                assert(keeps_started(states[i - 1], states[i]));
            }
        }
    }
}

/// The handshake request asks for the whole path: it is `GET `, then every
/// character of the path, then a space and the HTTP version, then the
/// fixed headers and the blank line that ends them.
pub proof fn lemma_request_line(path: Seq<char>)
    ensures
        handshake_request(path).subrange(0, 4) == seq!['G', 'E', 'T', ' '],
        handshake_request(path).subrange(4, 4 + path.len() as int) == path,
        handshake_request(path)[4 + path.len() as int] == ' ',
        handshake_request(path).skip(4 + path.len() as int) == " HTTP/1.1\r\nHost: server.example.com\r\nUpgrade: websocket\r\nConnection: Upgrade\r\nSec-WebSocket-Key: dGhlIHNhbXBsZSBub25jZQ==\r\nOrigin: http://example.com\r\nSec-WebSocket-Protocol: chat, superchat\r\nSec-WebSocket-Version: 13\r\n\r\n"@,
{
    reveal_strlit("GET ");
    reveal_strlit(" HTTP/1.1\r\nHost: server.example.com\r\nUpgrade: websocket\r\nConnection: Upgrade\r\nSec-WebSocket-Key: dGhlIHNhbXBsZSBub25jZQ==\r\nOrigin: http://example.com\r\nSec-WebSocket-Protocol: chat, superchat\r\nSec-WebSocket-Version: 13\r\n\r\n");
    let r = handshake_request(path);
    let get = "GET "@;
    let tail = " HTTP/1.1\r\nHost: server.example.com\r\nUpgrade: websocket\r\nConnection: Upgrade\r\nSec-WebSocket-Key: dGhlIHNhbXBsZSBub25jZQ==\r\nOrigin: http://example.com\r\nSec-WebSocket-Protocol: chat, superchat\r\nSec-WebSocket-Version: 13\r\n\r\n"@;
    assert(r =~= get + path + tail);
    assert(r.subrange(0, 4) =~= seq!['G', 'E', 'T', ' ']);
    assert(r.subrange(4, 4 + path.len() as int) =~= path);
    assert(r.skip(4 + path.len() as int) =~= tail);
}

/// A handshake response head holds the switching status line exactly when
/// the text `HTTP/1.1 101 Switching Protocols` occurs somewhere in it, and
/// the head ends at the first blank line of the buffer.
pub proof fn lemma_acceptance(b: Seq<u8>, text: Seq<char>)
    ensures
        (find(text, switching_protocols()) is Some) <==> exists|j: int|
            0 <= j && j + "HTTP/1.1 101 Switching Protocols"@.len() <= text.len()
                && #[trigger] text.subrange(j, j + "HTTP/1.1 101 Switching Protocols"@.len())
                == "HTTP/1.1 101 Switching Protocols"@,
        find(b, header_end_marker()) matches Some(i) ==> {
            &&& b.subrange(i, i + 4) == seq![13u8, 10u8, 13u8, 10u8]
            &&& forall|j: int| 0 <= j < i ==> #[trigger] b.subrange(j, j + 4) != seq![13u8, 10u8, 13u8, 10u8]
        },
        find(b, header_end_marker()) is None ==> forall|j: int|
            0 <= j && j + 4 <= b.len() ==> #[trigger] b.subrange(j, j + 4) != seq![13u8, 10u8, 13u8, 10u8],
{
    lemma_find(text, switching_protocols());
    lemma_find(b, header_end_marker());
    assert(header_end_marker() =~= seq![13u8, 10u8, 13u8, 10u8]);
}

/// A packet: its payload's length in two big-endian bytes, then the payload.
pub open spec fn packet_bytes(payload: Seq<u8>) -> Seq<u8> {
    seq![(payload.len() / 256) as u8, (payload.len() % 256) as u8] + payload
}

/// The packets of `payloads`, one after another.
pub open spec fn packets_bytes(payloads: Seq<Seq<u8>>) -> Seq<u8>
    decreases payloads.len(),
{
    if payloads.len() == 0 {
        Seq::empty()
    } else {
        packet_bytes(payloads[0]) + packets_bytes(payloads.drop_first())
    }
}

/// What splitting gives is exact: the buffer is the packets of the returned
/// payloads, each written with its own length, followed by the bytes left;
/// and what is left does not start with a whole packet. In particular a
/// buffer whose first packet is not whole gives no payload and is kept.
pub proof fn lemma_length_prefixed_sound(buf: Seq<u8>)
    ensures
        ({
            let (payloads, rest) = length_prefixed(buf);
            &&& buf == packets_bytes(payloads) + rest
            &&& forall|i: int| 0 <= i < payloads.len() ==> #[trigger] payloads[i].len() < 65536
            &&& rest.len() < 2 || rest.len() < 2 + rest[0] as int * 256 + rest[1] as int
        }),
        buf.len() < 2 || buf.len() < 2 + buf[0] as int * 256 + buf[1] as int ==> length_prefixed(buf) == (
        Seq::<Seq<u8>>::empty(), buf),
    decreases buf.len(),
{
    if buf.len() >= 2 {
        let len = buf[0] as int * 256 + buf[1] as int;
        if buf.len() >= 2 + len {
            let tail = buf.skip(2 + len);
            lemma_length_prefixed_sound(tail);
            let (ps, rest) = length_prefixed(tail);
            let p = buf.subrange(2, 2 + len);
            assert(p.len() == len);
            assert(len / 256 == buf[0] as int && len % 256 == buf[1] as int) by (nonlinear_arith)
                requires
                    len == buf[0] as int * 256 + buf[1] as int,
                    0 <= buf[1] < 256,
                    0 <= buf[0] < 256,
            ;
            assert(packet_bytes(p) =~= buf.subrange(0, 2 + len));
            let all = seq![p] + ps;
            assert(all[0] == p);
            assert(all.drop_first() =~= ps);
            assert(packets_bytes(all) == packet_bytes(p) + packets_bytes(ps));
            assert(buf =~= buf.subrange(0, 2 + len) + tail);
            assert(buf =~= packets_bytes(all) + rest);
            assert forall|i: int| 0 <= i < all.len() implies #[trigger] all[i].len() < 65536 by {
                if i > 0 {
                    assert(all[i] == ps[i - 1]);
                }
            }
        } else {
            assert(packets_bytes(Seq::<Seq<u8>>::empty()) + buf =~= buf);
        }
    } else {
        assert(packets_bytes(Seq::<Seq<u8>>::empty()) + buf =~= buf);
    }
}

} // verus!
