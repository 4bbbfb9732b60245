//! WebSocket frames (RFC 6455, section 5.2): the base framing header, the
//! header parser of `tungstenite`, and the deframing of a receive buffer
//! into message payloads.

use vstd::prelude::*;
use vstd::utf8::{decode_utf8, valid_utf8};

use tungstenite::protocol::frame::FrameHeader;

verus! {

#[verifier::external_type_specification]
#[verifier::external_body]
pub struct ExFrameHeader(tungstenite::protocol::frame::FrameHeader);

#[verifier::external_type_specification]
#[verifier::external_body]
pub struct ExWsError(tungstenite::Error);

/// Number of extended payload length bytes that the second header byte
/// announces: 2 for a 7-bit length of 126, 8 for 127, none otherwise.
pub open spec fn extra_length_bytes(second: u8) -> nat {
    if second % 128 == 126 {
        2
    } else if second % 128 == 127 {
        8
    } else {
        0
    }
}

/// The mask bit of the second header byte.
pub open spec fn is_masked(second: u8) -> bool {
    second >= 128
}

/// The size of the header that starts `b` (at least two bytes): the two
/// fixed bytes, the extended length, and four mask bytes where masked.
pub open spec fn header_size(b: Seq<u8>) -> nat {
    2 + extra_length_bytes(b[1]) + if is_masked(b[1]) { 4nat } else { 0nat }
}

/// `b` holds a whole frame header.
pub open spec fn header_complete(b: Seq<u8>) -> bool {
    b.len() >= 2 && b.len() >= header_size(b)
}

/// The opcode field of the first header byte is one that RFC 6455 reserves
/// (3 to 7, 11 to 15).
pub open spec fn opcode_reserved(first: u8) -> bool {
    let code = first % 16;
    (3 <= code && code <= 7) || code >= 11
}

/// The number that big-endian bytes denote.
pub open spec fn big_endian(s: Seq<u8>) -> nat
    decreases s.len(),
{
    if s.len() == 0 {
        0
    } else {
        big_endian(s.drop_last()) * 256 + s.last() as nat
    }
}

/// The payload length that the complete header at the start of `b` states.
pub open spec fn payload_length(b: Seq<u8>) -> nat {
    let extra = extra_length_bytes(b[1]);
    if extra == 0 {
        (b[1] % 128) as nat
    } else {
        big_endian(b.subrange(2, 2 + extra as int))
    }
}

/// `FrameHeader::parse` of `tungstenite`, run on a cursor at the start of
/// `buf`: no header while `buf` holds less than a whole header; an error
/// for a whole header with a reserved opcode; otherwise the header, the
/// payload length it states, and the cursor's position after it, which is
/// the header's size. The header's fields are left unsaid.
#[verifier::external_body]
pub(crate) fn parse_frame_header(buf: &[u8]) -> (res: Result<Option<(FrameHeader, u64, usize)>, tungstenite::Error>)
    ensures
        !header_complete(buf@) ==> res is Ok && res->Ok_0 is None,
        header_complete(buf@) && opcode_reserved(buf@[0]) ==> res is Err,
        header_complete(buf@) && !opcode_reserved(buf@[0]) ==> res is Ok && res->Ok_0 is Some
            && res->Ok_0->Some_0.1 as nat == payload_length(buf@)
            && res->Ok_0->Some_0.2 as nat == header_size(buf@),
{
    let mut cursor = std::io::Cursor::new(buf);
    match FrameHeader::parse(&mut cursor) {
        Ok(Some((header, len))) => Ok(Some((header, len, cursor.position() as usize))),
        Ok(None) => Ok(None),
        Err(e) => Err(e),
    }
}

/// What `String::from_utf8_lossy` makes of `bytes`.
pub uninterp spec fn utf8_lossy(bytes: Seq<u8>) -> Seq<char>;

/// `String::from_utf8_lossy`, made owned: the text of `bytes` with each
/// invalid sequence replaced; valid UTF-8 decodes unchanged.
#[verifier::external_body]
pub(crate) fn lossy_string(bytes: &[u8]) -> (s: String)
    ensures
        s@ == utf8_lossy(bytes@),
        valid_utf8(bytes@) ==> s@ == decode_utf8(bytes@),
{
    String::from_utf8_lossy(bytes).into_owned()
}

/// What deframing a buffer gives: the payloads of the whole frames, in
/// order; the payload length of a header read whose payload has not fully
/// arrived; the bytes left in the buffer; and the reserved opcode that
/// stopped it, if one did.
pub struct Deframed {
    pub messages: Seq<Seq<u8>>,
    pub pending: Option<nat>,
    pub rest: Seq<u8>,
    pub error: Option<u8>,
}

/// Deframing that stops with nothing more delivered.
pub open spec fn deframe_stop(pending: Option<nat>, rest: Seq<u8>) -> Deframed {
    Deframed { messages: Seq::empty(), pending, rest, error: None }
}

/// `d` with `payload` delivered before its messages.
pub open spec fn deframe_prepend(payload: Seq<u8>, d: Deframed) -> Deframed {
    Deframed { messages: seq![payload] + d.messages, ..d }
}

/// Deframing once a header with payload length `len` is read and `body`
/// holds what follows it: the payload is delivered where it has fully
/// arrived, and deframing goes on after it; otherwise it waits.
pub open spec fn deframe_payload(len: nat, body: Seq<u8>) -> Deframed
    decreases 2 * body.len() + 2,
{
    if len <= body.len() {
        deframe_prepend(body.take(len as int), deframe(None, body.skip(len as int)))
    } else {
        deframe_stop(Some(len), body)
    }
}

/// Deframing of the buffer `buf`, with the payload length of an already
/// read header pending, if any. It goes on while the buffer holds two
/// bytes or more: a pending payload is delivered once it has arrived;
/// otherwise a header is read, and a reserved opcode stops it with an error.
pub open spec fn deframe(pending: Option<nat>, buf: Seq<u8>) -> Deframed
    decreases 2 * buf.len() + (if pending is Some { 3int } else { 1int }),
{
    if buf.len() < 2 {
        deframe_stop(pending, buf)
    } else {
        match pending {
            Some(len) => deframe_payload(len, buf),
            None => {
                if !header_complete(buf) {
                    deframe_stop(None, buf)
                } else if opcode_reserved(buf[0]) {
                    Deframed { messages: Seq::empty(), pending: None, rest: buf, error: Some(buf[0] % 16) }
                } else {
                    deframe_payload(payload_length(buf), buf.skip(header_size(buf) as int))
                }
            },
        }
    }
}

/// `256` to the power `k`: the first number that `k` bytes cannot hold.
pub open spec fn byte_bound(k: nat) -> nat
    decreases k,
{
    if k == 0 {
        1
    } else {
        256 * byte_bound((k - 1) as nat)
    }
}

/// The `k` big-endian bytes of `n`.
pub open spec fn be_bytes(n: nat, k: nat) -> Seq<u8>
    decreases k,
{
    if k == 0 {
        Seq::empty()
    } else {
        be_bytes(n / 256, (k - 1) as nat).push((n % 256) as u8)
    }
}

/// The unmasked frame with first header byte `first` and payload `payload`,
/// its length written in the shortest of the three forms.
pub open spec fn frame_bytes(first: u8, payload: Seq<u8>) -> Seq<u8> {
    let n = payload.len();
    if n < 126 {
        seq![first, n as u8] + payload
    } else if n < 65536 {
        seq![first, 126u8] + be_bytes(n, 2) + payload
    } else {
        seq![first, 127u8] + be_bytes(n, 8) + payload
    }
}

/// Big-endian bytes read back give the number they were written from.
pub proof fn lemma_be_bytes_roundtrip(n: nat, k: nat)
    requires
        n < byte_bound(k),
    ensures
        be_bytes(n, k).len() == k,
        big_endian(be_bytes(n, k)) == n,
    decreases k,
{
    if k > 0 {
        let b = byte_bound((k - 1) as nat);
        assert(n / 256 < b) by (nonlinear_arith)
            requires
                n < 256 * b,
        ;
        lemma_be_bytes_roundtrip(n / 256, (k - 1) as nat);
        let s = be_bytes(n, k);
        assert(s.drop_last() =~= be_bytes(n / 256, (k - 1) as nat));
        assert((n / 256) * 256 + n % 256 == n) by (nonlinear_arith);
    }
}

/// A whole unmasked frame with a non-reserved opcode, deframed from the
/// front of a buffer, gives back its payload first; deframing then goes on
/// with what follows it.
pub proof fn lemma_frame_roundtrip(first: u8, payload: Seq<u8>, rest: Seq<u8>)
    requires
        !opcode_reserved(first),
        payload.len() < byte_bound(8),
    ensures
        deframe(None, frame_bytes(first, payload) + rest) == deframe_prepend(payload, deframe(None, rest)),
{
    let n = payload.len();
    let frame = frame_bytes(first, payload);
    let b = frame + rest;
    if n < 126 {
        assert(b.skip(2) =~= payload + rest);
    } else if n < 65536 {
        assert(byte_bound(2) == 65536) by {
            reveal_with_fuel(byte_bound, 3);
        }
        lemma_be_bytes_roundtrip(n, 2);
        assert(b.subrange(2, 4) =~= be_bytes(n, 2));
        assert(b.skip(4) =~= payload + rest);
    } else {
        lemma_be_bytes_roundtrip(n, 8);
        assert(b.subrange(2, 10) =~= be_bytes(n, 8));
        assert(b.skip(10) =~= payload + rest);
    }
    let body = payload + rest;
    assert(body.take(n as int) =~= payload);
    assert(body.skip(n as int) =~= rest);
}

/// `d` with `messages` delivered before its own.
pub open spec fn deframe_prepend_all(messages: Seq<Seq<u8>>, d: Deframed) -> Deframed {
    Deframed { messages: messages + d.messages, ..d }
}

/// Receiving a buffer in two parts and deframing after each delivers the
/// same messages, and leaves the same state, as deframing both parts at
/// once; except where the first deframing waits for a payload and the
/// bytes left then, with the second part, are fewer than two.
pub proof fn lemma_deframe_split(pending: Option<nat>, first: Seq<u8>, second: Seq<u8>)
    requires
        deframe(pending, first).pending is Some ==> deframe(pending, first).rest.len() + second.len() >= 2,
    ensures
        ({
            let d = deframe(pending, first);
            deframe(pending, first + second) == deframe_prepend_all(d.messages, deframe(d.pending, d.rest + second))
        }),
    decreases 2 * first.len() + (if pending is Some { 3int } else { 1int }),
{
    let d = deframe(pending, first);
    let all = first + second;
    if first.len() < 2 {
        assert(d.messages =~= Seq::<Seq<u8>>::empty());
        assert(deframe_prepend_all(d.messages, deframe(d.pending, d.rest + second)).messages
            =~= deframe(pending, all).messages);
    } else {
        let (len, body, body_all) = match pending {
            Some(len) => (len, first, all),
            None => {
                if !header_complete(first) || opcode_reserved(first[0]) {
                    assert(d.messages =~= Seq::<Seq<u8>>::empty());
                    assert(deframe_prepend_all(d.messages, deframe(d.pending, d.rest + second)).messages
                        =~= deframe(pending, all).messages);
                    return;
                }
                assert(all.subrange(2, 2 + extra_length_bytes(first[1]) as int)
                    =~= first.subrange(2, 2 + extra_length_bytes(first[1]) as int));
                let h = header_size(first) as int;
                assert(all.skip(h) =~= first.skip(h) + second);
                (payload_length(first), first.skip(h), all.skip(h))
            },
        };
        assert(body_all == body + second);
        if len <= body.len() {
            let after = body.skip(len as int);
            assert(body_all.take(len as int) =~= body.take(len as int));
            assert(body_all.skip(len as int) =~= after + second);
            lemma_deframe_split(None, after, second);
            let inner = deframe(None, after);
            assert(d == deframe_prepend(body.take(len as int), inner));
            assert(seq![body.take(len as int)] + (inner.messages + deframe(inner.pending, inner.rest + second).messages)
                =~= (seq![body.take(len as int)] + inner.messages) + deframe(inner.pending, inner.rest + second).messages);
        } else {
            assert(d == deframe_stop(Some(len), body));
            assert(deframe(Some(len), body + second) == deframe_payload(len, body + second));
            assert(d.messages =~= Seq::<Seq<u8>>::empty());
            assert(deframe_prepend_all(d.messages, deframe(d.pending, d.rest + second)).messages
                =~= deframe(Some(len), body + second).messages);
        }
    }
}

} // verus!
