//! Wire format of the two transport lanes and the handshake rules.
//!
//! Reliable stream frames are `[u32 LE frame length][u8 tag][payload]`,
//! where the length counts the tag byte plus the payload. Datagrams are
//! `[u8 tag][payload]`, self-delimiting. Tag 0 carries control messages,
//! tag 1 application bytes.
use vstd::prelude::*;

verus! {

pub const TAG_CTRL: u8 = 0;

pub const TAG_APP: u8 = 1;

/// Hard cap on inbound frames (client to server).
pub const MAX_FRAME_IN: usize = 1024;

/// Hard cap on outbound / client-read frames (server to client).
pub const MAX_FRAME_OUT: usize = 65536;

/// Control messages handled inside the transport (never surfaced to the
/// game). Times are microseconds on the sender's own monotonic epoch.
pub enum Ctrl {
    Hello { version: u8 },
    HelloAck,
    Ping { t_client: u64 },
    Pong { t_client: u64, t_server: u64 },
    Reject { reason: String },
}

/// Little-endian bytes of a 32-bit length.
pub open spec fn le32(v: nat) -> Seq<u8> {
    seq![
        (v % 256) as u8,
        (v / 256 % 256) as u8,
        (v / 65536 % 256) as u8,
        (v / 16777216 % 256) as u8,
    ]
}

/// The value of four little-endian bytes.
pub open spec fn le32_value(b: Seq<u8>) -> nat {
    (b[0] + 256 * b[1] + 65536 * b[2] + 16777216 * b[3]) as nat
}

/// A complete stream frame carrying `payload` under `tag`.
pub open spec fn frame_bytes(tag: u8, payload: Seq<u8>) -> Seq<u8> {
    le32((payload.len() + 1) as nat) + seq![tag] + payload
}

/// A complete datagram carrying `payload` under `tag`.
pub open spec fn datagram_bytes(tag: u8, payload: Seq<u8>) -> Seq<u8> {
    seq![tag] + payload
}

/// Why a frame header was refused.
#[derive(PartialEq, Eq, Structural)]
pub enum FrameError {
    /// The announced length is zero (no room for the tag) or above the cap.
    BadLength { len: u32 },
}

fn push_all(out: &mut Vec<u8>, payload: &[u8])
    ensures
        final(out)@ == old(out)@ + payload@,
{
    let mut i: usize = 0;
    while i < payload.len()
        invariant
            i <= payload@.len(),
            out@ == old(out)@ + payload@.subrange(0, i as int),
        decreases payload@.len() - i,
    {
        out.push(payload[i]);
        i = i + 1;
        assert(payload@.subrange(0, i as int) == payload@.subrange(0, i - 1).push(payload@[i - 1]));
    }
    assert(payload@.subrange(0, payload@.len() as int) == payload@);
}

/// Encodes one stream frame. The frame length (payload plus tag byte)
/// must fit the 32-bit length prefix.
pub fn encode_frame(tag: u8, payload: &[u8]) -> (out: Vec<u8>)
    requires
        payload@.len() + 1 <= u32::MAX,
    ensures
        out@ == frame_bytes(tag, payload@),
{
    let len: u32 = (payload.len() + 1) as u32;
    let mut out: Vec<u8> = Vec::new();
    out.push((len % 256) as u8);
    out.push((len / 256 % 256) as u8);
    out.push((len / 65536 % 256) as u8);
    out.push((len / 16777216 % 256) as u8);
    out.push(tag);
    push_all(&mut out, payload);
    assert(out@ == frame_bytes(tag, payload@));
    out
}

/// Reads the 4-byte length prefix of a stream frame and checks it against
/// `max`: the payload that follows the tag byte is `len - 1` bytes long.
pub fn frame_len(header: [u8; 4], max: usize) -> (res: Result<usize, FrameError>)
    ensures
        match res {
            Ok(len) => len == le32_value(header@) && 1 <= len <= max,
            Err(FrameError::BadLength { len }) => len == le32_value(header@) && (len == 0
                || len > max),
        },
{
    let len: u32 = header[0] as u32 + 256 * header[1] as u32 + 65536 * header[2] as u32
        + 16777216 * header[3] as u32;
    if len == 0 || len as usize > max {
        Err(FrameError::BadLength { len })
    } else {
        Ok(len as usize)
    }
}

/// Encodes one datagram.
pub fn encode_datagram(tag: u8, payload: &[u8]) -> (out: Vec<u8>)
    ensures
        out@ == datagram_bytes(tag, payload@),
{
    let mut out: Vec<u8> = Vec::new();
    out.push(tag);
    push_all(&mut out, payload);
    out
}

/// Splits a received datagram into its tag and payload; an empty datagram
/// carries nothing.
pub fn decode_datagram(bytes: &[u8]) -> (res: Option<(u8, Vec<u8>)>)
    ensures
        match res {
            Some((tag, payload)) => bytes@.len() > 0 && bytes@ == datagram_bytes(tag, payload@),
            None => bytes@.len() == 0,
        },
{
    if bytes.len() == 0 {
        return None;
    }
    let mut payload: Vec<u8> = Vec::new();
    let mut i: usize = 1;
    while i < bytes.len()
        invariant
            1 <= i <= bytes@.len(),
            payload@ == bytes@.subrange(1, i as int),
        decreases bytes@.len() - i,
    {
        payload.push(bytes[i]);
        i = i + 1;
        assert(bytes@.subrange(1, i as int) == bytes@.subrange(1, i - 1).push(bytes@[i - 1]));
    }
    assert(bytes@ == seq![bytes@[0]] + bytes@.subrange(1, bytes@.len() as int));
    Some((bytes[0], payload))
}

/// The 4-byte header that `encode_frame` writes is read back by
/// `frame_len` as the payload length plus one.
pub proof fn lemma_frame_length_roundtrip(tag: u8, payload: Seq<u8>)
    requires
        payload.len() + 1 <= u32::MAX,
    ensures
        le32_value(frame_bytes(tag, payload).subrange(0, 4)) == payload.len() + 1,
{
    let v = (payload.len() + 1) as nat;
    let b = frame_bytes(tag, payload).subrange(0, 4);
    assert(b == le32(v));
    assert(v % 256 + 256 * (v / 256 % 256) + 65536 * (v / 65536 % 256) + 16777216 * (v / 16777216
        % 256) == v) by (nonlinear_arith)
        requires
            v < 0x1_0000_0000,
    ;
}

/// A frame read back after its 4-byte header gives the tag and payload
/// that were written.
pub proof fn lemma_frame_body_roundtrip(tag: u8, payload: Seq<u8>)
    ensures
        frame_bytes(tag, payload)[4] == tag,
        frame_bytes(tag, payload).subrange(5, frame_bytes(tag, payload).len() as int) == payload,
{
    let f = frame_bytes(tag, payload);
    assert(f.subrange(5, f.len() as int) =~= payload);
}

/// A datagram decodes to the tag and payload it was encoded from: equal
/// datagram bytes mean equal tag and payload.
pub proof fn lemma_datagram_roundtrip(tag: u8, payload: Seq<u8>, tag2: u8, payload2: Seq<u8>)
    requires
        datagram_bytes(tag, payload) == datagram_bytes(tag2, payload2),
    ensures
        tag == tag2,
        payload == payload2,
{
    let d = datagram_bytes(tag, payload);
    assert(d[0] == tag);
    assert(datagram_bytes(tag2, payload2)[0] == tag2);
    assert(d.subrange(1, d.len() as int) =~= payload);
    assert(datagram_bytes(tag2, payload2).subrange(1, d.len() as int) =~= payload2);
}

/// Frame layout law: a stream frame is the frame length (payload length
/// plus one for the tag) as four little-endian bytes, then the tag, then
/// the payload, byte for byte.
pub proof fn lemma_frame_layout(tag: u8, payload: Seq<u8>)
    requires
        payload.len() + 1 <= u32::MAX,
    ensures
        ({
            let f = frame_bytes(tag, payload);
            let n = payload.len() + 1;
            &&& f.len() == payload.len() + 5
            &&& f[0] == n % 256 && f[1] == n / 256 % 256 && f[2] == n / 65536 % 256 && f[3] == n / 16777216
            &&& f[4] == tag
            &&& forall|i: int| 0 <= i < payload.len() ==> f[5 + i] == #[trigger] payload[i]
        }),
{
    let n = payload.len() + 1;
    assert(n / 16777216 < 256);
}

/// Datagram layout law: a datagram is the tag, then the payload.
pub proof fn lemma_datagram_layout(tag: u8, payload: Seq<u8>)
    ensures
        datagram_bytes(tag, payload).len() == payload.len() + 1,
        datagram_bytes(tag, payload)[0] == tag,
        forall|i: int| 0 <= i < payload.len() ==> datagram_bytes(tag, payload)[1 + i] == #[trigger] payload[i],
{
}

/// What a server does with the first frame of a new connection.
#[derive(PartialEq, Eq, Structural)]
pub enum HelloOutcome {
    /// A `Hello` with the server's version: reply `HelloAck`.
    Accept,
    /// A `Hello` with another version: reply `Reject` with the reason, then
    /// close.
    VersionMismatch { client: u8, server: u8 },
    /// Anything else: close without a reply.
    ExpectedHello,
}

/// The handshake rule: the first frame must be a control `Hello` carrying
/// the server's protocol version.
pub fn check_hello(tag: u8, msg: &Option<Ctrl>, version: u8) -> (res: HelloOutcome)
    ensures
        res == (match msg {
            Some(Ctrl::Hello { version: v }) if tag == TAG_CTRL => if *v == version {
                HelloOutcome::Accept
            } else {
                HelloOutcome::VersionMismatch { client: *v, server: version }
            },
            _ => HelloOutcome::ExpectedHello,
        }),
{
    if tag != TAG_CTRL {
        return HelloOutcome::ExpectedHello;
    }
    match msg {
        Some(Ctrl::Hello { version: v }) => {
            if *v == version {
                HelloOutcome::Accept
            } else {
                HelloOutcome::VersionMismatch { client: *v, server: version }
            }
        },
        _ => HelloOutcome::ExpectedHello,
    }
}

/// What a client does with the server's reply to its `Hello`.
pub enum AckOutcome {
    Connected,
    /// The server refused the handshake with a reason.
    Rejected(String),
    /// Anything else: the handshake failed.
    ExpectedHelloAck,
}

/// The client side of the handshake rule.
pub fn check_hello_ack(tag: u8, msg: Option<Ctrl>) -> (res: AckOutcome)
    ensures
        match res {
            AckOutcome::Connected => tag == TAG_CTRL && (msg matches Some(Ctrl::HelloAck)),
            AckOutcome::Rejected(reason) => {
                &&& tag == TAG_CTRL
                &&& msg matches Some(Ctrl::Reject { reason: r })
                &&& r@ == reason@
            },
            AckOutcome::ExpectedHelloAck => !(tag == TAG_CTRL && ((msg matches Some(
                Ctrl::HelloAck,
            )) || (msg matches Some(Ctrl::Reject { .. })))),
        },
{
    if tag != TAG_CTRL {
        return AckOutcome::ExpectedHelloAck;
    }
    match msg {
        Some(Ctrl::HelloAck) => AckOutcome::Connected,
        Some(Ctrl::Reject { reason }) => AckOutcome::Rejected(reason),
        _ => AckOutcome::ExpectedHelloAck,
    }
}

/// What a received frame or datagram carries, by its tag and, for a
/// control tag, its decoded message.
pub enum Inbound {
    Ping { t_client: u64 },
    Pong { t_client: u64, t_server: u64 },
    /// A control tag whose message is not a ping or pong, or did not decode.
    OtherControl,
    /// Application bytes for the layer above.
    App,
    /// A tag neither side defines: a protocol error on the stream.
    UnknownTag(u8),
}

/// Sorts an incoming frame: clock-sync pings and pongs are answered or fed
/// inside the transport, application frames go up, other control frames are
/// ignored, and any other tag is an error.
pub fn classify_inbound(tag: u8, ctrl: Option<Ctrl>) -> (r: Inbound)
    ensures
        tag == TAG_APP ==> r is App,
        tag == TAG_CTRL ==> match ctrl {
            Some(Ctrl::Ping { t_client }) => r == Inbound::Ping { t_client },
            Some(Ctrl::Pong { t_client, t_server }) => r == Inbound::Pong { t_client, t_server },
            _ => r is OtherControl,
        },
        tag != TAG_APP && tag != TAG_CTRL ==> r == Inbound::UnknownTag(tag),
{
    if tag == TAG_APP {
        Inbound::App
    } else if tag == TAG_CTRL {
        match ctrl {
            Some(Ctrl::Ping { t_client }) => Inbound::Ping { t_client },
            Some(Ctrl::Pong { t_client, t_server }) => Inbound::Pong { t_client, t_server },
            _ => Inbound::OtherControl,
        }
    } else {
        Inbound::UnknownTag(tag)
    }
}

} // verus!
