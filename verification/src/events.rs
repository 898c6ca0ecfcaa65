//! What the transport surfaces to the simulation thread.
use vstd::prelude::*;

verus! {

#[verifier::external_type_specification]
#[verifier::external_body]
pub struct ExIoError(std::io::Error);

/// Connection identifier, unique per server for its lifetime.
pub type ConnId = u64;

/// Server-side events, drained once per input tick.
pub enum ServerEvent {
    Connected(ConnId),
    Disconnected(ConnId),
    /// `recv_micros` is the server clock at the moment the network thread
    /// received the frame: the arrival-deadline anchor.
    Message { conn: ConnId, data: Vec<u8>, recv_micros: u64 },
}

/// Client-side events, drained once per input tick.
pub enum ClientEvent {
    Connected,
    Disconnected,
    Message(Vec<u8>),
    /// The server rejected the handshake with a reason; `Disconnected`
    /// still follows.
    Rejected(String),
}

/// Errors surfaced to the simulation thread.
pub enum NetError {
    Io(std::io::Error),
    Tls(String),
    Handshake(String),
    Closed,
}

/// The client's estimate of the server clock: local time shifted by the
/// published offset, floored at zero.
pub fn server_now_micros(local_micros: u64, offset: i64) -> (res: u64)
    requires
        local_micros <= i64::MAX,
    ensures
        res == (if local_micros + offset < 0 {
            0
        } else if local_micros + offset > u64::MAX {
            u64::MAX as int
        } else {
            local_micros + offset
        }),
{
    let t: i128 = local_micros as i128 + offset as i128;
    if t < 0 {
        0
    } else if t > u64::MAX as i128 {
        u64::MAX
    } else {
        t as u64
    }
}

/// Round trip of a pong received at local time `now` for a ping sent at
/// `t_client` (zero if the clock reading went backwards).
pub fn pong_rtt(now: u64, t_client: u64) -> (res: u64)
    ensures
        res == (if now >= t_client {
            now - t_client
        } else {
            0
        }),
{
    now.saturating_sub(t_client)
}

} // verus!
