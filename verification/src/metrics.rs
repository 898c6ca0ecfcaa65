//! Per-connection and aggregate counters for the network layer. Each
//! counter wraps around on overflow, as a machine counter does.
use vstd::prelude::*;

verus! {

/// Counter addition modulo 2^64.
pub open spec fn wrap_add(a: u64, b: int) -> u64 {
    ((a + b) % 0x1_0000_0000_0000_0000) as u64
}

fn add_wrapping(a: u64, b: u64) -> (r: u64)
    ensures
        r == wrap_add(a, b as int),
{
    let s: u128 = a as u128 + b as u128;
    (s % 0x1_0000_0000_0000_0000) as u64
}

/// Frame, byte, datagram and backlog counters.
pub struct NetMetrics {
    pub frames_in: u64,
    pub frames_out: u64,
    pub bytes_in: u64,
    pub bytes_out: u64,
    pub rejects: u64,
    pub writer_queue_depth: u64,
    /// Cumulative microseconds the network thread's busy-time canary woke
    /// up late by: a proxy for how saturated that thread is.
    pub busy_micros: u64,
    /// Datagrams received on the unreliable lane, whatever their tag.
    pub datagrams_in: u64,
    /// Datagrams successfully handed to the transport.
    pub datagrams_out: u64,
    /// Datagram sends that failed and were dropped (never retried on the
    /// stream).
    pub datagram_send_failures: u64,
}

impl NetMetrics {
    /// All counters at zero.
    pub fn new() -> (m: Self)
        ensures
            m == (NetMetrics {
                frames_in: 0,
                frames_out: 0,
                bytes_in: 0,
                bytes_out: 0,
                rejects: 0,
                writer_queue_depth: 0,
                busy_micros: 0,
                datagrams_in: 0,
                datagrams_out: 0,
                datagram_send_failures: 0,
            }),
    {
        NetMetrics {
            frames_in: 0,
            frames_out: 0,
            bytes_in: 0,
            bytes_out: 0,
            rejects: 0,
            writer_queue_depth: 0,
            busy_micros: 0,
            datagrams_in: 0,
            datagrams_out: 0,
            datagram_send_failures: 0,
        }
    }

    /// One inbound frame of `bytes` payload bytes.
    pub fn record_frame_in(&mut self, bytes: usize)
        ensures
            *final(self) == (NetMetrics {
                frames_in: wrap_add(old(self).frames_in, 1),
                bytes_in: wrap_add(old(self).bytes_in, bytes as int),
                ..*old(self)
            }),
    {
        self.frames_in = add_wrapping(self.frames_in, 1);
        self.bytes_in = add_wrapping(self.bytes_in, bytes as u64);
    }

    /// One outbound frame of `bytes` payload bytes.
    pub fn record_frame_out(&mut self, bytes: usize)
        ensures
            *final(self) == (NetMetrics {
                frames_out: wrap_add(old(self).frames_out, 1),
                bytes_out: wrap_add(old(self).bytes_out, bytes as int),
                ..*old(self)
            }),
    {
        self.frames_out = add_wrapping(self.frames_out, 1);
        self.bytes_out = add_wrapping(self.bytes_out, bytes as u64);
    }

    /// One frame dropped by the rate limiter.
    pub fn record_reject(&mut self)
        ensures
            *final(self) == (NetMetrics { rejects: wrap_add(old(self).rejects, 1), ..*old(self) }),
    {
        self.rejects = add_wrapping(self.rejects, 1);
    }

    /// One datagram received.
    pub fn record_datagram_in(&mut self)
        ensures
            *final(self) == (NetMetrics {
                datagrams_in: wrap_add(old(self).datagrams_in, 1),
                ..*old(self)
            }),
    {
        self.datagrams_in = add_wrapping(self.datagrams_in, 1);
    }

    /// One datagram sent.
    pub fn record_datagram_out(&mut self)
        ensures
            *final(self) == (NetMetrics {
                datagrams_out: wrap_add(old(self).datagrams_out, 1),
                ..*old(self)
            }),
    {
        self.datagrams_out = add_wrapping(self.datagrams_out, 1);
    }

    /// One datagram send that failed and was dropped.
    pub fn record_datagram_send_failure(&mut self)
        ensures
            *final(self) == (NetMetrics {
                datagram_send_failures: wrap_add(old(self).datagram_send_failures, 1),
                ..*old(self)
            }),
    {
        self.datagram_send_failures = add_wrapping(self.datagram_send_failures, 1);
    }
}

/// The counters after `record_frame_in` was called once for each size in
/// `sizes`, in order, starting from `m`.
pub open spec fn frames_in_recorded(m: NetMetrics, sizes: Seq<usize>) -> NetMetrics
    decreases sizes.len(),
{
    if sizes.len() == 0 {
        m
    } else {
        let p = frames_in_recorded(m, sizes.drop_last());
        NetMetrics { frames_in: wrap_add(p.frames_in, 1), bytes_in: wrap_add(p.bytes_in, sizes.last() as int), ..p }
    }
}

/// Sum of `sizes`.
pub open spec fn total_size(sizes: Seq<usize>) -> int
    decreases sizes.len(),
{
    if sizes.len() == 0 {
        0
    } else {
        total_size(sizes.drop_last()) + sizes.last()
    }
}

proof fn lemma_wrap_add_twice(a: u64, x: int, y: int)
    requires
        x >= 0,
        y >= 0,
    ensures
        wrap_add(wrap_add(a, x), y) == wrap_add(a, x + y),
{
    let m: int = 0x1_0000_0000_0000_0000;
    vstd::arithmetic::div_mod::lemma_add_mod_noop_right(y, a + x, m);
    assert((a + x) % m >= 0 && (a + x) % m < m) by {
        vstd::arithmetic::div_mod::lemma_mod_bound(a + x, m);
    }
    assert(wrap_add(a, x) == (a + x) % m);
    assert((y + a + x) % m >= 0 && (y + a + x) % m < m) by {
        vstd::arithmetic::div_mod::lemma_mod_bound(y + a + x, m);
    }
}

/// No increment is lost: `k` frames recorded one by one add `k` to the
/// frame count and the sum of their sizes to the byte count (both modulo
/// 2^64), and leave every other counter as it was.
pub proof fn lemma_frames_in_add_up(m: NetMetrics, sizes: Seq<usize>)
    ensures
        frames_in_recorded(m, sizes) == (NetMetrics {
            frames_in: wrap_add(m.frames_in, sizes.len() as int),
            bytes_in: wrap_add(m.bytes_in, total_size(sizes)),
            ..m
        }),
    decreases sizes.len(),
{
    if sizes.len() == 0 {
        assert(wrap_add(m.frames_in, 0) == m.frames_in);
        assert(wrap_add(m.bytes_in, 0) == m.bytes_in);
    } else {
        let rest = sizes.drop_last();
        lemma_frames_in_add_up(m, rest);
        lemma_total_size_nonneg(rest);
        lemma_wrap_add_twice(m.frames_in, rest.len() as int, 1);
        lemma_wrap_add_twice(m.bytes_in, total_size(rest), sizes.last() as int);
    }
}

proof fn lemma_total_size_nonneg(sizes: Seq<usize>)
    ensures
        total_size(sizes) >= 0,
    decreases sizes.len(),
{
    if sizes.len() > 0 {
        lemma_total_size_nonneg(sizes.drop_last());
    }
}

} // verus!
