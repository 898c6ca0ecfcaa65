//! Server-side admission and flow-control policies: connection caps (total
//! and per source address), the per-connection token bucket that bounds how
//! fast app frames become events, and the writer-queue backlog cap.
use vstd::prelude::*;

verus! {

/// Writer-queue backlog above which a connection is kicked.
pub const WRITER_QUEUE_CAP: usize = 128;

/// Default cap on simultaneous connections.
pub const MAX_CONNECTIONS: usize = 4096;

/// Default cap on simultaneous connections from one source address.
pub const MAX_CONNECTIONS_PER_IP: usize = 8;

/// Token-bucket burst capacity, in frames.
pub const MSG_BUCKET_CAPACITY: u64 = 128;

/// Token-bucket steady refill rate, in frames per second.
pub const MSG_REFILL_PER_SEC: u64 = 120;

/// Nanoseconds per second: tokens are held in billionths of a frame so the
/// refill is exact at nanosecond resolution.
pub const NANOS_PER_SEC: u64 = 1_000_000_000;

/// Bind-time connection-cap configuration.
#[derive(Clone, Copy)]
pub struct NetLimits {
    pub max_connections: usize,
    pub max_connections_per_ip: usize,
}

impl Default for NetLimits {
    /// The hostile-client defaults.
    fn default() -> (res: Self)
        ensures
            res.max_connections == MAX_CONNECTIONS,
            res.max_connections_per_ip == MAX_CONNECTIONS_PER_IP,
    {
        NetLimits { max_connections: MAX_CONNECTIONS, max_connections_per_ip: MAX_CONNECTIONS_PER_IP }
    }
}

/// Tokens after refilling `tokens` (in billionths) for `elapsed_ns`
/// nanoseconds, saturating at the burst capacity.
pub open spec fn refilled(tokens: int, elapsed_ns: int) -> int {
    let full = MSG_BUCKET_CAPACITY * NANOS_PER_SEC;
    let t = tokens + elapsed_ns * MSG_REFILL_PER_SEC;
    if t > full {
        full as int
    } else {
        t
    }
}

/// Reader-side token bucket. Starts full; refills continuously at
/// `MSG_REFILL_PER_SEC`; each admitted frame takes one token.
pub struct TokenBucket {
    /// Tokens, in billionths of a frame.
    tokens: u64,
    /// Time of the last refill, in nanoseconds on the caller's clock.
    last_refill: u64,
    start: Ghost<int>,
    admitted: Ghost<int>,
    marks: Ghost<Seq<(int, int, int)>>,
}

/// Frames admitted after the mark `m` (a call of the bucket, or its
/// creation: time, frames admitted up to it, tokens left after it) and up
/// to a point with `admitted` frames, `tokens` tokens and time `now`, plus
/// the tokens left, cannot exceed the tokens the mark left plus the refill
/// accrued since.
pub open spec fn within_refill(m: (int, int, int), admitted: int, tokens: int, now: int) -> bool {
    &&& m.0 <= now
    &&& 0 <= m.2 <= MSG_BUCKET_CAPACITY * NANOS_PER_SEC
    &&& admitted * NANOS_PER_SEC + tokens <= m.1 * NANOS_PER_SEC + m.2 + (now - m.0) * MSG_REFILL_PER_SEC
}

impl TokenBucket {
    /// The bucket's invariant, which is also its rate law: measured from
    /// its creation or from any later call, the frames admitted since plus
    /// the tokens left never exceed the tokens left then plus the refill
    /// accrued over the elapsed time.
    pub closed spec fn wf(&self) -> bool {
        let m = self.marks@;
        &&& self.tokens <= MSG_BUCKET_CAPACITY * NANOS_PER_SEC
        &&& self.admitted@ >= 0
        &&& m.len() > 0
        &&& m[0] == (self.start@, 0int, (MSG_BUCKET_CAPACITY * NANOS_PER_SEC) as int)
        &&& forall|i: int| 0 <= i < m.len() ==> #[trigger] within_refill(m[i], self.admitted@, self.tokens as int, self.last_refill as int)
    }

    /// Every call of the bucket so far, oldest first, its creation first:
    /// (time, frames admitted up to it, tokens left after it).
    pub closed spec fn marks(&self) -> Seq<(int, int, int)> {
        self.marks@
    }

    pub closed spec fn tokens_view(&self) -> int {
        self.tokens as int
    }

    pub closed spec fn last_refill_view(&self) -> int {
        self.last_refill as int
    }

    /// Frames admitted since the bucket was created.
    pub closed spec fn admitted_view(&self) -> int {
        self.admitted@
    }

    /// Creation time of the bucket.
    pub closed spec fn start_view(&self) -> int {
        self.start@
    }

    /// A full bucket created at `now_ns`.
    pub fn new(now_ns: u64) -> (b: Self)
        ensures
            b.wf(),
            b.tokens_view() == MSG_BUCKET_CAPACITY * NANOS_PER_SEC,
            b.last_refill_view() == now_ns,
            b.start_view() == now_ns,
            b.admitted_view() == 0,
            b.marks() == seq![(now_ns as int, 0int, (MSG_BUCKET_CAPACITY * NANOS_PER_SEC) as int)],
    {
        let ghost first: Seq<(int, int, int)> = seq![
            (now_ns as int, 0int, (MSG_BUCKET_CAPACITY * NANOS_PER_SEC) as int),
        ];
        TokenBucket {
            tokens: MSG_BUCKET_CAPACITY * NANOS_PER_SEC,
            last_refill: now_ns,
            start: Ghost(now_ns as int),
            admitted: Ghost(0),
            marks: Ghost(first),
        }
    }

    /// Refills for the time since the last call, then admits the frame
    /// (taking one token) when at least one whole token is available.
    /// Time reads that run backwards refill nothing.
    pub fn try_admit(&mut self, now_ns: u64) -> (admitted: bool)
        requires
            old(self).wf(),
        ensures
            final(self).wf(),
            final(self).start_view() == old(self).start_view(),
            final(self).last_refill_view() == if now_ns >= old(self).last_refill_view() {
                now_ns as int
            } else {
                old(self).last_refill_view()
            },
            admitted == (refilled(
                old(self).tokens_view(),
                final(self).last_refill_view() - old(self).last_refill_view(),
            ) >= NANOS_PER_SEC),
            final(self).tokens_view() == refilled(
                old(self).tokens_view(),
                final(self).last_refill_view() - old(self).last_refill_view(),
            ) - if admitted {
                NANOS_PER_SEC as int
            } else {
                0
            },
            final(self).admitted_view() == old(self).admitted_view() + if admitted {
                1int
            } else {
                0
            },
            final(self).marks() == old(self).marks().push(
                (final(self).last_refill_view(), final(self).admitted_view(), final(self).tokens_view()),
            ),
    {
        let ghost m0 = self.marks@;
        let ghost a0 = self.admitted@;
        let ghost k0 = self.tokens as int;
        let ghost l0 = self.last_refill as int;
        let full: u64 = MSG_BUCKET_CAPACITY * NANOS_PER_SEC;
        let now: u64 = if now_ns >= self.last_refill {
            now_ns
        } else {
            self.last_refill
        };
        let elapsed: u64 = now - self.last_refill;
        let e: u128 = elapsed as u128;
        assert(e * 120 <= 0xffff_ffff_ffff_ffff * 120);
        let t: u128 = self.tokens as u128 + e * 120;
        let refill: u64 = if t > full as u128 {
            full
        } else {
            t as u64
        };
        self.tokens = refill;
        self.last_refill = now;
        let ok = if self.tokens < NANOS_PER_SEC {
            false
        } else {
            self.tokens = self.tokens - NANOS_PER_SEC;
            self.admitted = Ghost(self.admitted@ + 1);
            true
        };
        proof {
            let a1 = self.admitted@;
            let k1 = self.tokens as int;
            let l1 = self.last_refill as int;
            assert(a1 * NANOS_PER_SEC + k1 <= a0 * NANOS_PER_SEC + k0 + (l1 - l0) * MSG_REFILL_PER_SEC);
            assert forall|i: int| 0 <= i < m0.len() implies #[trigger] within_refill(m0[i], a1, k1, l1) by {
                assert(within_refill(m0[i], a0, k0, l0));
            }
            self.marks@ = m0.push((l1, a1, k1));
            assert forall|i: int| 0 <= i < self.marks@.len() implies #[trigger] within_refill(
                self.marks@[i],
                a1,
                k1,
                l1,
            ) by {
                if i < m0.len() {
                    assert(self.marks@[i] == m0[i]);
                }
            }
        }
        ok
    }
}

/// Rate law over any window: whatever sequence of calls a well-formed bucket
/// has seen, the frames it admitted after any earlier call `i` (or after
/// its creation, mark 0) never exceed the burst capacity plus the refill
/// rate times the time elapsed since that call. So over any span of `T`
/// seconds it admits at most `MSG_BUCKET_CAPACITY + MSG_REFILL_PER_SEC * T`
/// frames, however long it sat idle before.
pub proof fn lemma_bucket_window_rate(b: &TokenBucket, i: int)
    requires
        b.wf(),
        0 <= i < b.marks().len(),
    ensures
        b.marks()[i].0 <= b.last_refill_view(),
        (b.admitted_view() - b.marks()[i].1) * NANOS_PER_SEC <= MSG_BUCKET_CAPACITY * NANOS_PER_SEC + (
        b.last_refill_view() - b.marks()[i].0) * MSG_REFILL_PER_SEC,
{
    assert(within_refill(b.marks@[i], b.admitted@, b.tokens as int, b.last_refill as int));
}

/// Rate law from creation: the frames a well-formed bucket admitted never
/// exceed the burst capacity plus the refill rate times the elapsed time
/// since it was created.
pub proof fn lemma_bucket_rate_bound(b: &TokenBucket)
    requires
        b.wf(),
    ensures
        b.admitted_view() * NANOS_PER_SEC <= MSG_BUCKET_CAPACITY * NANOS_PER_SEC + (
        b.last_refill_view() - b.start_view()) * MSG_REFILL_PER_SEC,
{
    lemma_bucket_window_rate(b, 0);
}

/// Writer-queue accounting: the backlog after one more enqueued frame, and
/// whether that backlog exceeds the cap (the connection is then kicked).
pub fn enqueue_backlog(depth: u64) -> (res: (u64, bool))
    requires
        depth < u64::MAX,
    ensures
        res.0 == depth + 1,
        res.1 == (depth + 1 > WRITER_QUEUE_CAP),
{
    let d = depth + 1;
    (d, d > WRITER_QUEUE_CAP as u64)
}

/// A peer's IP address, by family: an IPv4 address and its IPv4-mapped
/// IPv6 form are different peers.
#[derive(Clone, Copy, PartialEq, Eq, Structural, Debug, Hash)]
pub enum PeerAddr {
    V4(u32),
    V6(u128),
}

/// Live connection counts: per source address and in total. A slot is
/// reserved before the handshake and released when the connection ends.
pub struct ConnCaps {
    counts: Vec<(PeerAddr, usize)>,
    total: usize,
    limits: NetLimits,
}

/// Sum of the per-address counts.
pub open spec fn count_sum(s: Seq<(PeerAddr, usize)>) -> int
    decreases s.len(),
{
    if s.len() == 0 {
        0
    } else {
        count_sum(s.drop_last()) + s.last().1
    }
}

/// The live count recorded for `ip` (zero when absent).
pub open spec fn count_of(s: Seq<(PeerAddr, usize)>, ip: PeerAddr) -> int
    decreases s.len(),
{
    if s.len() == 0 {
        0
    } else if s.last().0 == ip {
        s.last().1 as int
    } else {
        count_of(s.drop_last(), ip)
    }
}

proof fn lemma_count_absent(s: Seq<(PeerAddr, usize)>, ip: PeerAddr)
    requires
        forall|i: int| 0 <= i < s.len() ==> #[trigger] s[i].0 != ip,
    ensures
        count_of(s, ip) == 0,
    decreases s.len(),
{
    if s.len() > 0 {
        lemma_count_absent(s.drop_last(), ip);
    }
}

proof fn lemma_count_at(s: Seq<(PeerAddr, usize)>, k: int, ip: PeerAddr)
    requires
        0 <= k < s.len(),
        s[k].0 == ip,
        forall|i: int, j: int| 0 <= i < j < s.len() ==> #[trigger] s[i].0 != #[trigger] s[j].0,
    ensures
        count_of(s, ip) == s[k].1,
    decreases s.len(),
{
    if k < s.len() - 1 {
        assert(s.last().0 != ip);
        lemma_count_at(s.drop_last(), k, ip);
    }
}

proof fn lemma_sum_ge_elem(s: Seq<(PeerAddr, usize)>, k: int)
    requires
        0 <= k < s.len(),
    ensures
        count_sum(s) >= s[k].1,
    decreases s.len(),
{
    if k < s.len() - 1 {
        lemma_sum_ge_elem(s.drop_last(), k);
    } else {
        lemma_sum_nonneg(s.drop_last());
    }
}

proof fn lemma_sum_nonneg(s: Seq<(PeerAddr, usize)>)
    ensures
        count_sum(s) >= 0,
    decreases s.len(),
{
    if s.len() > 0 {
        lemma_sum_nonneg(s.drop_last());
    }
}

proof fn lemma_update_sums(s: Seq<(PeerAddr, usize)>, k: int, c: usize)
    requires
        0 <= k < s.len(),
    ensures
        count_sum(s.update(k, (s[k].0, c))) == count_sum(s) - s[k].1 + c,
    decreases s.len(),
{
    let t = s.update(k, (s[k].0, c));
    if k < s.len() - 1 {
        lemma_update_sums(s.drop_last(), k, c);
        assert(t.drop_last() == s.drop_last().update(k, (s[k].0, c)));
    } else {
        assert(t.drop_last() == s.drop_last());
    }
}

proof fn lemma_update_counts(s: Seq<(PeerAddr, usize)>, k: int, c: usize, other: PeerAddr)
    requires
        0 <= k < s.len(),
        s[k].0 != other,
    ensures
        count_of(s.update(k, (s[k].0, c)), other) == count_of(s, other),
    decreases s.len(),
{
    let t = s.update(k, (s[k].0, c));
    if k < s.len() - 1 {
        lemma_update_counts(s.drop_last(), k, c, other);
        assert(t.drop_last() == s.drop_last().update(k, (s[k].0, c)));
    } else {
        assert(t.drop_last() == s.drop_last());
    }
}

proof fn lemma_remove_sums(s: Seq<(PeerAddr, usize)>, k: int)
    requires
        0 <= k < s.len(),
    ensures
        count_sum(s.remove(k)) == count_sum(s) - s[k].1,
    decreases s.len(),
{
    if k < s.len() - 1 {
        lemma_remove_sums(s.drop_last(), k);
        assert(s.remove(k).drop_last() == s.drop_last().remove(k));
    } else {
        assert(s.remove(k) == s.drop_last());
    }
}

proof fn lemma_remove_counts(s: Seq<(PeerAddr, usize)>, k: int, other: PeerAddr)
    requires
        0 <= k < s.len(),
        s[k].0 != other,
    ensures
        count_of(s.remove(k), other) == count_of(s, other),
    decreases s.len(),
{
    if k < s.len() - 1 {
        lemma_remove_counts(s.drop_last(), k, other);
        assert(s.remove(k).drop_last() == s.drop_last().remove(k));
        assert(s.remove(k).last() == s.last());
    } else {
        assert(s.remove(k) == s.drop_last());
    }
}

impl ConnCaps {
    /// Each address appears once with a positive count; the total is the sum
    /// of the counts and respects both caps.
    pub closed spec fn wf(&self) -> bool {
        let s = self.counts@;
        &&& forall|i: int, j: int| 0 <= i < j < s.len() ==> #[trigger] s[i].0 != #[trigger] s[j].0
        &&& forall|i: int| 0 <= i < s.len() ==> #[trigger] s[i].1 > 0
        &&& forall|i: int| 0 <= i < s.len() ==> #[trigger] s[i].1 <= self.limits.max_connections_per_ip
        &&& count_sum(s) == self.total
        &&& self.total <= self.limits.max_connections
    }

    /// Live connections from `ip`.
    pub closed spec fn live_from(&self, ip: PeerAddr) -> int {
        count_of(self.counts@, ip)
    }

    /// Live connections in total.
    pub closed spec fn live_total(&self) -> int {
        self.total as int
    }

    pub closed spec fn limits_view(&self) -> NetLimits {
        self.limits
    }

    pub fn new(limits: NetLimits) -> (c: Self)
        ensures
            c.wf(),
            c.limits_view() == limits,
            c.live_total() == 0,
            forall|ip: PeerAddr| c.live_from(ip) == 0,
    {
        ConnCaps { counts: Vec::new(), total: 0, limits }
    }

    fn find(&self, ip: PeerAddr) -> (res: Option<usize>)
        requires
            self.wf(),
        ensures
            match res {
                Some(k) => k < self.counts@.len() && self.counts@[k as int].0 == ip,
                None => forall|i: int| 0 <= i < self.counts@.len() ==> #[trigger] self.counts@[i].0
                    != ip,
            },
    {
        let mut i: usize = 0;
        while i < self.counts.len()
            invariant
                i <= self.counts@.len(),
                forall|j: int| 0 <= j < i ==> #[trigger] self.counts@[j].0 != ip,
            decreases self.counts@.len() - i,
        {
            if self.counts[i].0 == ip {
                return Some(i);
            }
            i = i + 1;
        }
        None
    }

    /// Live connections from `ip`.
    pub fn connections_from(&self, ip: PeerAddr) -> (n: usize)
        requires
            self.wf(),
        ensures
            n == self.live_from(ip),
    {
        let found = self.find(ip);
        proof {
            match found {
                Some(k) => lemma_count_at(self.counts@, k as int, ip),
                None => lemma_count_absent(self.counts@, ip),
            }
        }
        match found {
            Some(k) => self.counts[k].1,
            None => 0,
        }
    }

    /// Reserves a slot for a new connection from `ip`, unless the total cap
    /// or the per-address cap is already reached (the connection is then
    /// refused).
    pub fn try_admit(&mut self, ip: PeerAddr) -> (admitted: bool)
        requires
            old(self).wf(),
        ensures
            final(self).wf(),
            final(self).limits_view() == old(self).limits_view(),
            admitted == (old(self).live_total() < old(self).limits_view().max_connections
                && old(self).live_from(ip) < old(self).limits_view().max_connections_per_ip),
            final(self).live_total() == old(self).live_total() + if admitted {
                1int
            } else {
                0
            },
            final(self).live_from(ip) == old(self).live_from(ip) + if admitted {
                1int
            } else {
                0
            },
            forall|other: PeerAddr| other != ip ==> final(self).live_from(other) == old(self).live_from(other),
    {
        let found = self.find(ip);
        let ghost s = self.counts@;
        let per_ip: usize = match found {
            Some(k) => self.counts[k].1,
            None => 0,
        };
        proof {
            match found {
                Some(k) => lemma_count_at(s, k as int, ip),
                None => lemma_count_absent(s, ip),
            }
        }
        if self.total >= self.limits.max_connections || per_ip >= self.limits.max_connections_per_ip {
            return false;
        }
        match found {
            Some(k) => {
                let c = self.counts[k].1;
                self.counts.set(k, (ip, c + 1));
                proof {
                    lemma_update_sums(s, k as int, (c + 1) as usize);
                    assert forall|other: PeerAddr| other != ip implies count_of(self.counts@, other)
                        == count_of(s, other) by {
                        lemma_update_counts(s, k as int, (c + 1) as usize, other);
                    }
                    lemma_count_at(self.counts@, k as int, ip);
                }
            },
            None => {
                self.counts.push((ip, 1));
                proof {
                    assert(self.counts@.drop_last() == s);
                    assert forall|other: PeerAddr| other != ip implies count_of(self.counts@, other)
                        == count_of(s, other) by {
                        assert(self.counts@.last().0 == ip);
                    }
                }
            },
        }
        self.total = self.total + 1;
        true
    }

    /// Releases the slot of a connection from `ip` that has ended.
    pub fn release(&mut self, ip: PeerAddr)
        requires
            old(self).wf(),
            old(self).live_from(ip) > 0,
        ensures
            final(self).wf(),
            final(self).limits_view() == old(self).limits_view(),
            final(self).live_total() == old(self).live_total() - 1,
            final(self).live_from(ip) == old(self).live_from(ip) - 1,
            forall|other: PeerAddr| other != ip ==> final(self).live_from(other) == old(self).live_from(other),
    {
        let found = self.find(ip);
        let ghost s = self.counts@;
        match found {
            Some(k) => {
                proof {
                    lemma_count_at(s, k as int, ip);
                    lemma_sum_ge_elem(s, k as int);
                }
                let c = self.counts[k].1;
                if c == 1 {
                    self.counts.remove(k);
                    proof {
                        lemma_remove_sums(s, k as int);
                        assert forall|other: PeerAddr| other != ip implies count_of(self.counts@, other)
                            == count_of(s, other) by {
                            lemma_remove_counts(s, k as int, other);
                        }
                        assert forall|i: int| 0 <= i < self.counts@.len() implies #[trigger] self.counts@[i].0
                            != ip by {
                            if i < k {
                                assert(self.counts@[i] == s[i]);
                            } else {
                                assert(self.counts@[i] == s[i + 1]);
                            }
                        }
                        lemma_count_absent(self.counts@, ip);
                        assert forall|i: int, j: int| 0 <= i < j < self.counts@.len() implies #[trigger] self.counts@[i].0
                            != #[trigger] self.counts@[j].0 by {
                            let ii = if i < k { i } else { i + 1 };
                            let jj = if j < k { j } else { j + 1 };
                            assert(self.counts@[i] == s[ii]);
                            assert(self.counts@[j] == s[jj]);
                        }
                    }
                } else {
                    self.counts.set(k, (ip, c - 1));
                    proof {
                        lemma_update_sums(s, k as int, (c - 1) as usize);
                        assert forall|other: PeerAddr| other != ip implies count_of(self.counts@, other)
                            == count_of(s, other) by {
                            lemma_update_counts(s, k as int, (c - 1) as usize, other);
                        }
                        lemma_count_at(self.counts@, k as int, ip);
                    }
                }
                self.total = self.total - 1;
            },
            None => {
                proof {
                    lemma_count_absent(s, ip);
                }
            },
        }
    }
}

/// Cap law: a well-formed reservation table never holds more connections
/// from one address than the per-address cap, nor more in total than the
/// total cap.
pub proof fn lemma_caps_hold(c: &ConnCaps, ip: PeerAddr)
    requires
        c.wf(),
    ensures
        0 <= c.live_from(ip) <= c.limits_view().max_connections_per_ip,
        c.live_total() <= c.limits_view().max_connections,
{
    let s = c.counts@;
    if exists|k: int| 0 <= k < s.len() && s[k].0 == ip {
        let k = choose|k: int| 0 <= k < s.len() && s[k].0 == ip;
        lemma_count_at(s, k, ip);
    } else {
        lemma_count_absent(s, ip);
    }
}

} // verus!
