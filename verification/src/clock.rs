//! Clock-sync filter behind the client's published server-time offset:
//! windowed-minimum RTT sample selection, a least-squares drift-rate
//! estimate that projects the chosen sample forward to "now", and a slew
//! limiter on the published offset. Pure and network-free.
//!
//! All arithmetic is exact integer arithmetic: the drift slope is kept as
//! the rational `num / den` of the least-squares normal equations and the
//! projected correction is truncated toward zero.
use std::collections::VecDeque;
use vstd::prelude::*;

verus! {

/// Pings sent back to back when a session starts, to fill the window fast.
pub const SYNC_BURST_PINGS: u32 = 8;

/// Spacing of the start-up burst pings.
pub const SYNC_BURST_INTERVAL_MICROS: u64 = 100_000;

/// Spacing of the steady re-check pings.
pub const SYNC_INTERVAL_MICROS: u64 = 10_000_000;

/// Sliding window over which the lowest-RTT sample is the sync anchor.
pub const SYNC_WINDOW_MICROS: u64 = 90_000_000;

/// Maximum rate, in parts-per-million of elapsed local time, at which the
/// published offset may move toward a new target.
pub const MAX_SLEW_PPM: u64 = 2_000;

/// Readings below this bound (2^53 microseconds) keep every term of a
/// short window's drift estimate small (see `lemma_short_window_drift_fits`).
pub const CLOCK_MICROS_LIMIT: u64 = 0x20_0000_0000_0000;

/// One clock-sync ping/pong round-trip.
#[derive(Clone, Copy)]
pub struct ClockSample {
    /// Local (client-epoch) micros at which this sample was measured.
    pub t_local: u64,
    pub rtt: u64,
    /// Raw local-to-server offset implied by this sample alone.
    pub raw_offset: i64,
}

/// Clock-sync filter state.
pub struct ClockSync {
    samples: VecDeque<ClockSample>,
    offset: i64,
    rtt: u64,
    synced: bool,
    last_local: u64,
}

/// Offset implied by one pong: the server time plus half the round trip,
/// minus the local receive time, each taken as a signed 64-bit reading.
pub open spec fn raw_offset_of(t_local: u64, t_server: u64, rtt: u64) -> int {
    (t_server as i64) + ((rtt / 2) as i64) - (t_local as i64)
}

/// The raw offset is computable in 64-bit signed arithmetic: neither the
/// sum nor the difference overflows.
pub open spec fn raw_offset_defined(t_local: u64, t_server: u64, rtt: u64) -> bool {
    &&& i64::MIN <= (t_server as i64) + ((rtt / 2) as i64) <= i64::MAX
    &&& i64::MIN <= raw_offset_of(t_local, t_server, rtt) <= i64::MAX
}

/// Local micros elapsed from `last` to `t`; zero when time ran backwards.
pub open spec fn elapsed_since(last: u64, t: u64) -> int {
    if t >= last {
        t - last
    } else {
        0
    }
}

/// First local time still inside the window that ends at `t`.
pub open spec fn window_start(t: u64) -> int {
    if t >= SYNC_WINDOW_MICROS {
        t - SYNC_WINDOW_MICROS
    } else {
        0
    }
}

/// Drops, from the front, every sample older than `start`.
pub open spec fn prune(s: Seq<ClockSample>, start: int) -> Seq<ClockSample>
    decreases s.len(),
{
    if s.len() > 0 && s[0].t_local < start {
        prune(s.drop_first(), start)
    } else {
        s
    }
}

/// `i` is the first index holding the minimum RTT of `s`.
pub open spec fn is_first_min_rtt(s: Seq<ClockSample>, i: int) -> bool {
    &&& 0 <= i < s.len()
    &&& forall|j: int| 0 <= j < s.len() ==> s[i].rtt <= #[trigger] s[j].rtt
    &&& forall|j: int| 0 <= j < i ==> #[trigger] s[j].rtt > s[i].rtt
}

/// Index of the first lowest-RTT sample.
pub open spec fn best_index(s: Seq<ClockSample>) -> int {
    choose|i: int| is_first_min_rtt(s, i)
}

/// Abscissa of sample `i`: local time relative to the oldest sample.
pub open spec fn lsq_x(s: Seq<ClockSample>, i: int) -> int {
    s[i].t_local - s[0].t_local
}

/// Ordinate of sample `i`: raw offset relative to the oldest sample.
pub open spec fn lsq_y(s: Seq<ClockSample>, i: int) -> int {
    s[i].raw_offset - s[0].raw_offset
}

pub open spec fn sum_x(s: Seq<ClockSample>, k: nat) -> int
    decreases k,
{
    if k == 0 {
        0
    } else {
        sum_x(s, (k - 1) as nat) + lsq_x(s, k - 1)
    }
}

pub open spec fn sum_y(s: Seq<ClockSample>, k: nat) -> int
    decreases k,
{
    if k == 0 {
        0
    } else {
        sum_y(s, (k - 1) as nat) + lsq_y(s, k - 1)
    }
}

pub open spec fn sum_xy(s: Seq<ClockSample>, k: nat) -> int
    decreases k,
{
    if k == 0 {
        0
    } else {
        sum_xy(s, (k - 1) as nat) + lsq_x(s, k - 1) * lsq_y(s, k - 1)
    }
}

pub open spec fn sum_xx(s: Seq<ClockSample>, k: nat) -> int
    decreases k,
{
    if k == 0 {
        0
    } else {
        sum_xx(s, (k - 1) as nat) + lsq_x(s, k - 1) * lsq_x(s, k - 1)
    }
}

/// Numerator of the least-squares slope of raw offset against local time.
pub open spec fn slope_num(s: Seq<ClockSample>) -> int {
    s.len() * sum_xy(s, s.len()) - sum_x(s, s.len()) * sum_y(s, s.len())
}

/// Denominator of the least-squares slope.
pub open spec fn slope_den(s: Seq<ClockSample>) -> int {
    s.len() * sum_xx(s, s.len()) - sum_x(s, s.len()) * sum_x(s, s.len())
}

pub open spec fn abs_int(a: int) -> int {
    if a < 0 {
        -a
    } else {
        a
    }
}

/// Quotient truncated toward zero.
pub open spec fn trunc_div(a: int, b: int) -> int {
    if b == 0 {
        0
    } else if (a < 0) != (b < 0) {
        -(abs_int(a) / abs_int(b))
    } else {
        abs_int(a) / abs_int(b)
    }
}

/// The drift-rate projection of the anchor sample forward to `t_local`:
/// slope times the time since the anchor, truncated toward zero; zero with
/// fewer than two samples or a degenerate (all-equal) abscissa.
pub open spec fn drift_correction(s: Seq<ClockSample>, t_local: u64) -> int {
    if s.len() < 2 || slope_den(s) == 0 {
        0
    } else {
        trunc_div(slope_num(s) * (t_local - s[best_index(s)].t_local), slope_den(s))
    }
}

pub open spec fn clamp_int(v: int, lo: int, hi: int) -> int {
    if v < lo {
        lo
    } else if v > hi {
        hi
    } else {
        v
    }
}

/// The offset the filter steers toward: the anchor's raw offset plus the
/// drift projection, saturated to the `i64` range.
pub open spec fn sync_target(s: Seq<ClockSample>, t_local: u64) -> int {
    clamp_int(
        s[best_index(s)].raw_offset + drift_correction(s, t_local),
        i64::MIN as int,
        i64::MAX as int,
    )
}

/// `v` lies in the symmetric `i128` range, so that it and its negation
/// are both representable.
pub open spec fn in_i128(v: int) -> bool {
    -(i128::MAX as int) <= v <= i128::MAX as int
}

/// The first `k` terms of the least-squares sums over `s` fit in `i128`:
/// the four running sums after `k` samples, and the products of sample
/// `k - 1`.
pub open spec fn lsq_prefix_fits(s: Seq<ClockSample>, k: nat) -> bool {
    &&& in_i128(sum_x(s, k))
    &&& in_i128(sum_y(s, k))
    &&& in_i128(sum_xx(s, k))
    &&& in_i128(sum_xy(s, k))
    &&& k > 0 ==> in_i128(lsq_x(s, k - 1) * lsq_y(s, k - 1)) && in_i128(lsq_x(s, k - 1) * lsq_x(
        s,
        k - 1,
    ))
}

/// Every quantity of the least-squares drift estimate over `s`, projected
/// to `t_local`, fits in `i128`: each running sum and product, the products
/// and differences that make the slope's numerator and denominator, and the
/// numerator times the time since the anchor.
pub open spec fn drift_fits(s: Seq<ClockSample>, t_local: u64) -> bool {
    let n = s.len();
    &&& forall|k: nat| k <= n ==> #[trigger] lsq_prefix_fits(s, k)
    &&& in_i128(n * sum_xy(s, n))
    &&& in_i128(sum_x(s, n) * sum_y(s, n))
    &&& in_i128(slope_num(s))
    &&& in_i128(n * sum_xx(s, n))
    &&& in_i128(sum_x(s, n) * sum_x(s, n))
    &&& in_i128(slope_den(s))
    &&& slope_den(s) != 0 ==> in_i128(slope_num(s) * (t_local - s[best_index(s)].t_local))
}

/// Largest correction allowed after `elapsed` local micros (at least 1).
pub open spec fn slew_limit(elapsed: int) -> int {
    let step = elapsed * MAX_SLEW_PPM / 1_000_000;
    if step >= 1 {
        step
    } else {
        1
    }
}

/// One slew step from `current` toward `target`, moving at most `limit`.
pub open spec fn slew_toward(current: int, target: int, limit: int) -> int {
    current + clamp_int(target - current, -limit, limit)
}

pub open spec fn sorted_by_time(s: Seq<ClockSample>) -> bool {
    forall|i: int, j: int| 0 <= i <= j < s.len() ==> #[trigger] s[i].t_local <= #[trigger] s[j].t_local
}

/// A sample whose readings are below `CLOCK_MICROS_LIMIT` and whose raw
/// offset is below 2^54 in magnitude.
pub open spec fn sample_in_range(c: ClockSample) -> bool {
    &&& c.t_local < CLOCK_MICROS_LIMIT
    &&& c.rtt < CLOCK_MICROS_LIMIT
    &&& -0x40_0000_0000_0000 < c.raw_offset < 0x40_0000_0000_0000
}

proof fn lemma_first_min_unique(s: Seq<ClockSample>, a: int, b: int)
    requires
        is_first_min_rtt(s, a),
        is_first_min_rtt(s, b),
    ensures
        a == b,
{
    if a < b {
        assert(s[a].rtt > s[b].rtt);
        assert(s[b].rtt <= s[a].rtt);
        assert(s[a].rtt <= s[b].rtt);
    } else if b < a {
        assert(s[b].rtt > s[a].rtt);
        assert(s[b].rtt <= s[a].rtt);
    }
}

proof fn lemma_best_index_is(s: Seq<ClockSample>, i: int)
    requires
        is_first_min_rtt(s, i),
    ensures
        best_index(s) == i,
{
    let b = best_index(s);
    assert(is_first_min_rtt(s, b));
    lemma_first_min_unique(s, b, i);
}

proof fn lemma_prune_suffix(s: Seq<ClockSample>, start: int)
    ensures
        exists|k: int| 0 <= k <= s.len() && prune(s, start) == s.subrange(k, s.len() as int),
        s.len() > 0 && s.last().t_local >= start ==> prune(s, start).len() > 0
            && prune(s, start).last() == s.last(),
        prune(s, start).len() > 0 ==> prune(s, start)[0].t_local >= start,
    decreases s.len(),
{
    if s.len() > 0 && s[0].t_local < start {
        let t = s.drop_first();
        lemma_prune_suffix(t, start);
        let k = choose|k: int| 0 <= k <= t.len() && prune(t, start) == t.subrange(k, t.len() as int);
        assert(prune(s, start) == s.subrange(k + 1, s.len() as int));
        if s.len() > 0 && s.last().t_local >= start {
            assert(t.len() > 0);
            assert(t.last() == s.last());
        }
    } else {
        assert(prune(s, start) == s.subrange(0, s.len() as int));
    }
}

/// The samples of `h` taken at or after `start`, in their order.
pub open spec fn recent(h: Seq<ClockSample>, start: int) -> Seq<ClockSample>
    decreases h.len(),
{
    if h.len() == 0 {
        h
    } else if h.last().t_local >= start {
        recent(h.drop_last(), start).push(h.last())
    } else {
        recent(h.drop_last(), start)
    }
}

proof fn lemma_recent_all(s: Seq<ClockSample>, start: int)
    requires
        forall|i: int| 0 <= i < s.len() ==> #[trigger] s[i].t_local >= start,
    ensures
        recent(s, start) == s,
    decreases s.len(),
{
    if s.len() > 0 {
        let t = s.drop_last();
        assert forall|i: int| 0 <= i < t.len() implies #[trigger] t[i].t_local >= start by {
            assert(t[i] == s[i]);
        }
        lemma_recent_all(t, start);
        assert(s[s.len() - 1].t_local >= start);
        assert(t.push(s.last()) =~= s);
    }
}

proof fn lemma_recent_drop_first(s: Seq<ClockSample>, start: int)
    requires
        s.len() > 0,
        s[0].t_local < start,
    ensures
        recent(s, start) == recent(s.drop_first(), start),
    decreases s.len(),
{
    if s.len() == 1 {
        assert(s.drop_last() =~= s.drop_first());
    } else {
        let t = s.drop_last();
        assert(t[0] == s[0]);
        lemma_recent_drop_first(t, start);
        assert(s.drop_first().drop_last() =~= t.drop_first());
        assert(s.drop_first().last() == s.last());
    }
}

proof fn lemma_prune_is_recent(s: Seq<ClockSample>, start: int)
    requires
        sorted_by_time(s),
    ensures
        prune(s, start) == recent(s, start),
    decreases s.len(),
{
    if s.len() > 0 && s[0].t_local < start {
        let t = s.drop_first();
        assert(sorted_by_time(t)) by {
            assert forall|i: int, j: int| 0 <= i <= j < t.len() implies #[trigger] t[i].t_local
                <= #[trigger] t[j].t_local by {
                assert(t[i] == s[i + 1]);
                assert(t[j] == s[j + 1]);
            }
        }
        lemma_prune_is_recent(t, start);
        lemma_recent_drop_first(s, start);
    } else {
        assert forall|i: int| 0 <= i < s.len() implies #[trigger] s[i].t_local >= start by {
            assert(s[0].t_local <= s[i].t_local);
        }
        lemma_recent_all(s, start);
    }
}

proof fn lemma_recent_twice(h: Seq<ClockSample>, s0: int, s1: int)
    requires
        s0 <= s1,
    ensures
        recent(recent(h, s0), s1) == recent(h, s1),
    decreases h.len(),
{
    if h.len() > 0 {
        let r0 = recent(h.drop_last(), s0);
        lemma_recent_twice(h.drop_last(), s0, s1);
        if h.last().t_local >= s0 {
            assert(r0.push(h.last()).drop_last() =~= r0);
            assert(r0.push(h.last()).last() == h.last());
        }
    }
}

proof fn lemma_recent_sorted(h: Seq<ClockSample>, start: int, bound: int)
    requires
        sorted_by_time(h),
        forall|i: int| 0 <= i < h.len() ==> #[trigger] h[i].t_local <= bound,
    ensures
        sorted_by_time(recent(h, start)),
        forall|i: int| 0 <= i < recent(h, start).len() ==> #[trigger] recent(h, start)[i].t_local <= bound,
    decreases h.len(),
{
    if h.len() > 0 {
        let t = h.drop_last();
        let b2 = h.last().t_local as int;
        assert(sorted_by_time(t)) by {
            assert forall|i: int, j: int| 0 <= i <= j < t.len() implies #[trigger] t[i].t_local
                <= #[trigger] t[j].t_local by {
                assert(t[i] == h[i]);
                assert(t[j] == h[j]);
            }
        }
        assert forall|i: int| 0 <= i < t.len() implies #[trigger] t[i].t_local <= b2 by {
            assert(t[i] == h[i]);
            assert(h[i].t_local <= h[h.len() - 1].t_local);
        }
        lemma_recent_sorted(t, start, b2);
        let r = recent(t, start);
        assert(h[h.len() - 1].t_local <= bound);
        if h.last().t_local >= start {
            let p = r.push(h.last());
            assert(sorted_by_time(p)) by {
                assert forall|i: int, j: int| 0 <= i <= j < p.len() implies #[trigger] p[i].t_local
                    <= #[trigger] p[j].t_local by {
                    if j == p.len() - 1 {
                        if i < j {
                            assert(p[i] == r[i]);
                        }
                    } else {
                        assert(p[i] == r[i]);
                        assert(p[j] == r[j]);
                    }
                }
            }
            assert forall|i: int| 0 <= i < p.len() implies #[trigger] p[i].t_local <= bound by {
                if i < r.len() {
                    assert(p[i] == r[i]);
                }
            }
        }
    }
}

proof fn lemma_first_min_exists(s: Seq<ClockSample>)
    requires
        s.len() > 0,
    ensures
        is_first_min_rtt(s, best_index(s)),
    decreases s.len(),
{
    if s.len() == 1 {
        assert(is_first_min_rtt(s, 0));
    } else {
        let t = s.drop_last();
        lemma_first_min_exists(t);
        let b = best_index(t);
        if s.last().rtt < t[b].rtt {
            assert forall|j: int| 0 <= j < s.len() implies s[s.len() - 1].rtt <= #[trigger] s[j].rtt by {
                if j < t.len() {
                    assert(s[j] == t[j]);
                }
            }
            assert forall|j: int| 0 <= j < s.len() - 1 implies #[trigger] s[j].rtt > s[s.len() - 1].rtt by {
                assert(s[j] == t[j]);
            }
            assert(is_first_min_rtt(s, s.len() - 1));
        } else {
            assert forall|j: int| 0 <= j < s.len() implies s[b].rtt <= #[trigger] s[j].rtt by {
                assert(s[b] == t[b]);
                if j < t.len() {
                    assert(s[j] == t[j]);
                }
            }
            assert forall|j: int| 0 <= j < b implies #[trigger] s[j].rtt > s[b].rtt by {
                assert(s[j] == t[j]);
                assert(s[b] == t[b]);
            }
            assert(is_first_min_rtt(s, b));
        }
    }
}

proof fn lemma_recent_contains(h: Seq<ClockSample>, start: int, y: ClockSample)
    ensures
        recent(h, start).contains(y) <==> (h.contains(y) && y.t_local >= start),
    decreases h.len(),
{
    if h.len() > 0 {
        let t = h.drop_last();
        lemma_recent_contains(t, start, y);
        assert(h =~= t.push(h.last()));
        if h.contains(y) && y != h.last() {
            let k = choose|k: int| 0 <= k < h.len() && h[k] == y;
            assert(k < t.len());
            assert(t[k] == y);
        }
        if t.contains(y) {
            let k = choose|k: int| 0 <= k < t.len() && t[k] == y;
            assert(h[k] == y);
        }
        if h.last().t_local >= start {
            let r = recent(t, start);
            if r.push(h.last()).contains(y) && y != h.last() {
                let k = choose|k: int| 0 <= k < r.push(h.last()).len() && r.push(h.last())[k] == y;
                assert(k < r.len());
                assert(r[k] == y);
            }
            if r.contains(y) {
                let k = choose|k: int| 0 <= k < r.len() && r[k] == y;
                assert(r.push(h.last())[k] == y);
            }
            assert(r.push(h.last())[r.len() as int] == h.last());
            assert(h[h.len() - 1] == h.last());
        }
    }
}

/// Windowed minimum over the whole history, with a 90-second window. Let
/// the filter's window hold the samples of `history` (fed with local times
/// that never run backwards, the last at `last`) taken within 90 s before
/// `last` (as a new filter's does: no samples, nothing recent). Then after
/// the window step that `on_pong` takes for a sample `x` no older than
/// `last`, the window holds exactly the samples fed so far, `x` included,
/// whose local time is at least `x.t_local - 90_000_000` (at least 0), in
/// feeding order; and its first lowest-RTT sample, whose RTT `on_pong`
/// publishes, has an RTT no greater than that of any of them.
pub proof fn lemma_window_is_recent_history(
    history: Seq<ClockSample>,
    window: Seq<ClockSample>,
    last: u64,
    x: ClockSample,
)
    requires
        sorted_by_time(history),
        forall|i: int| 0 <= i < history.len() ==> #[trigger] history[i].t_local <= last,
        x.t_local >= last,
        window == recent(history, if last >= 90_000_000 { last - 90_000_000 } else { 0 }),
    ensures
        prune(window.push(x), window_start(x.t_local)) == recent(
            history.push(x),
            if x.t_local >= 90_000_000 {
                x.t_local - 90_000_000
            } else {
                0
            },
        ),
        forall|y: ClockSample|
            prune(window.push(x), window_start(x.t_local)).contains(y) <==> (history.push(x).contains(y)
                && y.t_local + 90_000_000 >= x.t_local),
        is_first_min_rtt(
            prune(window.push(x), window_start(x.t_local)),
            best_index(prune(window.push(x), window_start(x.t_local))),
        ),
{
    let s0 = window_start(last);
    let s1 = window_start(x.t_local);
    assert(s0 == if last >= 90_000_000 { last - 90_000_000 } else { 0 });
    assert(s1 == if x.t_local >= 90_000_000 { x.t_local - 90_000_000 } else { 0 });
    let h2 = history.push(x);
    assert(s0 <= s1);
    assert(h2.drop_last() =~= history);
    assert(h2.last() == x);
    assert(x.t_local >= s0);
    assert(recent(h2, s0) == window.push(x));
    assert(sorted_by_time(h2)) by {
        assert forall|i: int, j: int| 0 <= i <= j < h2.len() implies #[trigger] h2[i].t_local
            <= #[trigger] h2[j].t_local by {
            if j == h2.len() - 1 {
                if i < j {
                    assert(h2[i] == history[i]);
                }
            } else {
                assert(h2[i] == history[i]);
                assert(h2[j] == history[j]);
            }
        }
    }
    assert forall|i: int| 0 <= i < h2.len() implies #[trigger] h2[i].t_local <= x.t_local by {
        if i < history.len() {
            assert(h2[i] == history[i]);
        }
    }
    lemma_recent_sorted(h2, s0, x.t_local as int);
    lemma_prune_is_recent(window.push(x), s1);
    lemma_recent_twice(h2, s0, s1);
    let w = prune(window.push(x), s1);
    assert(x.t_local >= s1);
    assert(recent(h2, s1) == recent(history, s1).push(x));
    assert forall|y: ClockSample| w.contains(y) <==> (h2.contains(y) && y.t_local + 90_000_000 >= x.t_local) by {
        lemma_recent_contains(h2, s1, y);
    }
    lemma_first_min_exists(w);
}

/// Anchor law: in a nonempty window, the sample `on_pong` anchors on (and
/// whose RTT it publishes) is in the window, has an RTT no greater than any
/// sample of the window, and comes before every other sample with that RTT.
pub proof fn lemma_anchor_is_lowest_rtt(s: Seq<ClockSample>)
    requires
        s.len() > 0,
    ensures
        0 <= best_index(s) < s.len(),
        forall|j: int| 0 <= j < s.len() ==> s[best_index(s)].rtt <= #[trigger] s[j].rtt,
        forall|j: int| 0 <= j < best_index(s) ==> #[trigger] s[j].rtt != s[best_index(s)].rtt,
{
    lemma_first_min_exists(s);
    let b = best_index(s);
    assert forall|j: int| 0 <= j < b implies #[trigger] s[j].rtt != s[b].rtt by {
        assert(s[j].rtt > s[b].rtt);
    }
}

/// Slew law: one step from `current` toward `target` after `elapsed` local
/// micros moves by at most 2000 ppm of the elapsed time (at least 1 µs),
/// never past the target; a target within that reach is reached, and one
/// beyond it is approached by exactly that much.
pub proof fn lemma_slew_step(current: int, target: int, elapsed: int)
    requires
        elapsed >= 0,
    ensures
        ({
            let reach = if elapsed * 2_000 / 1_000_000 >= 1 { elapsed * 2_000 / 1_000_000 } else { 1 };
            let next = slew_toward(current, target, slew_limit(elapsed));
            &&& abs_int(next - current) <= reach
            &&& (current <= next <= target || target <= next <= current)
            &&& abs_int(target - current) <= reach ==> next == target
            &&& abs_int(target - current) > reach ==> abs_int(next - current) == reach
        }),
{
}

/// Raw-offset law: for readings below 2^63 (so that they are their own
/// signed values), the offset one pong implies is the server time plus half
/// the round trip (rounded down) minus the local receive time.
pub proof fn lemma_raw_offset(t_local: u64, t_server: u64, rtt: u64)
    requires
        t_local < 0x8000_0000_0000_0000,
        t_server < 0x8000_0000_0000_0000,
    ensures
        raw_offset_of(t_local, t_server, rtt) == t_server + rtt / 2 - t_local,
{
}

proof fn lemma_sums_flat(s: Seq<ClockSample>, k: nat)
    requires
        k <= s.len(),
        forall|i: int| 0 <= i < s.len() ==> #[trigger] s[i].raw_offset == s[0].raw_offset,
    ensures
        sum_y(s, k) == 0,
        sum_xy(s, k) == 0,
    decreases k,
{
    if k > 0 {
        lemma_sums_flat(s, (k - 1) as nat);
        assert(s[k - 1].raw_offset == s[0].raw_offset);
        assert(lsq_y(s, k - 1) == 0);
        assert(lsq_x(s, k - 1) * lsq_y(s, k - 1) == 0) by (nonlinear_arith)
            requires
                lsq_y(s, k - 1) == 0,
        ;
    }
}

/// A window without drift keeps its offset: when every sample of the
/// window implies the same raw offset, the target is that offset, whatever
/// the local times and the time it is projected to.
pub proof fn lemma_flat_window_target(s: Seq<ClockSample>, t_local: u64)
    requires
        s.len() > 0,
        forall|i: int| 0 <= i < s.len() ==> #[trigger] s[i].raw_offset == s[0].raw_offset,
    ensures
        sync_target(s, t_local) == s[0].raw_offset,
{
    lemma_sums_flat(s, s.len());
    lemma_first_min_exists(s);
    let b = best_index(s);
    assert(s[b].raw_offset == s[0].raw_offset);
    let n = s.len();
    assert(n * sum_xy(s, n) == 0) by (nonlinear_arith)
        requires
            sum_xy(s, n) == 0,
    ;
    assert(sum_x(s, n) * sum_y(s, n) == 0) by (nonlinear_arith)
        requires
            sum_y(s, n) == 0,
    ;
    assert(slope_num(s) == 0);
    let dt = t_local - s[b].t_local;
    assert(slope_num(s) * dt == 0) by (nonlinear_arith)
        requires
            slope_num(s) == 0,
    ;
    assert(drift_correction(s, t_local) == 0);
}

/// Two-sample drift law: with two samples taken at different local times,
/// the target is the anchor's raw offset plus the slope between the two
/// samples (raw-offset change over local-time change) times the time from
/// the anchor to `t_local`, the quotient truncated toward zero, saturated to
/// the `i64` range.
pub proof fn lemma_two_sample_target(s: Seq<ClockSample>, t_local: u64)
    requires
        s.len() == 2,
        s[0].t_local != s[1].t_local,
    ensures
        ({
            let dx = s[1].t_local - s[0].t_local;
            let dy = s[1].raw_offset - s[0].raw_offset;
            let b = best_index(s);
            let p = dy * (t_local - s[b].t_local);
            let q = if (p < 0) == (dx < 0) || p == 0 {
                abs_int(p) / abs_int(dx)
            } else {
                -(abs_int(p) / abs_int(dx))
            };
            let v = s[b].raw_offset + q;
            &&& b == 0 || b == 1
            &&& sync_target(s, t_local) == if v > i64::MAX {
                i64::MAX as int
            } else if v < i64::MIN {
                i64::MIN as int
            } else {
                v
            }
        }),
{
    lemma_first_min_exists(s);
    let b = best_index(s);
    let x1 = lsq_x(s, 1);
    let y1 = lsq_y(s, 1);
    assert(lsq_x(s, 0) == 0);
    assert(lsq_y(s, 0) == 0);
    assert(sum_x(s, 0) == 0);
    assert(sum_y(s, 0) == 0);
    assert(sum_xx(s, 0) == 0);
    assert(sum_xy(s, 0) == 0);
    assert(sum_x(s, 1) == sum_x(s, 0) + lsq_x(s, 0));
    assert(sum_y(s, 1) == sum_y(s, 0) + lsq_y(s, 0));
    assert(sum_x(s, 1) == 0);
    assert(sum_y(s, 1) == 0);
    assert(sum_xx(s, 1) == 0) by (nonlinear_arith)
        requires
            sum_xx(s, 1) == sum_xx(s, 0) + lsq_x(s, 0) * lsq_x(s, 0),
            sum_xx(s, 0) == 0,
            lsq_x(s, 0) == 0,
    ;
    assert(sum_xy(s, 1) == 0) by (nonlinear_arith)
        requires
            sum_xy(s, 1) == sum_xy(s, 0) + lsq_x(s, 0) * lsq_y(s, 0),
            sum_xy(s, 0) == 0,
            lsq_x(s, 0) == 0,
    ;
    assert(sum_x(s, 2) == x1);
    assert(sum_y(s, 2) == y1);
    assert(sum_xx(s, 2) == x1 * x1);
    assert(sum_xy(s, 2) == x1 * y1);
    assert(slope_num(s) == x1 * y1) by (nonlinear_arith)
        requires
            slope_num(s) == 2 * (x1 * y1) - x1 * y1,
    ;
    assert(slope_den(s) == x1 * x1) by (nonlinear_arith)
        requires
            slope_den(s) == 2 * (x1 * x1) - x1 * x1,
    ;
    assert(x1 != 0);
    assert(x1 * x1 > 0) by (nonlinear_arith)
        requires
            x1 != 0,
    ;
    let dt = t_local - s[b].t_local;
    let p = y1 * dt;
    lemma_trunc_div_cancel(p, x1);
    assert(slope_num(s) * dt == p * x1) by (nonlinear_arith)
        requires
            slope_num(s) == x1 * y1,
            p == y1 * dt,
    ;
}

/// Truncated division cancels a common factor: `(p * d) / (d * d)`,
/// truncated toward zero, is `p / d` truncated toward zero.
proof fn lemma_trunc_div_cancel(p: int, d: int)
    requires
        d != 0,
    ensures
        trunc_div(p * d, d * d) == if (p < 0) == (d < 0) || p == 0 {
            abs_int(p) / abs_int(d)
        } else {
            -(abs_int(p) / abs_int(d))
        },
{
    let ap = abs_int(p);
    let ad = abs_int(d);
    assert(abs_int(p * d) == ap * ad) by (nonlinear_arith)
        requires
            ap == abs_int(p),
            ad == abs_int(d),
    ;
    assert(abs_int(d * d) == ad * ad) by (nonlinear_arith)
        requires
            ad == abs_int(d),
    ;
    assert(ad > 0);
    assert((ap * ad) / (ad * ad) == ap / ad) by (nonlinear_arith)
        requires
            ad > 0,
            ap >= 0,
    {
        vstd::arithmetic::div_mod::lemma_div_denominator(ap * ad, ad, ad);
        vstd::arithmetic::div_mod::lemma_div_by_multiple(ap, ad);
        assert((ap * ad) / ad == ap);
    }
    assert(d * d > 0) by (nonlinear_arith)
        requires
            d != 0,
    ;
    if p == 0 {
        assert(p * d == 0);
    } else {
        assert((p * d < 0) == ((p < 0) != (d < 0))) by (nonlinear_arith)
            requires
                p != 0,
                d != 0,
        ;
    }
}

impl ClockSync {
    /// Well-formedness: an unsynced filter holds nothing; a synced one holds
    /// a window ending at the last sample, and publishes the RTT of its
    /// first lowest-RTT sample.
    pub closed spec fn wf(&self) -> bool {
        let s = self.samples@;
        &&& if self.synced {
            &&& s.len() > 0
            &&& s.last().t_local == self.last_local
            &&& self.rtt == s[best_index(s)].rtt
        } else {
            &&& s.len() == 0
            &&& self.offset == 0
            &&& self.rtt == 0
            &&& self.last_local == 0
        }
    }

    /// The samples currently inside the window, oldest first.
    pub closed spec fn window(&self) -> Seq<ClockSample> {
        self.samples@
    }

    pub closed spec fn is_synced(&self) -> bool {
        self.synced
    }

    /// The published local-to-server offset (meaningful once synced).
    pub closed spec fn published_offset(&self) -> i64 {
        self.offset
    }

    /// The published RTT (meaningful once synced).
    pub closed spec fn published_rtt(&self) -> u64 {
        self.rtt
    }

    /// Local time of the last sample fed in.
    pub closed spec fn last_local_time(&self) -> u64 {
        self.last_local
    }

    pub fn new() -> (res: Self)
        ensures
            res.wf(),
            !res.is_synced(),
            res.window().len() == 0,
            res.last_local_time() == 0,
    {
        ClockSync { samples: VecDeque::new(), offset: 0, rtt: 0, synced: false, last_local: 0 }
    }

    /// Feed one pong sample: `t_local` is the local micros at which it was
    /// received, `t_server` and `rtt` come off the wire. Readings are taken
    /// as signed 64-bit values; local time that runs backwards counts as no
    /// time elapsed.
    #[verifier::spinoff_prover]
    #[verifier::rlimit(50)]
    pub fn on_pong(&mut self, t_local: u64, t_server: u64, rtt: u64)
        requires
            old(self).wf(),
            raw_offset_defined(t_local, t_server, rtt),
        ensures
            final(self).wf(),
            final(self).is_synced(),
            final(self).window() == prune(
                old(self).window().push(
                    ClockSample {
                        t_local,
                        rtt,
                        raw_offset: raw_offset_of(t_local, t_server, rtt) as i64,
                    },
                ),
                window_start(t_local),
            ),
            final(self).last_local_time() == t_local,
            final(self).published_rtt() == final(self).window()[best_index(final(self).window())].rtt,
            is_first_min_rtt(final(self).window(), best_index(final(self).window())),
            !old(self).is_synced() ==> final(self).published_offset() == raw_offset_of(t_local, t_server, rtt),
            old(self).is_synced() && drift_fits(final(self).window(), t_local)
                ==> final(self).published_offset() == slew_toward(
                old(self).published_offset() as int,
                sync_target(final(self).window(), t_local),
                slew_limit(elapsed_since(old(self).last_local_time(), t_local)),
            ),
            old(self).is_synced() ==> abs_int(final(self).published_offset() - old(self).published_offset())
                <= slew_limit(elapsed_since(old(self).last_local_time(), t_local)),
    {
        let ts: i64 = t_server as i64;
        let half: i64 = (rtt / 2) as i64;
        let tl: i64 = t_local as i64;
        let raw_offset: i64 = (ts + half) - tl;
        let sample = ClockSample { t_local, rtt, raw_offset };
        let ghost old_samples = self.samples@;
        self.samples.push_back(sample);
        let ghost pushed = self.samples@;
        assert(pushed == old_samples.push(sample));
        let start: u64 = t_local.saturating_sub(SYNC_WINDOW_MICROS);
        assert(start == window_start(t_local));
        while self.samples.len() > 0 && self.samples[0].t_local < start
            invariant
                prune(self.samples@, start as int) == prune(pushed, start as int),
                self.synced == old(self).synced,
                self.last_local == old(self).last_local,
                self.offset == old(self).offset,
            decreases self.samples@.len(),
        {
            let ghost before = self.samples@;
            self.samples.pop_front();
            assert(self.samples@ == before.drop_first());
        }
        let ghost s = self.samples@;
        assert(s == prune(pushed, start as int));
        proof {
            lemma_prune_suffix(pushed, start as int);
        }
        assert(s.len() > 0);
        assert(s.last() == sample);
        // Windowed minimum: first lowest-RTT sample still in the window.
        let n = self.samples.len();
        let mut best: usize = 0;
        let mut i: usize = 1;
        while i < n
            invariant
                n == self.samples@.len(),
                s == self.samples@,
                1 <= i <= n,
                best < i,
                forall|j: int| 0 <= j < i ==> s[best as int].rtt <= #[trigger] s[j].rtt,
                forall|j: int| 0 <= j < best ==> #[trigger] s[j].rtt > s[best as int].rtt,
                self.synced == old(self).synced,
                self.last_local == old(self).last_local,
                self.offset == old(self).offset,
            decreases n - i,
        {
            if self.samples[i].rtt < self.samples[best].rtt {
                best = i;
            }
            i = i + 1;
        }
        proof {
            lemma_best_index_is(s, best as int);
        }
        let best_raw = self.samples[best].raw_offset;
        let best_rtt = self.samples[best].rtt;
        let drift = drift_exec(&self.samples, t_local, best);
        let d: i128 = if drift > 0x1_0000_0000_0000_0000 {
            0x1_0000_0000_0000_0000
        } else if drift < -0x1_0000_0000_0000_0000 {
            -0x1_0000_0000_0000_0000
        } else {
            drift
        };
        let sum: i128 = best_raw as i128 + d;
        let target: i64 = if sum > i64::MAX as i128 {
            i64::MAX
        } else if sum < i64::MIN as i128 {
            i64::MIN
        } else {
            sum as i64
        };
        assert(drift_fits(s, t_local) ==> target == sync_target(s, t_local));
        if !self.synced {
            assert(s.len() == 1);
            self.offset = target;
            self.synced = true;
        } else {
            let elapsed: u64 = t_local.saturating_sub(self.last_local);
            assert(elapsed == elapsed_since(self.last_local, t_local));
            let step0: u128 = elapsed as u128 * 2_000 / 1_000_000;
            assert(step0 <= 0x1_0000_0000_0000_0000int / 500) by (nonlinear_arith)
                requires
                    elapsed < 0x1_0000_0000_0000_0000int,
                    step0 == elapsed * 2_000 / 1_000_000,
            ;
            let max_step: i64 = if step0 >= 1 {
                step0 as i64
            } else {
                1
            };
            assert(max_step == slew_limit(elapsed as int));
            let delta: i128 = target as i128 - self.offset as i128;
            let clamped: i128 = if delta < -(max_step as i128) {
                -(max_step as i128)
            } else if delta > max_step as i128 {
                max_step as i128
            } else {
                delta
            };
            self.offset = (self.offset as i128 + clamped) as i64;
        }
        self.rtt = best_rtt;
        self.last_local = t_local;
    }

    /// The published offset, once at least one sample has landed.
    pub fn offset(&self) -> (res: Option<i64>)
        ensures
            res == (if self.is_synced() {
                Some(self.published_offset())
            } else {
                None::<i64>
            }),
    {
        if self.synced {
            Some(self.offset)
        } else {
            None
        }
    }

    /// RTT of the current window's best sample, once synced.
    pub fn rtt(&self) -> (res: Option<u64>)
        ensures
            res == (if self.is_synced() {
                Some(self.published_rtt())
            } else {
                None::<u64>
            }),
    {
        if self.synced {
            Some(self.rtt)
        } else {
            None
        }
    }
}

proof fn lemma_mul_within(a: int, b: int, ba: int, bb: int)
    by (nonlinear_arith)
    requires
        0 <= ba,
        0 <= bb,
        -ba <= a <= ba,
        -bb <= b <= bb,
    ensures
        -(ba * bb) <= a * b <= ba * bb,
{
}

/// A time-ordered window of samples taken within `SYNC_WINDOW_MICROS`
/// before `t_local`, every reading below `CLOCK_MICROS_LIMIT` and every raw
/// offset below 2^54 in magnitude.
pub open spec fn window_before(s: Seq<ClockSample>, t_local: u64) -> bool {
    &&& sorted_by_time(s)
    &&& forall|i: int| 0 <= i < s.len() ==> #[trigger] sample_in_range(s[i])
    &&& s.len() > 0 ==> s[0].t_local >= window_start(t_local) && s.last().t_local <= t_local
    &&& t_local < CLOCK_MICROS_LIMIT
}

proof fn lemma_lsq_bounds(s: Seq<ClockSample>, t_local: u64, k: nat)
    requires
        window_before(s, t_local),
        k <= s.len(),
    ensures
        0 <= sum_x(s, k) <= k * 90_000_000,
        -(k * 0x80_0000_0000_0000) <= sum_y(s, k) <= k * 0x80_0000_0000_0000,
        0 <= sum_xx(s, k) <= k * (90_000_000int * 90_000_000),
        -(k * (90_000_000int * 0x80_0000_0000_0000)) <= sum_xy(s, k) <= k * (90_000_000int
            * 0x80_0000_0000_0000),
        k > 0 ==> -(90_000_000int * 0x80_0000_0000_0000) <= lsq_x(s, k - 1) * lsq_y(s, k - 1)
            <= 90_000_000int * 0x80_0000_0000_0000,
        k > 0 ==> 0 <= lsq_x(s, k - 1) * lsq_x(s, k - 1) <= 90_000_000int * 90_000_000,
    decreases k,
{
    if k > 0 {
        let i = k - 1;
        lemma_lsq_bounds(s, t_local, (k - 1) as nat);
        assert(s[0].t_local <= s[i].t_local);
        assert(s[i].t_local <= s[s.len() - 1].t_local);
        assert(sample_in_range(s[i]));
        assert(sample_in_range(s[0]));
        let x = lsq_x(s, i);
        let y = lsq_y(s, i);
        assert(0 <= x <= 90_000_000);
        assert(-0x80_0000_0000_0000 <= y <= 0x80_0000_0000_0000);
        lemma_mul_within(x, y, 90_000_000, 0x80_0000_0000_0000);
        lemma_mul_within(x, x, 90_000_000, 90_000_000);
        assert(x * x >= 0) by (nonlinear_arith);
    }
}

/// A window of at most 256 samples always fits: for it the drift estimate,
/// and so the offset `on_pong` steers toward, is exact.
pub proof fn lemma_short_window_drift_fits(s: Seq<ClockSample>, t_local: u64)
    requires
        window_before(s, t_local),
        s.len() <= 256,
    ensures
        drift_fits(s, t_local),
{
    let n = s.len();
    let w: int = 90_000_000;
    let yb: int = 0x80_0000_0000_0000;
    assert forall|k: nat| k <= n implies #[trigger] lsq_prefix_fits(s, k) by {
        lemma_lsq_bounds(s, t_local, k);
    }
    lemma_lsq_bounds(s, t_local, n);
    lemma_mul_within(n as int, sum_xy(s, n), 256, 256 * (w * yb));
    lemma_mul_within(sum_x(s, n), sum_y(s, n), 256 * w, 256 * yb);
    lemma_mul_within(n as int, sum_xx(s, n), 256, 256 * (w * w));
    lemma_mul_within(sum_x(s, n), sum_x(s, n), 256 * w, 256 * w);
    if n > 0 {
        lemma_first_min_exists(s);
        let b = best_index(s);
        assert(s[0].t_local <= s[b].t_local);
        let dt = t_local - s[b].t_local;
        assert(0 <= dt <= w);
        lemma_mul_within(slope_num(s), dt, 2 * (256 * 256 * (w * yb)), w);
    }
}

/// Exact drift projection over a window: the least-squares sums are
/// accumulated in `i128`; a window whose estimate does not fit there
/// projects nothing.
fn drift_exec(samples: &VecDeque<ClockSample>, t_local: u64, best: usize) -> (d: i128)
    requires
        samples@.len() > 0,
        best < samples@.len(),
        best_index(samples@) == best,
    ensures
        samples@.len() < 2 ==> d == 0,
        drift_fits(samples@, t_local) ==> d == drift_correction(samples@, t_local),
{
    let ghost s = samples@;
    let n = samples.len();
    if n < 2 {
        return 0;
    }
    let t0 = samples[0].t_local;
    let r0 = samples[0].raw_offset;
    let mut sx: i128 = 0;
    let mut sy: i128 = 0;
    let mut sxx: i128 = 0;
    let mut sxy: i128 = 0;
    let mut i: usize = 0;
    while i < n
        invariant
            s == samples@,
            n == s.len(),
            n >= 2,
            t0 == s[0].t_local,
            r0 == s[0].raw_offset,
            0 <= i <= n,
            sx == sum_x(s, i as nat),
            sy == sum_y(s, i as nat),
            sxx == sum_xx(s, i as nat),
            sxy == sum_xy(s, i as nat),
        decreases n - i,
    {
        let x: i128 = samples[i].t_local as i128 - t0 as i128;
        let y: i128 = samples[i].raw_offset as i128 - r0 as i128;
        assert(x == lsq_x(s, i as int));
        assert(y == lsq_y(s, i as int));
        let ghost k: nat = (i + 1) as nat;
        let xy = match x.checked_mul(y) {
            Some(v) => v,
            None => {
                assert(!lsq_prefix_fits(s, k));
                return 0;
            },
        };
        let xx = match x.checked_mul(x) {
            Some(v) => v,
            None => {
                assert(!lsq_prefix_fits(s, k));
                return 0;
            },
        };
        let nsx = match sx.checked_add(x) {
            Some(v) => v,
            None => {
                assert(!lsq_prefix_fits(s, k));
                return 0;
            },
        };
        let nsy = match sy.checked_add(y) {
            Some(v) => v,
            None => {
                assert(!lsq_prefix_fits(s, k));
                return 0;
            },
        };
        let nsxx = match sxx.checked_add(xx) {
            Some(v) => v,
            None => {
                assert(!lsq_prefix_fits(s, k));
                return 0;
            },
        };
        let nsxy = match sxy.checked_add(xy) {
            Some(v) => v,
            None => {
                assert(!lsq_prefix_fits(s, k));
                return 0;
            },
        };
        sx = nsx;
        sy = nsy;
        sxx = nsxx;
        sxy = nsxy;
        i = i + 1;
    }
    let nn: i128 = n as i128;
    let a1 = match nn.checked_mul(sxy) {
        Some(v) => v,
        None => {
            return 0;
        },
    };
    let a2 = match sx.checked_mul(sy) {
        Some(v) => v,
        None => {
            return 0;
        },
    };
    let num = match a1.checked_sub(a2) {
        Some(v) => v,
        None => {
            return 0;
        },
    };
    let b1 = match nn.checked_mul(sxx) {
        Some(v) => v,
        None => {
            return 0;
        },
    };
    let b2 = match sx.checked_mul(sx) {
        Some(v) => v,
        None => {
            return 0;
        },
    };
    let den = match b1.checked_sub(b2) {
        Some(v) => v,
        None => {
            return 0;
        },
    };
    assert(num == slope_num(s) && den == slope_den(s));
    if den == 0 {
        return 0;
    }
    let dt: i128 = t_local as i128 - samples[best].t_local as i128;
    let prod = match num.checked_mul(dt) {
        Some(v) => v,
        None => {
            return 0;
        },
    };
    if prod == i128::MIN || den == i128::MIN {
        return 0;
    }
    let ua: u128 = if prod < 0 {
        (-prod) as u128
    } else {
        prod as u128
    };
    let ub: u128 = if den < 0 {
        (-den) as u128
    } else {
        den as u128
    };
    let q: u128 = ua / ub;
    assert(q <= ua) by (nonlinear_arith)
        requires
            ub >= 1,
            q == ua / ub,
    ;
    if (prod < 0) != (den < 0) {
        -(q as i128)
    } else {
        q as i128
    }
}

} // verus!
