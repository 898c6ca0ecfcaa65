//! Delay stage of the network conditioner: items carry a delivery deadline
//! and leave in deadline order, not enqueue order, with ties broken by
//! arrival order. That is what lets jitter reorder frames: a later item
//! with a smaller delay overtakes an earlier one.
use vstd::prelude::*;

verus! {

/// One pending item: its deadline, its arrival number, and the item.
pub struct Pending<T> {
    pub at: u64,
    pub seq: u64,
    pub item: T,
}

/// `a` leaves no later than `b`: earlier deadline, or the same deadline
/// and earlier arrival.
pub open spec fn leaves_before<T>(a: Pending<T>, b: Pending<T>) -> bool {
    a.at < b.at || (a.at == b.at && a.seq <= b.seq)
}

/// `s[k]` is the next item to leave.
pub open spec fn is_next<T>(s: Seq<Pending<T>>, k: int) -> bool {
    0 <= k < s.len() && forall|j: int| 0 <= j < s.len() ==> leaves_before(s[k], #[trigger] s[j])
}

/// Pending items ordered for release by deadline.
pub struct DeadlineQueue<T> {
    entries: Vec<Pending<T>>,
    next_seq: u64,
}

impl<T> DeadlineQueue<T> {
    /// Arrival numbers are distinct and below the next one to hand out.
    pub closed spec fn wf(&self) -> bool {
        &&& forall|i: int| 0 <= i < self.entries@.len() ==> #[trigger] self.entries@[i].seq < self.next_seq
        &&& forall|i: int, j: int|
            0 <= i < j < self.entries@.len() ==> #[trigger] self.entries@[i].seq != #[trigger] self.entries@[j].seq
    }

    /// The pending items, in no particular order.
    pub closed spec fn pending(&self) -> Seq<Pending<T>> {
        self.entries@
    }

    /// Arrival number the next pushed item receives.
    pub closed spec fn next_arrival(&self) -> u64 {
        self.next_seq
    }

    pub fn new() -> (q: Self)
        ensures
            q.wf(),
            q.pending().len() == 0,
            q.next_arrival() == 0,
    {
        DeadlineQueue { entries: Vec::new(), next_seq: 0 }
    }

    pub fn len(&self) -> (n: usize)
        ensures
            n == self.pending().len(),
    {
        self.entries.len()
    }

    /// The arrival number the next pushed item will receive.
    pub fn next_arrival_number(&self) -> (n: u64)
        ensures
            n == self.next_arrival(),
    {
        self.next_seq
    }

    /// Adds `item`, due at `at`.
    pub fn push(&mut self, at: u64, item: T)
        requires
            old(self).wf(),
            old(self).next_arrival() < u64::MAX,
        ensures
            final(self).wf(),
            final(self).pending() == old(self).pending().push(
                Pending { at, seq: old(self).next_arrival(), item },
            ),
            final(self).next_arrival() == old(self).next_arrival() + 1,
    {
        let seq = self.next_seq;
        self.entries.push(Pending { at, seq, item });
        self.next_seq = seq + 1;
    }

    fn next_index(&self) -> (k: usize)
        requires
            self.entries@.len() > 0,
        ensures
            is_next(self.entries@, k as int),
    {
        let mut best: usize = 0;
        let mut i: usize = 1;
        while i < self.entries.len()
            invariant
                1 <= i <= self.entries@.len(),
                best < i,
                forall|j: int| 0 <= j < i ==> leaves_before(self.entries@[best as int], #[trigger] self.entries@[j]),
            decreases self.entries@.len() - i,
        {
            let a = &self.entries[i];
            let b = &self.entries[best];
            if a.at < b.at || (a.at == b.at && a.seq < b.seq) {
                best = i;
            }
            i = i + 1;
        }
        best
    }

    /// Deadline of the next item to leave.
    pub fn peek_deadline(&self) -> (res: Option<u64>)
        ensures
            match res {
                Some(at) => exists|k: int| is_next(self.pending(), k) && self.pending()[k].at == at,
                None => self.pending().len() == 0,
            },
    {
        if self.entries.len() == 0 {
            None
        } else {
            let k = self.next_index();
            assert(is_next(self.pending(), k as int) && self.pending()[k as int].at == self.entries@[k as int].at);
            Some(self.entries[k].at)
        }
    }

    /// Removes and returns the next item to leave, with its deadline.
    pub fn pop_next(&mut self) -> (res: Option<(u64, T)>)
        requires
            old(self).wf(),
        ensures
            final(self).wf(),
            final(self).next_arrival() == old(self).next_arrival(),
            match res {
                Some((at, item)) => exists|k: int|
                    is_next(old(self).pending(), k) && old(self).pending()[k].at == at
                        && old(self).pending()[k].item == item && final(self).pending() == old(
                        self,
                    ).pending().remove(k),
                None => old(self).pending().len() == 0 && final(self).pending().len() == 0,
            },
    {
        if self.entries.len() == 0 {
            return None;
        }
        let k = self.next_index();
        let ghost s = self.entries@;
        let p = self.entries.remove(k);
        assert forall|i: int, j: int| 0 <= i < j < self.entries@.len() implies #[trigger] self.entries@[i].seq
            != #[trigger] self.entries@[j].seq by {
            let ii = if i < k { i } else { i + 1 };
            let jj = if j < k { j } else { j + 1 };
            assert(self.entries@[i] == s[ii]);
            assert(self.entries@[j] == s[jj]);
        }
        assert forall|i: int| 0 <= i < self.entries@.len() implies #[trigger] self.entries@[i].seq < self.next_seq by {
            let ii = if i < k { i } else { i + 1 };
            assert(self.entries@[i] == s[ii]);
        }
        assert(is_next(old(self).pending(), k as int) && old(self).pending()[k as int].at == p.at
            && old(self).pending()[k as int].item == p.item && self.pending() == old(
            self,
        ).pending().remove(k as int));
        Some((p.at, p.item))
    }
}

/// Release-order law: among pending items, the one released next has the
/// earliest deadline, and among equal deadlines the earliest arrival. In a
/// well-formed queue that item is unique.
pub proof fn lemma_next_is_unique<T>(q: &DeadlineQueue<T>, a: int, b: int)
    requires
        q.wf(),
        is_next(q.pending(), a),
        is_next(q.pending(), b),
    ensures
        a == b,
{
    let s = q.pending();
    assert(leaves_before(s[a], s[b]));
    assert(leaves_before(s[b], s[a]));
    if a != b {
        if a < b {
            assert(s[a].seq != s[b].seq);
        } else {
            assert(s[b].seq != s[a].seq);
        }
    }
}

/// Release-order law, in terms of deadlines and arrival numbers: the item
/// released next has a deadline no later than any pending item's, and an
/// arrival number no later than that of any pending item with the same
/// deadline.
pub proof fn lemma_next_is_earliest<T>(s: Seq<Pending<T>>, k: int)
    requires
        is_next(s, k),
    ensures
        0 <= k < s.len(),
        forall|j: int| 0 <= j < s.len() ==> s[k].at <= (#[trigger] s[j]).at,
        forall|j: int| 0 <= j < s.len() && (#[trigger] s[j]).at == s[k].at ==> s[k].seq <= s[j].seq,
{
    assert forall|j: int| 0 <= j < s.len() implies s[k].at <= (#[trigger] s[j]).at by {
        assert(leaves_before(s[k], s[j]));
    }
    assert forall|j: int| 0 <= j < s.len() && (#[trigger] s[j]).at == s[k].at implies s[k].seq <= s[j].seq by {
        assert(leaves_before(s[k], s[j]));
    }
}

} // verus!
