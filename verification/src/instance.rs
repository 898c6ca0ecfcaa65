//! Slot bookkeeping for the primitive instance pool. A slot index handed
//! out by `alloc` stays with its entity until `free`, so releasing one
//! entity never moves another entity's instance. Freed indices are reused
//! last-freed-first; the GPU upload reads the pool as maximal runs of dirty
//! slots, and the draw reads it as maximal runs of live slots.
use vstd::prelude::*;

verus! {

/// Stable slot index of a single-shape entity.
#[derive(Clone, Copy)]
pub struct InstanceSlot(pub usize);

/// One stable slot index per sub-shape of a shape-group entity. Not `Copy`:
/// the entity owns its indices and frees all of them on despawn.
pub struct ShapeGroupSlots(pub Vec<usize>);

/// Number of `true` flags in `s`.
pub open spec fn count_true(s: Seq<bool>) -> nat
    decreases s.len(),
{
    if s.len() == 0 {
        0
    } else {
        count_true(s.drop_last()) + if s.last() { 1nat } else { 0nat }
    }
}

/// The elements of `s` whose flag in `keep` is set, in order.
pub open spec fn select<T>(s: Seq<T>, keep: Seq<bool>) -> Seq<T>
    decreases s.len(),
{
    if s.len() == 0 || keep.len() < s.len() {
        Seq::empty()
    } else {
        let rest = select(s.drop_last(), keep.take(s.len() - 1));
        if keep[s.len() - 1] {
            rest.push(s.last())
        } else {
            rest
        }
    }
}

/// `r` lists, as `(first, count)` and in ascending order, exactly the
/// maximal runs of consecutive `true` flags in `s`.
pub open spec fn maximal_runs(s: Seq<bool>, r: Seq<(int, int)>) -> bool {
    &&& forall|k: int|
        0 <= k < r.len() ==> 0 <= (#[trigger] r[k]).0 && r[k].1 >= 1 && r[k].0 + r[k].1 <= s.len()
    &&& forall|k: int, j: int|
        #![trigger r[k], s[j]]
        0 <= k < r.len() && r[k].0 <= j < r[k].0 + r[k].1 ==> s[j]
    &&& forall|k: int| 0 <= k < r.len() && (#[trigger] r[k]).0 > 0 ==> !s[r[k].0 - 1]
    &&& forall|k: int| 0 <= k < r.len() && (#[trigger] r[k]).0 + r[k].1 < s.len() ==> !s[r[k].0 + r[k].1]
    &&& forall|k1: int, k2: int|
        0 <= k1 < k2 < r.len() ==> (#[trigger] r[k1]).0 + r[k1].1 < (#[trigger] r[k2]).0
    &&& forall|j: int|
        0 <= j < s.len() && #[trigger] s[j] ==> exists|k: int|
            0 <= k < r.len() && (#[trigger] r[k]).0 <= j < r[k].0 + r[k].1
}

/// Total length of the runs in `r`.
pub open spec fn run_total(r: Seq<(int, int)>) -> int
    decreases r.len(),
{
    if r.len() == 0 {
        0
    } else {
        run_total(r.drop_last()) + r.last().1
    }
}

pub open spec fn runs_of_usize(r: Seq<(usize, usize)>) -> Seq<(int, int)> {
    r.map_values(|p: (usize, usize)| (p.0 as int, p.1 as int))
}

pub open spec fn runs_of_u32(r: Seq<(u32, u32)>) -> Seq<(int, int)> {
    r.map_values(|p: (u32, u32)| (p.0 as int, p.1 as int))
}

proof fn lemma_count_true_push(s: Seq<bool>, b: bool)
    ensures
        count_true(s.push(b)) == count_true(s) + if b { 1nat } else { 0nat },
{
    assert(s.push(b).drop_last() =~= s);
}

proof fn lemma_count_true_take_next(s: Seq<bool>, i: int)
    requires
        0 <= i < s.len(),
    ensures
        count_true(s.take(i + 1)) == count_true(s.take(i)) + if s[i] { 1nat } else { 0nat },
{
    assert(s.take(i + 1).drop_last() =~= s.take(i));
}

proof fn lemma_count_true_update(s: Seq<bool>, i: int, b: bool)
    requires
        0 <= i < s.len(),
    ensures
        count_true(s.update(i, b)) + (if s[i] { 1int } else { 0int }) == count_true(s) + (if b {
            1int
        } else {
            0int
        }),
    decreases s.len(),
{
    if i == s.len() - 1 {
        assert(s.update(i, b).drop_last() =~= s.drop_last());
    } else {
        lemma_count_true_update(s.drop_last(), i, b);
        assert(s.update(i, b).drop_last() =~= s.drop_last().update(i, b));
    }
}

proof fn lemma_count_true_bound(s: Seq<bool>)
    ensures
        count_true(s) <= s.len(),
    decreases s.len(),
{
    if s.len() > 0 {
        lemma_count_true_bound(s.drop_last());
    }
}

proof fn lemma_run_total_push(r: Seq<(int, int)>, x: (int, int))
    ensures
        run_total(r.push(x)) == run_total(r) + x.1,
{
    assert(r.push(x).drop_last() =~= r);
}

proof fn lemma_select_take_next<T>(s: Seq<T>, keep: Seq<bool>, i: int)
    requires
        0 <= i < s.len(),
        keep.len() == s.len(),
    ensures
        select(s.take(i + 1), keep.take(i + 1)) == if keep[i] {
            select(s.take(i), keep.take(i)).push(s[i])
        } else {
            select(s.take(i), keep.take(i))
        },
{
    assert(s.take(i + 1).drop_last() =~= s.take(i));
    assert(keep.take(i + 1).take(i) =~= keep.take(i));
}

/// Scans `flags` and lists its maximal runs of `true` as `(first, count)`.
fn flag_runs(flags: &Vec<bool>) -> (out: Vec<(usize, usize)>)
    ensures
        maximal_runs(flags@, runs_of_usize(out@)),
        run_total(runs_of_usize(out@)) == count_true(flags@),
{
    let mut out: Vec<(usize, usize)> = Vec::new();
    let n = flags.len();
    let mut i: usize = 0;
    while i < n
        invariant
            n == flags@.len(),
            i <= n,
            maximal_runs(flags@.take(i as int), runs_of_usize(out@)),
            forall|k: int|
                0 <= k < out@.len() && (#[trigger] out@[k]).0 + out@[k].1 < n ==> !flags@[out@[k].0
                    + out@[k].1],
            forall|k: int| 0 <= k < out@.len() ==> (#[trigger] out@[k]).0 + out@[k].1 <= i,
            i > 0 && flags@[i - 1] ==> out@.len() > 0 && out@.last().0 + out@.last().1 == i,
            run_total(runs_of_usize(out@)) == count_true(flags@.take(i as int)),
        decreases n - i,
    {
        let ghost before = out@;
        if flags[i] {
            let start = i;
            proof {
                if i > 0 && flags@[i - 1] {
                    assert(out@[out@.len() - 1] == out@.last());
                }
            }
            while i < n && flags[i]
                invariant
                    n == flags@.len(),
                    start <= i <= n,
                    forall|j: int| start <= j < i ==> flags@[j],
                    out@ == before,
                    run_total(runs_of_usize(before)) + (i - start) == count_true(
                        flags@.take(i as int),
                    ),
                decreases n - i,
            {
                proof {
                    lemma_count_true_take_next(flags@, i as int);
                }
                i = i + 1;
            }
            out.push((start, i - start));
            proof {
                let rv = runs_of_usize(out@);
                let rb = runs_of_usize(before);
                let s = flags@.take(i as int);
                assert(rv =~= rb.push((start as int, (i - start) as int)));
                lemma_run_total_push(rb, (start as int, (i - start) as int));
                assert forall|k: int| 0 <= k < rv.len() implies 0 <= (#[trigger] rv[k]).0 && rv[k].1
                    >= 1 && rv[k].0 + rv[k].1 <= s.len() by {
                    if k < rb.len() {
                        assert(out@[k] == before[k]);
                    }
                }
                assert forall|k: int, j: int|
                    #![trigger rv[k], s[j]]
                    0 <= k < rv.len() && rv[k].0 <= j < rv[k].0 + rv[k].1 implies s[j] by {
                    if k < rb.len() {
                        assert(out@[k] == before[k]);
                        assert(flags@.take(start as int)[j] == flags@[j]);
                    }
                }
                assert forall|k: int| 0 <= k < rv.len() && (#[trigger] rv[k]).0 > 0 implies !s[rv[k].0
                    - 1] by {
                    if k < rb.len() {
                        assert(out@[k] == before[k]);
                        assert(flags@.take(start as int)[rv[k].0 - 1] == flags@[rv[k].0 - 1]);
                    } else {
                        if start > 0 && flags@[start - 1] {
                            assert(out@[rb.len() - 1] == before[rb.len() - 1]);
                        }
                    }
                }
                assert forall|k: int|
                    0 <= k < rv.len() && (#[trigger] rv[k]).0 + rv[k].1 < s.len() implies !s[rv[k].0
                    + rv[k].1] by {
                    if k < rb.len() {
                        assert(out@[k] == before[k]);
                    }
                }
                assert forall|k1: int, k2: int| 0 <= k1 < k2 < rv.len() implies (#[trigger] rv[k1]).0
                    + rv[k1].1 < (#[trigger] rv[k2]).0 by {
                    assert(out@[k1] == before[k1]);
                    if k2 < rb.len() {
                        assert(out@[k2] == before[k2]);
                    } else {
                        if before[k1].0 + before[k1].1 == start {
                            assert(flags@[start as int]);
                        }
                    }
                }
                assert forall|j: int| 0 <= j < s.len() && #[trigger] s[j] implies exists|k: int|
                    0 <= k < rv.len() && (#[trigger] rv[k]).0 <= j < rv[k].0 + rv[k].1 by {
                    if j < start {
                        assert(flags@.take(start as int)[j] == s[j]);
                        let k = choose|k: int|
                            0 <= k < rb.len() && (#[trigger] rb[k]).0 <= j < rb[k].0 + rb[k].1;
                        assert(out@[k] == before[k]);
                        assert(rv[k] == rb[k]);
                    } else {
                        assert(rv[rb.len() as int] == (start as int, (i - start) as int));
                    }
                }
                assert forall|k: int|
                    0 <= k < out@.len() && (#[trigger] out@[k]).0 + out@[k].1 < n implies !flags@[out@[k].0
                    + out@[k].1] by {
                    if k < rb.len() {
                        assert(out@[k] == before[k]);
                    }
                }
                assert forall|k: int| 0 <= k < out@.len() implies (#[trigger] out@[k]).0 + out@[k].1
                    <= i by {
                    if k < rb.len() {
                        assert(out@[k] == before[k]);
                    }
                }
            }
        } else {
            proof {
                lemma_count_true_take_next(flags@, i as int);
                let rv = runs_of_usize(out@);
                let s = flags@.take(i + 1);
                assert forall|k: int, j: int|
                    #![trigger rv[k], s[j]]
                    0 <= k < rv.len() && rv[k].0 <= j < rv[k].0 + rv[k].1 implies s[j] by {
                    assert(flags@.take(i as int)[j] == flags@[j]);
                }
                assert forall|k: int| 0 <= k < rv.len() && (#[trigger] rv[k]).0 > 0 implies !s[rv[k].0
                    - 1] by {
                    assert(flags@.take(i as int)[rv[k].0 - 1] == flags@[rv[k].0 - 1]);
                }
                assert forall|k: int|
                    0 <= k < rv.len() && (#[trigger] rv[k]).0 + rv[k].1 < s.len() implies !s[rv[k].0
                    + rv[k].1] by {
                    if rv[k].0 + rv[k].1 < i {
                        assert(flags@.take(i as int)[rv[k].0 + rv[k].1] == flags@[rv[k].0
                            + rv[k].1]);
                    }
                }
                assert forall|j: int| 0 <= j < s.len() && #[trigger] s[j] implies exists|k: int|
                    0 <= k < rv.len() && (#[trigger] rv[k]).0 <= j < rv[k].0 + rv[k].1 by {
                    assert(flags@.take(i as int)[j] == s[j]);
                }
            }
            i = i + 1;
        }
    }
    proof {
        assert(flags@.take(n as int) =~= flags@);
    }
    out
}

/// The instance pool: per-slot payload, dirty and live flags, and the stack
/// of freed indices awaiting reuse. `blank` is what a freed slot holds.
pub struct InstancePool<T> {
    slots: Vec<T>,
    dirty: Vec<bool>,
    free: Vec<usize>,
    in_use: Vec<bool>,
    blank: T,
}

impl<T: Copy> InstancePool<T> {
    /// The slot payloads.
    pub closed spec fn contents(&self) -> Seq<T> {
        self.slots@
    }

    /// Which slots changed since the last upload.
    pub closed spec fn dirty_flags(&self) -> Seq<bool> {
        self.dirty@
    }

    /// Which slots are held by an entity.
    pub closed spec fn live(&self) -> Seq<bool> {
        self.in_use@
    }

    /// Freed indices, the next one to be reused last.
    pub closed spec fn free_stack(&self) -> Seq<usize> {
        self.free@
    }

    /// The payload of a freed or fresh slot.
    pub closed spec fn blank_value(&self) -> T {
        self.blank
    }

    /// The three per-slot vectors agree in length; the free stack holds
    /// distinct indices of slots not in use, and every slot not in use is on it.
    pub closed spec fn wf(&self) -> bool {
        &&& self.slots@.len() == self.dirty@.len()
        &&& self.slots@.len() == self.in_use@.len()
        &&& forall|k: int|
            0 <= k < self.free@.len() ==> (#[trigger] self.free@[k]) < self.in_use@.len()
                && !self.in_use@[self.free@[k] as int]
        &&& forall|k1: int, k2: int|
            0 <= k1 < k2 < self.free@.len() ==> #[trigger] self.free@[k1] != #[trigger] self.free@[k2]
        &&& self.free@.len() + count_true(self.in_use@) == self.in_use@.len()
    }

    /// An empty pool whose freed slots will hold `blank`.
    pub fn new(capacity: usize, blank: T) -> (pool: Self)
        ensures
            pool.wf(),
            pool.contents().len() == 0,
            pool.free_stack().len() == 0,
            pool.blank_value() == blank,
    {
        InstancePool {
            slots: Vec::with_capacity(capacity),
            dirty: Vec::with_capacity(capacity),
            free: Vec::with_capacity(capacity),
            in_use: Vec::with_capacity(capacity),
            blank,
        }
    }

    /// Number of slots ever allocated, live or freed.
    pub fn slot_count(&self) -> (n: usize)
        requires
            self.wf(),
        ensures
            n == self.contents().len(),
            n == self.live().len(),
    {
        self.slots.len()
    }

    /// Takes a slot: the most recently freed index if there is one, else a
    /// new index at the end. The slot is marked live and dirty.
    pub fn alloc_slot(&mut self) -> (idx: usize)
        requires
            old(self).wf(),
            old(self).free_stack().len() > 0 || old(self).contents().len() < usize::MAX,
        ensures
            final(self).wf(),
            final(self).blank_value() == old(self).blank_value(),
            idx < final(self).contents().len(),
            final(self).live()[idx as int],
            old(self).free_stack().len() > 0 ==> {
                &&& idx == old(self).free_stack().last()
                &&& final(self).free_stack() == old(self).free_stack().drop_last()
                &&& final(self).contents() == old(self).contents()
                &&& final(self).live() == old(self).live().update(idx as int, true)
                &&& final(self).dirty_flags() == old(self).dirty_flags().update(idx as int, true)
            },
            old(self).free_stack().len() == 0 ==> {
                &&& idx == old(self).contents().len()
                &&& final(self).free_stack() == old(self).free_stack()
                &&& final(self).contents() == old(self).contents().push(old(self).blank_value())
                &&& final(self).live() == old(self).live().push(true)
                &&& final(self).dirty_flags() == old(self).dirty_flags().push(true)
            },
            count_true(final(self).live()) == count_true(old(self).live()) + 1,
    {
        match self.free.pop() {
            Some(idx) => {
                proof {
                    assert(old(self).free@[old(self).free@.len() - 1] == idx);
                    lemma_count_true_update(old(self).in_use@, idx as int, true);
                }
                self.dirty.set(idx, true);
                self.in_use.set(idx, true);
                proof {
                    assert forall|k: int| 0 <= k < self.free@.len() implies (#[trigger] self.free@[k])
                        < self.in_use@.len() && !self.in_use@[self.free@[k] as int] by {
                        assert(old(self).free@[k] == self.free@[k]);
                        assert(old(self).free@[k] != old(self).free@[old(self).free@.len() - 1]);
                    }
                    assert forall|k1: int, k2: int|
                        0 <= k1 < k2 < self.free@.len() implies #[trigger] self.free@[k1]
                        != #[trigger] self.free@[k2] by {
                        assert(old(self).free@[k1] == self.free@[k1]);
                        assert(old(self).free@[k2] == self.free@[k2]);
                    }
                }
                idx
            },
            None => {
                let idx = self.slots.len();
                self.slots.push(self.blank);
                self.dirty.push(true);
                self.in_use.push(true);
                proof {
                    lemma_count_true_push(old(self).in_use@, true);
                }
                idx
            },
        }
    }

    /// Number of slots held by an entity.
    pub fn used(&self) -> (n: usize)
        requires
            self.wf(),
        ensures
            n == count_true(self.live()),
            n == self.contents().len() - self.free_stack().len(),
    {
        self.slots.len() - self.free.len()
    }

    /// Releases a live slot: its payload becomes blank (uploaded once so the
    /// instance disappears from the GPU) and its index goes on the free stack.
    pub fn free(&mut self, idx: usize)
        requires
            old(self).wf(),
            idx < old(self).contents().len(),
            old(self).live()[idx as int],
        ensures
            final(self).wf(),
            final(self).blank_value() == old(self).blank_value(),
            final(self).contents() == old(self).contents().update(
                idx as int,
                old(self).blank_value(),
            ),
            final(self).dirty_flags() == old(self).dirty_flags().update(idx as int, true),
            final(self).live() == old(self).live().update(idx as int, false),
            final(self).free_stack() == old(self).free_stack().push(idx),
            count_true(final(self).live()) + 1 == count_true(old(self).live()),
    {
        let blank = self.blank;
        self.slots.set(idx, blank);
        self.dirty.set(idx, true);
        self.in_use.set(idx, false);
        self.free.push(idx);
        proof {
            lemma_count_true_update(old(self).in_use@, idx as int, false);
            assert forall|k: int| 0 <= k < self.free@.len() implies (#[trigger] self.free@[k])
                < self.in_use@.len() && !self.in_use@[self.free@[k] as int] by {
                if k < old(self).free@.len() {
                    assert(old(self).free@[k] == self.free@[k]);
                }
            }
            assert forall|k1: int, k2: int|
                0 <= k1 < k2 < self.free@.len() implies #[trigger] self.free@[k1]
                != #[trigger] self.free@[k2] by {
                assert(old(self).free@[k1] == self.free@[k1]);
                if k2 < old(self).free@.len() {
                    assert(old(self).free@[k2] == self.free@[k2]);
                }
            }
        }
    }

    /// The payload of slot `idx`.
    pub fn slot(&self, idx: usize) -> (v: T)
        requires
            idx < self.contents().len(),
        ensures
            v == self.contents()[idx as int],
    {
        self.slots[idx]
    }

    /// Stores a new payload in slot `idx` and marks it for upload.
    pub fn write(&mut self, idx: usize, value: T)
        requires
            old(self).wf(),
            idx < old(self).contents().len(),
        ensures
            final(self).wf(),
            final(self).blank_value() == old(self).blank_value(),
            final(self).contents() == old(self).contents().update(idx as int, value),
            final(self).dirty_flags() == old(self).dirty_flags().update(idx as int, true),
            final(self).live() == old(self).live(),
            final(self).free_stack() == old(self).free_stack(),
    {
        self.slots.set(idx, value);
        self.dirty.set(idx, true);
    }

    /// The maximal runs of live slots as `(first, count)`, ascending; the
    /// counts add up to `used()`. `out` is cleared first.
    pub fn used_runs(&self, out: &mut Vec<(u32, u32)>)
        requires
            self.wf(),
            self.contents().len() <= u32::MAX,
        ensures
            maximal_runs(self.live(), runs_of_u32(final(out)@)),
            run_total(runs_of_u32(final(out)@)) == count_true(self.live()),
    {
        out.clear();
        let runs = flag_runs(&self.in_use);
        let mut k: usize = 0;
        while k < runs.len()
            invariant
                k <= runs@.len(),
                out@.len() == k,
                self.wf(),
                self.in_use@.len() <= u32::MAX,
                maximal_runs(self.in_use@, runs_of_usize(runs@)),
                forall|m: int|
                    0 <= m < k ==> (#[trigger] out@[m]).0 as int == runs@[m].0 as int && out@[m].1 as int
                        == runs@[m].1 as int,
            decreases runs@.len() - k,
        {
            let (first, count) = runs[k];
            proof {
                let rv = runs_of_usize(runs@);
                assert(rv[k as int] == (first as int, count as int));
            }
            out.push((first as u32, count as u32));
            k = k + 1;
        }
        proof {
            assert(runs_of_u32(out@) =~= runs_of_usize(runs@));
        }
    }

    /// Hands out the maximal runs of dirty slots as `(first, count)` in
    /// `ranges` and their payloads, in slot order, in `items`; then clears
    /// every dirty flag. Returns the number of slots.
    pub fn take_dirty(&mut self, ranges: &mut Vec<(usize, usize)>, items: &mut Vec<T>) -> (n: usize)
        requires
            old(self).wf(),
        ensures
            final(self).wf(),
            n == old(self).contents().len(),
            maximal_runs(old(self).dirty_flags(), runs_of_usize(final(ranges)@)),
            final(items)@ == select(old(self).contents(), old(self).dirty_flags()),
            final(self).contents() == old(self).contents(),
            final(self).live() == old(self).live(),
            final(self).free_stack() == old(self).free_stack(),
            final(self).blank_value() == old(self).blank_value(),
            final(self).dirty_flags() == Seq::new(old(self).contents().len(), |i: int| false),
    {
        *ranges = flag_runs(&self.dirty);
        items.clear();
        let n = self.slots.len();
        let mut i: usize = 0;
        while i < n
            invariant
                n == self.slots@.len(),
                self.slots@ == old(self).slots@,
                self.dirty@ == old(self).dirty@,
                self.in_use@ == old(self).in_use@,
                self.free@ == old(self).free@,
                self.blank == old(self).blank,
                self.dirty@.len() == n,
                i <= n,
                items@ == select(self.slots@.take(i as int), self.dirty@.take(i as int)),
            decreases n - i,
        {
            proof {
                lemma_select_take_next(self.slots@, self.dirty@, i as int);
            }
            if self.dirty[i] {
                items.push(self.slots[i]);
            }
            i = i + 1;
        }
        proof {
            assert(self.slots@.take(n as int) =~= self.slots@);
            assert(self.dirty@.take(n as int) =~= self.dirty@);
        }
        let mut j: usize = 0;
        while j < n
            invariant
                n == self.dirty@.len(),
                self.slots@ == old(self).slots@,
                self.in_use@ == old(self).in_use@,
                self.free@ == old(self).free@,
                self.blank == old(self).blank,
                old(self).wf(),
                old(self).slots@.len() == n,
                j <= n,
                forall|m: int| 0 <= m < j ==> !self.dirty@[m],
            decreases n - j,
        {
            self.dirty.set(j, false);
            j = j + 1;
        }
        proof {
            assert(self.dirty@ =~= Seq::new(n as nat, |i: int| false));
        }
        n
    }
}

/// Slot number `k` handed out by successive allocations from a pool whose
/// free stack is `free` and which has `len` slots: the freed slots, most
/// recently freed first, then new slots at the end.
pub open spec fn nth_alloc(free: Seq<usize>, len: int, k: int) -> int {
    if k < free.len() {
        free[free.len() - 1 - k] as int
    } else {
        len + (k - free.len())
    }
}

/// Allocates `count` slots for a shape group, one per shape, in order.
pub fn alloc_shape_group_slots<T: Copy>(pool: &mut InstancePool<T>, count: usize) -> (g: ShapeGroupSlots)
    requires
        old(pool).wf(),
        count <= old(pool).free_stack().len() + (usize::MAX - old(pool).contents().len()),
    ensures
        final(pool).wf(),
        final(pool).blank_value() == old(pool).blank_value(),
        g.0@.len() == count,
        forall|k: int|
            0 <= k < count ==> #[trigger] g.0@[k] as int == nth_alloc(
                old(pool).free_stack(),
                old(pool).contents().len() as int,
                k,
            ),
        forall|k: int| 0 <= k < count ==> final(pool).live()[#[trigger] g.0@[k] as int],
        final(pool).free_stack() == old(pool).free_stack().take(
            old(pool).free_stack().len() - if count < old(pool).free_stack().len() {
                count as int
            } else {
                old(pool).free_stack().len() as int
            },
        ),
        final(pool).contents().len() == old(pool).contents().len() + if count > old(pool).free_stack().len() {
            count - old(pool).free_stack().len()
        } else {
            0
        },
        forall|q: int| 0 <= q < old(pool).contents().len() ==> #[trigger] final(pool).contents()[q] == old(pool).contents()[q],
        forall|q: int|
            old(pool).contents().len() <= q < final(pool).contents().len() ==> #[trigger] final(pool).contents()[q]
                == old(pool).blank_value(),
        forall|q: int|
            0 <= q < old(pool).contents().len() && (forall|k: int| 0 <= k < count ==> g.0@[k] != q)
                ==> #[trigger] final(pool).live()[q] == old(pool).live()[q],
        count_true(final(pool).live()) == count_true(old(pool).live()) + count,
{
    let ghost f0 = old(pool).free_stack();
    let ghost n0 = old(pool).contents().len() as int;
    let mut slots: Vec<usize> = Vec::new();
    let mut i: usize = 0;
    while i < count
        invariant
            pool.wf(),
            pool.blank_value() == old(pool).blank_value(),
            f0 == old(pool).free_stack(),
            n0 == old(pool).contents().len(),
            count <= f0.len() + (usize::MAX - n0),
            i <= count,
            slots@.len() == i,
            pool.free_stack() == f0.take(f0.len() - if i < f0.len() { i as int } else { f0.len() as int }),
            pool.contents().len() == n0 + if i > f0.len() { i - f0.len() } else { 0 },
            forall|k: int| 0 <= k < i ==> #[trigger] slots@[k] as int == nth_alloc(f0, n0, k),
            forall|k: int| 0 <= k < i ==> pool.live()[#[trigger] slots@[k] as int],
            forall|k: int| 0 <= k < i ==> #[trigger] slots@[k] < pool.live().len(),
            pool.live().len() == pool.contents().len(),
            forall|q: int| 0 <= q < n0 ==> #[trigger] pool.contents()[q] == old(pool).contents()[q],
            forall|q: int| n0 <= q < pool.contents().len() ==> #[trigger] pool.contents()[q] == old(pool).blank_value(),
            forall|q: int|
                0 <= q < n0 && (forall|k: int| 0 <= k < i ==> slots@[k] != q) ==> #[trigger] pool.live()[q]
                    == old(pool).live()[q],
            count_true(pool.live()) == count_true(old(pool).live()) + i,
        decreases count - i,
    {
        let ghost live0 = pool.live();
        let ghost cont0 = pool.contents();
        let ghost fs = pool.free_stack();
        let idx = pool.alloc_slot();
        proof {
            if fs.len() > 0 {
                assert(i < f0.len());
                assert(fs.last() == f0[f0.len() - 1 - i]);
                assert(pool.free_stack() =~= f0.take(f0.len() - (i + 1)));
            } else {
                assert(i >= f0.len());
            }
        }
        let ghost before = slots@;
        slots.push(idx);
        proof {
            assert(pool.live().len() == pool.contents().len()) by {
                assert(idx < pool.contents().len());
            }
            assert forall|k: int| 0 <= k < i + 1 implies pool.live()[#[trigger] slots@[k] as int]
                && slots@[k] < pool.live().len() by {
                if k < i {
                    assert(slots@[k] == before[k]);
                    assert(live0[before[k] as int]);
                    assert(before[k] < live0.len());
                    if fs.len() > 0 {
                        assert(pool.live() == live0.update(idx as int, true));
                    } else {
                        assert(pool.live() == live0.push(true));
                    }
                }
            }
            assert forall|k: int| 0 <= k < i + 1 implies #[trigger] slots@[k] as int == nth_alloc(f0, n0, k) by {
                if k < i {
                    assert(slots@[k] == before[k]);
                }
            }
            assert forall|q: int|
                0 <= q < n0 && (forall|k: int| 0 <= k < i + 1 ==> slots@[k] != q) implies #[trigger] pool.live()[q]
                == old(pool).live()[q] by {
                assert(slots@[i as int] != q);
                assert forall|k: int| 0 <= k < i implies before[k] != q by {
                    assert(slots@[k] == before[k]);
                }
            }
            assert forall|q: int| n0 <= q < pool.contents().len() implies #[trigger] pool.contents()[q]
                == old(pool).blank_value() by {
                if q < cont0.len() {
                    assert(pool.contents()[q] == cont0[q]);
                }
            }
        }
        i = i + 1;
    }
    let ghost sl = slots@;
    assert forall|q: int|
        0 <= q < n0 && (forall|k: int| 0 <= k < count ==> sl[k] != q) implies #[trigger] pool.live()[q]
        == old(pool).live()[q] by {
        assert forall|k: int| 0 <= k < i implies slots@[k] != q by {
            assert(sl[k] != q);
        }
    }
    ShapeGroupSlots(slots)
}

} // verus!
