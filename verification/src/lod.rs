//! Distance level of detail for skeletal posing. A rig near the camera
//! poses every frame and keeps no cache entry. A far rig poses on its first
//! frame and then on every other frame, staggered by entity so far rigs do
//! not all pose on the same frame; in between it replays its cached pose.
//! After each frame, the entries of rigs not seen in it are evicted.
use vstd::prelude::*;

verus! {

/// Whether a rig computes a fresh pose this frame or replays its cache.
#[derive(Clone, Copy, PartialEq, Eq, Structural, Debug)]
pub enum PoseChoice {
    Pose,
    Replay,
}

/// Index of the entry keyed `k`, or -1.
pub open spec fn entry_index(s: Seq<(u64, u64)>, k: u64) -> int
    decreases s.len(),
{
    if s.len() == 0 {
        -1
    } else if s.last().0 == k {
        s.len() - 1
    } else {
        entry_index(s.drop_last(), k)
    }
}

/// The map from rig key to the frame it was last seen.
pub open spec fn seen_map(s: Seq<(u64, u64)>) -> Map<u64, u64> {
    Map::new(|k: u64| entry_index(s, k) >= 0, |k: u64| s[entry_index(s, k)].1)
}

pub open spec fn distinct_keys(s: Seq<(u64, u64)>) -> bool {
    forall|a: int, b: int| 0 <= a < b < s.len() ==> (#[trigger] s[a]).0 != (#[trigger] s[b]).0
}

proof fn lemma_entry_index(s: Seq<(u64, u64)>, k: u64)
    ensures
        -1 <= entry_index(s, k) < s.len(),
        entry_index(s, k) >= 0 ==> s[entry_index(s, k)].0 == k,
        entry_index(s, k) < 0 ==> forall|j: int| 0 <= j < s.len() ==> (#[trigger] s[j]).0 != k,
    decreases s.len(),
{
    if s.len() > 0 {
        lemma_entry_index(s.drop_last(), k);
        if s.last().0 != k {
            if entry_index(s, k) >= 0 {
                assert(s.drop_last()[entry_index(s, k)] == s[entry_index(s, k)]);
            } else {
                assert forall|j: int| 0 <= j < s.len() implies (#[trigger] s[j]).0 != k by {
                    if j < s.len() - 1 {
                        assert(s.drop_last()[j] == s[j]);
                    }
                }
            }
        }
    }
}

proof fn lemma_entry_index_at(s: Seq<(u64, u64)>, k: u64, i: int)
    requires
        0 <= i < s.len(),
        s[i].0 == k,
        distinct_keys(s),
    ensures
        entry_index(s, k) == i,
    decreases s.len(),
{
    if i < s.len() - 1 {
        assert(s.last() == s[s.len() - 1]);
        assert(s.drop_last()[i] == s[i]);
        assert forall|a: int, b: int| 0 <= a < b < s.drop_last().len() implies (
        #[trigger] s.drop_last()[a]).0 != (#[trigger] s.drop_last()[b]).0 by {
            assert(s.drop_last()[a] == s[a]);
            assert(s.drop_last()[b] == s[b]);
        }
        lemma_entry_index_at(s.drop_last(), k, i);
    }
}

/// `seen_map` of a sequence with distinct keys, entry by entry.
proof fn lemma_seen_map_entries(s: Seq<(u64, u64)>)
    requires
        distinct_keys(s),
    ensures
        forall|i: int| 0 <= i < s.len() ==> seen_map(s).dom().contains((#[trigger] s[i]).0) && seen_map(
            s,
        )[s[i].0] == s[i].1,
        forall|k: u64| #[trigger] seen_map(s).dom().contains(k) ==> exists|i: int| 0 <= i < s.len() && s[i].0 == k,
{
    assert forall|i: int| 0 <= i < s.len() implies seen_map(s).dom().contains((#[trigger] s[i]).0)
        && seen_map(s)[s[i].0] == s[i].1 by {
        lemma_entry_index_at(s, s[i].0, i);
    }
    assert forall|k: u64| #[trigger] seen_map(s).dom().contains(k) implies exists|i: int|
        0 <= i < s.len() && s[i].0 == k by {
        lemma_entry_index(s, k);
        let i = entry_index(s, k);
        assert(s[i].0 == k);
    }
}

/// Two distinct-key sequences with the same entries, in any order, have
/// the same map.
proof fn lemma_seen_map_ext(s: Seq<(u64, u64)>, t: Seq<(u64, u64)>, m: Map<u64, u64>)
    requires
        distinct_keys(t),
        forall|i: int| 0 <= i < t.len() ==> m.dom().contains((#[trigger] t[i]).0) && m[t[i].0] == t[i].1,
        forall|k: u64| #[trigger] m.dom().contains(k) ==> exists|i: int| 0 <= i < t.len() && t[i].0 == k,
    ensures
        seen_map(t) == m,
{
    lemma_seen_map_entries(t);
    assert forall|k: u64| #[trigger] seen_map(t).dom().contains(k) == m.dom().contains(k) by {
        if m.dom().contains(k) {
            let i = choose|i: int| 0 <= i < t.len() && t[i].0 == k;
            assert(seen_map(t).dom().contains(t[i].0));
        }
        if seen_map(t).dom().contains(k) {
            let i = choose|i: int| 0 <= i < t.len() && t[i].0 == k;
            assert(m.dom().contains(t[i].0));
        }
    }
    assert forall|k: u64| #[trigger] seen_map(t).dom().contains(k) implies seen_map(t)[k] == m[k] by {
        let i = choose|i: int| 0 <= i < t.len() && t[i].0 == k;
        assert(seen_map(t)[t[i].0] == t[i].1);
        assert(m[t[i].0] == t[i].1);
    }
    assert(seen_map(t) =~= m);
}

/// The pose schedule of far rigs: for each cached rig, the last frame it
/// was seen.
pub struct LodSchedule {
    entries: Vec<(u64, u64)>,
}

impl LodSchedule {
    /// Rig key to the frame it was last seen, for every cached rig.
    pub closed spec fn seen(&self) -> Map<u64, u64> {
        seen_map(self.entries@)
    }

    pub closed spec fn wf(&self) -> bool {
        distinct_keys(self.entries@)
    }

    pub fn new() -> (l: Self)
        ensures
            l.wf(),
            l.seen() == Map::<u64, u64>::empty(),
    {
        let l = LodSchedule { entries: Vec::new() };
        proof {
            assert(l.seen() =~= Map::<u64, u64>::empty());
        }
        l
    }

    fn find(&self, key: u64) -> (r: Option<usize>)
        requires
            self.wf(),
        ensures
            r matches Some(i) ==> i < self.entries@.len() && self.entries@[i as int].0 == key
                && entry_index(self.entries@, key) == i,
            r is None ==> entry_index(self.entries@, key) == -1 && forall|j: int|
                0 <= j < self.entries@.len() ==> (#[trigger] self.entries@[j]).0 != key,
    {
        let mut i: usize = 0;
        while i < self.entries.len()
            invariant
                self.wf(),
                i <= self.entries@.len(),
                forall|j: int| 0 <= j < i ==> (#[trigger] self.entries@[j]).0 != key,
            decreases self.entries@.len() - i,
        {
            if self.entries[i].0 == key {
                proof {
                    lemma_entry_index_at(self.entries@, key, i as int);
                }
                return Some(i);
            }
            i = i + 1;
        }
        proof {
            lemma_entry_index(self.entries@, key);
        }
        None
    }

    /// A rig that is near this frame: drop its cache entry, if any, and
    /// say whether there was one.
    pub fn forget(&mut self, key: u64) -> (had: bool)
        requires
            old(self).wf(),
        ensures
            final(self).wf(),
            had == old(self).seen().dom().contains(key),
            final(self).seen() == old(self).seen().remove(key),
    {
        let ghost s = self.entries@;
        proof {
            lemma_seen_map_entries(s);
        }
        match self.find(key) {
            Some(i) => {
                self.entries.remove(i);
                proof {
                    let t = self.entries@;
                    assert(t == s.remove(i as int));
                    assert forall|a: int, b: int| 0 <= a < b < t.len() implies (#[trigger] t[a]).0 != (
                    #[trigger] t[b]).0 by {
                        let aa = if a < i { a } else { a + 1 };
                        let bb = if b < i { b } else { b + 1 };
                        assert(t[a] == s[aa]);
                        assert(t[b] == s[bb]);
                    }
                    let m = seen_map(s).remove(key);
                    assert forall|j: int| 0 <= j < t.len() implies m.dom().contains((#[trigger] t[j]).0)
                        && m[t[j].0] == t[j].1 by {
                        let jj = if j < i { j } else { j + 1 };
                        assert(t[j] == s[jj]);
                    }
                    assert forall|k: u64| #[trigger] m.dom().contains(k) implies exists|j: int|
                        0 <= j < t.len() && t[j].0 == k by {
                        let jj = choose|jj: int| 0 <= jj < s.len() && s[jj].0 == k;
                        let j = if jj < i { jj } else { jj - 1 };
                        assert(t[j] == s[if j < i { j } else { j + 1 }]);
                    }
                    lemma_seen_map_ext(s, t, m);
                }
                true
            },
            None => {
                proof {
                    assert(!seen_map(s).dom().contains(key));
                    assert(seen_map(s).remove(key) =~= seen_map(s));
                }
                false
            },
        }
    }

    /// A rig that is far this frame: a new rig poses and starts its cache;
    /// a cached rig poses when `frame + stagger` is even and replays
    /// otherwise. Either way it is marked seen in `frame`.
    pub fn far_step(&mut self, key: u64, stagger: u64, frame: u64) -> (choice: PoseChoice)
        requires
            old(self).wf(),
            frame + stagger <= u64::MAX,
        ensures
            final(self).wf(),
            final(self).seen() == old(self).seen().insert(key, frame),
            choice == (if !old(self).seen().dom().contains(key) || (frame + stagger) % 2 == 0 {
                PoseChoice::Pose
            } else {
                PoseChoice::Replay
            }),
    {
        let ghost s = self.entries@;
        proof {
            lemma_seen_map_entries(s);
        }
        let found = self.find(key);
        let is_new = found.is_none();
        match found {
            Some(i) => {
                self.entries.set(i, (key, frame));
                proof {
                    let t = self.entries@;
                    assert forall|a: int, b: int| 0 <= a < b < t.len() implies (#[trigger] t[a]).0 != (
                    #[trigger] t[b]).0 by {
                        assert(t[a].0 == s[a].0);
                        assert(t[b].0 == s[b].0);
                    }
                    let m = seen_map(s).insert(key, frame);
                    assert forall|j: int| 0 <= j < t.len() implies m.dom().contains((#[trigger] t[j]).0)
                        && m[t[j].0] == t[j].1 by {
                        if j != i {
                            assert(t[j] == s[j]);
                        }
                    }
                    assert forall|k: u64| #[trigger] m.dom().contains(k) implies exists|j: int|
                        0 <= j < t.len() && t[j].0 == k by {
                        if k == key {
                            assert(t[i as int].0 == k);
                        } else {
                            let jj = choose|jj: int| 0 <= jj < s.len() && s[jj].0 == k;
                            assert(t[jj] == s[jj]);
                        }
                    }
                    lemma_seen_map_ext(s, t, m);
                }
            },
            None => {
                self.entries.push((key, frame));
                proof {
                    let t = self.entries@;
                    assert forall|a: int, b: int| 0 <= a < b < t.len() implies (#[trigger] t[a]).0 != (
                    #[trigger] t[b]).0 by {
                        assert(t[a] == s[a]);
                        if b < s.len() {
                            assert(t[b] == s[b]);
                        }
                    }
                    let m = seen_map(s).insert(key, frame);
                    assert forall|j: int| 0 <= j < t.len() implies m.dom().contains((#[trigger] t[j]).0)
                        && m[t[j].0] == t[j].1 by {
                        if j < s.len() {
                            assert(t[j] == s[j]);
                        }
                    }
                    assert forall|k: u64| #[trigger] m.dom().contains(k) implies exists|j: int|
                        0 <= j < t.len() && t[j].0 == k by {
                        if k == key {
                            assert(t[s.len() as int].0 == k);
                        } else {
                            let jj = choose|jj: int| 0 <= jj < s.len() && s[jj].0 == k;
                            assert(t[jj] == s[jj]);
                        }
                    }
                    lemma_seen_map_ext(s, t, m);
                }
            },
        }
        if is_new || (frame + stagger) % 2 == 0 {
            PoseChoice::Pose
        } else {
            PoseChoice::Replay
        }
    }

    /// Drops the entries of rigs not seen in `frame`; returns their keys.
    pub fn retain_seen(&mut self, frame: u64) -> (evicted: Vec<u64>)
        requires
            old(self).wf(),
        ensures
            final(self).wf(),
            forall|k: u64|
                #[trigger] final(self).seen().dom().contains(k) == (old(self).seen().dom().contains(k)
                    && old(self).seen()[k] == frame),
            forall|k: u64| #[trigger] final(self).seen().dom().contains(k) ==> final(self).seen()[k] == frame,
            forall|k: u64|
                #[trigger] evicted@.contains(k) == (old(self).seen().dom().contains(k) && old(self).seen()[k]
                    != frame),
    {
        let ghost s = self.entries@;
        proof {
            lemma_seen_map_entries(s);
        }
        let mut kept: Vec<(u64, u64)> = Vec::new();
        let mut evicted: Vec<u64> = Vec::new();
        let ghost mut kept_from: Seq<int> = Seq::empty();
        let ghost mut evicted_from: Seq<int> = Seq::empty();
        let mut i: usize = 0;
        while i < self.entries.len()
            invariant
                self.entries@ == s,
                distinct_keys(s),
                i <= s.len(),
                kept_from.len() == kept@.len(),
                evicted_from.len() == evicted@.len(),
                forall|j: int|
                    0 <= j < kept@.len() ==> 0 <= #[trigger] kept_from[j] < i && s[kept_from[j]] == kept@[j]
                        && kept@[j].1 == frame,
                forall|j: int|
                    0 <= j < evicted@.len() ==> 0 <= #[trigger] evicted_from[j] < i && s[evicted_from[j]].0
                        == evicted@[j] && s[evicted_from[j]].1 != frame,
                forall|q: int| 0 <= q < i && (#[trigger] s[q]).1 == frame ==> kept@.contains(s[q]),
                forall|q: int| 0 <= q < i && (#[trigger] s[q]).1 != frame ==> evicted@.contains(s[q].0),
                distinct_keys(kept@),
            decreases s.len() - i,
        {
            let e = self.entries[i];
            if e.1 == frame {
                let ghost before = kept@;
                kept.push(e);
                proof {
                    kept_from = kept_from.push(i as int);
                    assert forall|q: int| 0 <= q < i + 1 && (#[trigger] s[q]).1 == frame implies kept@.contains(
                        s[q],
                    ) by {
                        if q < i {
                            let j = choose|j: int| 0 <= j < before.len() && before[j] == s[q];
                            assert(kept@[j] == s[q]);
                        } else {
                            assert(kept@[before.len() as int] == s[q]);
                        }
                    }
                    assert forall|a: int, b: int| 0 <= a < b < kept@.len() implies (#[trigger] kept@[a]).0
                        != (#[trigger] kept@[b]).0 by {
                        assert(kept@[a] == before[a]);
                        assert(s[kept_from[a]] == kept@[a]);
                        assert(s[kept_from[b]] == kept@[b]);
                        assert(kept_from[a] != kept_from[b]);
                    }
                }
            } else {
                let ghost before = evicted@;
                evicted.push(e.0);
                proof {
                    evicted_from = evicted_from.push(i as int);
                    assert forall|q: int| 0 <= q < i + 1 && (#[trigger] s[q]).1 != frame implies evicted@.contains(
                        s[q].0,
                    ) by {
                        if q < i {
                            let j = choose|j: int| 0 <= j < before.len() && before[j] == s[q].0;
                            assert(evicted@[j] == s[q].0);
                        } else {
                            assert(evicted@[before.len() as int] == s[q].0);
                        }
                    }
                }
            }
            i = i + 1;
        }
        let ghost m = Map::new(
            |k: u64| seen_map(s).dom().contains(k) && seen_map(s)[k] == frame,
            |k: u64| frame,
        );
        proof {
            let t = kept@;
            assert forall|j: int| 0 <= j < t.len() implies m.dom().contains((#[trigger] t[j]).0) && m[t[j].0]
                == t[j].1 by {
                let q = kept_from[j];
                assert(s[q] == t[j]);
                assert(seen_map(s).dom().contains(s[q].0));
            }
            assert forall|k: u64| #[trigger] m.dom().contains(k) implies exists|j: int| 0 <= j < t.len() && t[j].0 == k by {
                let q = choose|q: int| 0 <= q < s.len() && s[q].0 == k;
                assert(seen_map(s)[s[q].0] == s[q].1);
                assert(t.contains(s[q]));
                let j = choose|j: int| 0 <= j < t.len() && t[j] == s[q];
                assert(t[j].0 == k);
            }
            lemma_seen_map_ext(s, t, m);
            assert forall|k: u64| #[trigger] evicted@.contains(k) == (seen_map(s).dom().contains(k) && seen_map(s)[k]
                != frame) by {
                if evicted@.contains(k) {
                    let j = choose|j: int| 0 <= j < evicted@.len() && evicted@[j] == k;
                    let q = evicted_from[j];
                    assert(seen_map(s)[s[q].0] == s[q].1);
                }
                if seen_map(s).dom().contains(k) && seen_map(s)[k] != frame {
                    let q = choose|q: int| 0 <= q < s.len() && s[q].0 == k;
                    assert(seen_map(s)[s[q].0] == s[q].1);
                    assert(s[q].1 != frame);
                }
            }
        }
        self.entries = kept;
        evicted
    }
}

/// A far rig never replays its cache on two consecutive frames: of any
/// two frames in a row, one has an even staggered index and poses.
pub proof fn lemma_pose_at_least_every_other_frame(frame: u64, stagger: u64)
    requires
        frame + 1 + stagger <= u64::MAX,
    ensures
        (frame + stagger) % 2 == 0 || (frame + 1 + stagger) % 2 == 0,
{
}

/// Admission of one more skinned instance whose rig has `joints` joints,
/// when `instances` skinned instances and `palette_len` joint matrices are
/// already queued this frame, under the instance cap `max_instances` and
/// the palette cap `max_joints`: the index of its first joint matrix in the
/// palette (the palette length, as a 32-bit index), or `None` when either
/// cap would be passed and the instance is skipped this frame.
pub fn admit_skinned(
    instances: usize,
    palette_len: usize,
    joints: usize,
    max_instances: usize,
    max_joints: usize,
) -> (base: Option<u32>)
    ensures
        base == if instances >= max_instances || palette_len + joints > max_joints {
            None
        } else {
            Some(palette_len as u32)
        },
{
    if instances >= max_instances || joints > max_joints || palette_len > max_joints - joints {
        None
    } else {
        Some(palette_len as u32)
    }
}

/// Whether `count` skinned instances are past 80% of the cap `max`, the
/// point at which the renderer warns.
pub fn skinned_near_cap(count: usize, max: usize) -> (near: bool)
    ensures
        near == (count * 10 > max * 8),
{
    (count as u128) * 10 > (max as u128) * 8
}

} // verus!
