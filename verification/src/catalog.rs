//! The mesh catalog behind streamed loading: each asset path is absent,
//! being decoded in the background, loaded into a mesh slot, or failed.
//! A path is requested once; a failed path is not retried; a decode that
//! finishes after the path was registered directly is dropped. Mesh slots
//! are only ever appended, so a loaded index stays valid.
use vstd::prelude::*;

verus! {

/// A path's streaming state.
#[derive(Clone, Copy, PartialEq, Eq, Structural, Debug)]
pub enum MeshEntry {
    Loaded(usize),
    Pending,
    Failed,
}

/// What a draw lookup of a path should do.
#[derive(Clone, Copy, PartialEq, Eq, Structural, Debug)]
pub enum Lookup {
    /// Draw the mesh in this slot.
    Ready(usize),
    /// Draw nothing: the decode is under way, or it failed.
    Waiting,
    /// Draw nothing and start decoding the path in the background.
    StartLoad,
}

/// What to do with a finished background decode.
#[derive(Clone, Copy, PartialEq, Eq, Structural, Debug)]
pub enum Completion {
    /// The path is no longer waiting for this decode: discard it.
    Dropped,
    /// Upload the decoded mesh into this new slot.
    Upload(usize),
    /// Report the error; the path stays failed.
    Failed,
}

/// Index of the last entry of `s` keyed `k`, or -1.
pub open spec fn key_index(s: Seq<(String, MeshEntry)>, k: Seq<char>) -> int
    decreases s.len(),
{
    if s.len() == 0 {
        -1
    } else if s.last().0@ == k {
        s.len() - 1
    } else {
        key_index(s.drop_last(), k)
    }
}

proof fn lemma_key_index_range(s: Seq<(String, MeshEntry)>, k: Seq<char>)
    ensures
        -1 <= key_index(s, k) < s.len(),
        key_index(s, k) >= 0 ==> s[key_index(s, k)].0@ == k,
        key_index(s, k) < 0 ==> forall|j: int| 0 <= j < s.len() ==> (#[trigger] s[j]).0@ != k,
    decreases s.len(),
{
    if s.len() > 0 {
        lemma_key_index_range(s.drop_last(), k);
        if s.last().0@ != k {
            assert forall|j: int| 0 <= j < s.len() - 1 implies (#[trigger] s[j]).0@ != k || key_index(
                s,
                k,
            ) >= 0 by {
                assert(s.drop_last()[j] == s[j]);
            }
            if key_index(s, k) >= 0 {
                assert(s.drop_last()[key_index(s, k)] == s[key_index(s, k)]);
            }
        }
    }
}

proof fn lemma_key_index_unique(s: Seq<(String, MeshEntry)>, k: Seq<char>, i: int)
    requires
        0 <= i < s.len(),
        s[i].0@ == k,
        forall|a: int, b: int| 0 <= a < b < s.len() ==> (#[trigger] s[a]).0@ != (#[trigger] s[b]).0@,
    ensures
        key_index(s, k) == i,
    decreases s.len(),
{
    if i < s.len() - 1 {
        assert(s.last() == s[s.len() - 1]);
        assert(s.drop_last()[i] == s[i]);
        assert forall|a: int, b: int| 0 <= a < b < s.drop_last().len() implies (
        #[trigger] s.drop_last()[a]).0@ != (#[trigger] s.drop_last()[b]).0@ by {
            assert(s.drop_last()[a] == s[a]);
            assert(s.drop_last()[b] == s[b]);
        }
        lemma_key_index_unique(s.drop_last(), k, i);
    }
}

proof fn lemma_key_index_push(s: Seq<(String, MeshEntry)>, x: (String, MeshEntry), k: Seq<char>)
    ensures
        key_index(s.push(x), k) == if x.0@ == k {
            s.len() as int
        } else {
            key_index(s, k)
        },
{
    assert(s.push(x).drop_last() =~= s);
}

proof fn lemma_key_index_update(
    s: Seq<(String, MeshEntry)>,
    i: int,
    x: (String, MeshEntry),
    k: Seq<char>,
)
    requires
        0 <= i < s.len(),
        x.0@ == s[i].0@,
    ensures
        key_index(s.update(i, x), k) == key_index(s, k),
    decreases s.len(),
{
    if i < s.len() - 1 {
        assert(s.update(i, x).drop_last() =~= s.drop_last().update(i, x));
        lemma_key_index_update(s.drop_last(), i, x, k);
    } else {
        assert(s.update(i, x).drop_last() =~= s.drop_last());
    }
}

/// Number of pending entries.
pub open spec fn pending_in(s: Seq<(String, MeshEntry)>) -> nat
    decreases s.len(),
{
    if s.len() == 0 {
        0
    } else {
        pending_in(s.drop_last()) + if s.last().1 == MeshEntry::Pending { 1nat } else { 0nat }
    }
}

proof fn lemma_pending_push(s: Seq<(String, MeshEntry)>, x: (String, MeshEntry))
    ensures
        pending_in(s.push(x)) == pending_in(s) + if x.1 == MeshEntry::Pending { 1nat } else { 0nat },
{
    assert(s.push(x).drop_last() =~= s);
}

proof fn lemma_pending_update(s: Seq<(String, MeshEntry)>, i: int, x: (String, MeshEntry))
    requires
        0 <= i < s.len(),
    ensures
        pending_in(s.update(i, x)) + (if s[i].1 == MeshEntry::Pending { 1int } else { 0int })
            == pending_in(s) + (if x.1 == MeshEntry::Pending { 1int } else { 0int }),
    decreases s.len(),
{
    if i < s.len() - 1 {
        assert(s.update(i, x).drop_last() =~= s.drop_last().update(i, x));
        lemma_pending_update(s.drop_last(), i, x);
    } else {
        assert(s.update(i, x).drop_last() =~= s.drop_last());
    }
}

proof fn lemma_pending_bound(s: Seq<(String, MeshEntry)>)
    ensures
        pending_in(s) <= s.len(),
    decreases s.len(),
{
    if s.len() > 0 {
        lemma_pending_bound(s.drop_last());
    }
}

/// Asset paths and their streaming states, plus the number of mesh slots.
pub struct MeshCatalog {
    entries: Vec<(String, MeshEntry)>,
    slots: usize,
}

impl MeshCatalog {
    /// The state of each known path.
    pub closed spec fn states(&self) -> Map<Seq<char>, MeshEntry> {
        Map::new(
            |k: Seq<char>| key_index(self.entries@, k) >= 0,
            |k: Seq<char>| self.entries@[key_index(self.entries@, k)].1,
        )
    }

    /// Number of mesh slots handed out.
    pub closed spec fn slot_count(&self) -> nat {
        self.slots as nat
    }

    /// Number of paths being decoded.
    pub closed spec fn pending(&self) -> nat {
        pending_in(self.entries@)
    }

    /// Paths are distinct and every loaded slot exists.
    pub closed spec fn wf(&self) -> bool {
        &&& forall|a: int, b: int|
            0 <= a < b < self.entries@.len() ==> (#[trigger] self.entries@[a]).0@ != (
            #[trigger] self.entries@[b]).0@
        &&& forall|i: int|
            0 <= i < self.entries@.len() ==> match (#[trigger] self.entries@[i]).1 {
                MeshEntry::Loaded(idx) => idx < self.slots,
                _ => true,
            }
    }

    pub fn new() -> (c: Self)
        ensures
            c.wf(),
            c.states() == Map::<Seq<char>, MeshEntry>::empty(),
            c.slot_count() == 0,
            c.pending() == 0,
    {
        let c = MeshCatalog { entries: Vec::new(), slots: 0 };
        proof {
            assert(c.states() =~= Map::<Seq<char>, MeshEntry>::empty());
        }
        c
    }

    /// Position of `key` among the entries, if present.
    fn find(&self, key: &String) -> (r: Option<usize>)
        requires
            self.wf(),
        ensures
            r matches Some(i) ==> i < self.entries@.len() && key_index(self.entries@, key@) == i,
            r is None ==> key_index(self.entries@, key@) == -1,
    {
        let mut i: usize = 0;
        while i < self.entries.len()
            invariant
                self.wf(),
                i <= self.entries@.len(),
                forall|j: int| 0 <= j < i ==> (#[trigger] self.entries@[j]).0@ != key@,
            decreases self.entries@.len() - i,
        {
            if self.entries[i].0 == *key {
                proof {
                    lemma_key_index_unique(self.entries@, key@, i as int);
                }
                return Some(i);
            }
            i = i + 1;
        }
        proof {
            lemma_key_index_range(self.entries@, key@);
        }
        None
    }

    /// The state of `path`, if known.
    pub fn entry_state(&self, path: &str) -> (r: Option<MeshEntry>)
        requires
            self.wf(),
        ensures
            r == (if self.states().dom().contains(path@) {
                Some(self.states()[path@])
            } else {
                None
            }),
    {
        let key = path.to_owned();
        match self.find(&key) {
            Some(i) => Some(self.entries[i].1),
            None => None,
        }
    }

    /// A draw lookup: a loaded path gives its slot; a pending or failed one
    /// gives nothing; an unknown one becomes pending and asks the caller to
    /// start its decode.
    pub fn get_or_request(&mut self, path: &str) -> (r: Lookup)
        requires
            old(self).wf(),
            old(self).pending() < usize::MAX,
        ensures
            final(self).wf(),
            final(self).slot_count() == old(self).slot_count(),
            old(self).states().dom().contains(path@) ==> {
                &&& final(self).states() == old(self).states()
                &&& final(self).pending() == old(self).pending()
                &&& r == match old(self).states()[path@] {
                    MeshEntry::Loaded(i) => Lookup::Ready(i),
                    _ => Lookup::Waiting,
                }
            },
            !old(self).states().dom().contains(path@) ==> {
                &&& final(self).states() == old(self).states().insert(path@, MeshEntry::Pending)
                &&& final(self).pending() == old(self).pending() + 1
                &&& r == Lookup::StartLoad
            },
    {
        let key = path.to_owned();
        match self.find(&key) {
            Some(i) => match self.entries[i].1 {
                MeshEntry::Loaded(idx) => Lookup::Ready(idx),
                _ => Lookup::Waiting,
            },
            None => {
                let ghost before = self.entries@;
                self.entries.push((key, MeshEntry::Pending));
                proof {
                    lemma_pending_push(before, (key, MeshEntry::Pending));
                    let target = old(self).states().insert(path@, MeshEntry::Pending);
                    assert(self.entries@ == before.push(self.entries@[before.len() as int]));
                    assert forall|k: Seq<char>|
                        #![trigger target.dom().contains(k)]
                        #![trigger self.states().dom().contains(k)]
                        #![trigger self.states()[k]]
                        target.dom().contains(k) == self.states().dom().contains(k)
                        && (target.dom().contains(k) ==> self.states()[k] == target[k]) by {
                        lemma_key_index_push(before, self.entries@[before.len() as int], k);
                        lemma_key_index_range(before, k);
                        let idx = key_index(before, k);
                        if idx >= 0 && k != path@ {
                            assert(self.entries@[idx] == before[idx]);
                        }
                    }
                    assert(self.states().dom() =~= target.dom());
                    assert(self.states() =~= target);
                    lemma_key_index_range(before, path@);
                    assert forall|a: int, b: int|
                        0 <= a < b < self.entries@.len() implies (#[trigger] self.entries@[a]).0@ != (
                        #[trigger] self.entries@[b]).0@ by {
                        assert(self.entries@[a] == before[a] || a == before.len());
                        if b < before.len() {
                            assert(self.entries@[b] == before[b]);
                            assert(self.entries@[a] == before[a]);
                        } else {
                            assert(self.entries@[a] == before[a]);
                        }
                    }
                    assert forall|i: int| 0 <= i < self.entries@.len() implies match (
                    #[trigger] self.entries@[i]).1 {
                        MeshEntry::Loaded(idx) => idx < self.slots,
                        _ => true,
                    } by {
                        if i < before.len() {
                            assert(self.entries@[i] == before[i]);
                        }
                    }
                }
                Lookup::StartLoad
            },
        }
    }

    /// Binds `path` to a mesh slot for data built in place: a path already
    /// loaded keeps its slot (the caller overwrites the mesh there); any
    /// other path takes a new slot. Returns the slot and whether it is new.
    pub fn register(&mut self, path: &str) -> (r: (usize, bool))
        requires
            old(self).wf(),
            old(self).slot_count() < usize::MAX || (old(self).states().dom().contains(path@)
                && old(self).states()[path@] is Loaded),
        ensures
            final(self).wf(),
            final(self).states().dom().contains(path@),
            final(self).states()[path@] == MeshEntry::Loaded(r.0),
            old(self).states().dom().contains(path@) && old(self).states()[path@] is Loaded ==> {
                &&& r == (old(self).states()[path@]->Loaded_0, false)
                &&& final(self).states() == old(self).states()
                &&& final(self).slot_count() == old(self).slot_count()
                &&& final(self).pending() == old(self).pending()
            },
            !(old(self).states().dom().contains(path@) && old(self).states()[path@] is Loaded) ==> {
                &&& r == (old(self).slot_count() as usize, true)
                &&& final(self).states() == old(self).states().insert(
                    path@,
                    MeshEntry::Loaded(r.0),
                )
                &&& final(self).slot_count() == old(self).slot_count() + 1
                &&& final(self).pending() + (if old(self).states().dom().contains(path@)
                    && old(self).states()[path@] == MeshEntry::Pending {
                    1int
                } else {
                    0int
                }) == old(self).pending()
            },
    {
        let key = path.to_owned();
        let found = self.find(&key);
        if let Some(i) = found {
            if let MeshEntry::Loaded(idx) = self.entries[i].1 {
                return (idx, false);
            }
        }
        let idx = self.slots;
        self.slots = self.slots + 1;
        self.set_entry(key, found, MeshEntry::Loaded(idx));
        (idx, true)
    }

    /// Stores `state` for `key`, at position `found` if it is there.
    fn set_entry(&mut self, key: String, found: Option<usize>, state: MeshEntry)
        requires
            forall|a: int, b: int|
                0 <= a < b < old(self).entries@.len() ==> (#[trigger] old(self).entries@[a]).0@ != (
                #[trigger] old(self).entries@[b]).0@,
            forall|i: int|
                0 <= i < old(self).entries@.len() ==> match (#[trigger] old(self).entries@[i]).1 {
                    MeshEntry::Loaded(idx) => idx < old(self).slots,
                    _ => true,
                },
            state matches MeshEntry::Loaded(idx) ==> idx < old(self).slots,
            found matches Some(i) ==> i < old(self).entries@.len() && key_index(old(self).entries@, key@) == i,
            found is None ==> key_index(old(self).entries@, key@) == -1,
        ensures
            final(self).wf(),
            final(self).slots == old(self).slots,
            final(self).states() == old(self).states().insert(key@, state),
            final(self).pending() + (if old(self).states().dom().contains(key@)
                && old(self).states()[key@] == MeshEntry::Pending {
                1int
            } else {
                0int
            }) == old(self).pending() + (if state == MeshEntry::Pending { 1int } else { 0int }),
    {
        let ghost before = self.entries@;
        let ghost k0 = key@;
        proof {
            lemma_key_index_range(before, k0);
        }
        match found {
            Some(i) => {
                proof {
                    lemma_pending_update(before, i as int, (key, state));
                }
                self.entries.set(i, (key, state));
                proof {
                    assert(self.entries@ == before.update(i as int, self.entries@[i as int]));
                    let target = old(self).states().insert(k0, state);
                    assert forall|k: Seq<char>|
                        #![trigger target.dom().contains(k)]
                        #![trigger self.states().dom().contains(k)]
                        #![trigger self.states()[k]]
                        target.dom().contains(k) == self.states().dom().contains(k)
                        && (target.dom().contains(k) ==> self.states()[k] == target[k]) by {
                        lemma_key_index_update(before, i as int, self.entries@[i as int], k);
                        lemma_key_index_range(before, k);
                        let idx = key_index(before, k);
                        if idx >= 0 && idx != i {
                            assert(self.entries@[idx] == before[idx]);
                        }
                    }
                    assert(self.states().dom() =~= target.dom());
                    assert(self.states() =~= target);
                    assert forall|a: int, b: int|
                        0 <= a < b < self.entries@.len() implies (#[trigger] self.entries@[a]).0@ != (
                        #[trigger] self.entries@[b]).0@ by {
                        assert(self.entries@[a].0@ == before[a].0@);
                        assert(self.entries@[b].0@ == before[b].0@);
                    }
                    assert forall|j: int| 0 <= j < self.entries@.len() implies match (
                    #[trigger] self.entries@[j]).1 {
                        MeshEntry::Loaded(idx) => idx < self.slots,
                        _ => true,
                    } by {
                        if j != i {
                            assert(self.entries@[j] == before[j]);
                        }
                    }
                }
            },
            None => {
                self.entries.push((key, state));
                proof {
                    lemma_pending_push(before, self.entries@[before.len() as int]);
                    assert(self.entries@ == before.push(self.entries@[before.len() as int]));
                    let target = old(self).states().insert(k0, state);
                    assert forall|k: Seq<char>|
                        #![trigger target.dom().contains(k)]
                        #![trigger self.states().dom().contains(k)]
                        #![trigger self.states()[k]]
                        target.dom().contains(k) == self.states().dom().contains(k)
                        && (target.dom().contains(k) ==> self.states()[k] == target[k]) by {
                        lemma_key_index_push(before, self.entries@[before.len() as int], k);
                        lemma_key_index_range(before, k);
                        let idx = key_index(before, k);
                        if idx >= 0 && k != k0 {
                            assert(self.entries@[idx] == before[idx]);
                        }
                    }
                    assert(self.states().dom() =~= target.dom());
                    assert(self.states() =~= target);
                    assert forall|a: int, b: int|
                        0 <= a < b < self.entries@.len() implies (#[trigger] self.entries@[a]).0@ != (
                        #[trigger] self.entries@[b]).0@ by {
                        assert(self.entries@[a] == before[a]);
                        if b < before.len() {
                            assert(self.entries@[b] == before[b]);
                        }
                    }
                    assert forall|j: int| 0 <= j < self.entries@.len() implies match (
                    #[trigger] self.entries@[j]).1 {
                        MeshEntry::Loaded(idx) => idx < self.slots,
                        _ => true,
                    } by {
                        if j < before.len() {
                            assert(self.entries@[j] == before[j]);
                        }
                    }
                }
            },
        }
    }

    /// Settles a finished decode of `path`: dropped unless the path is
    /// pending; on success the path takes a new slot, else it fails.
    pub fn complete(&mut self, path: &str, succeeded: bool) -> (r: Completion)
        requires
            old(self).wf(),
            old(self).slot_count() < usize::MAX,
        ensures
            final(self).wf(),
            !(old(self).states().dom().contains(path@) && old(self).states()[path@]
                == MeshEntry::Pending) ==> {
                &&& r == Completion::Dropped
                &&& final(self).states() == old(self).states()
                &&& final(self).slot_count() == old(self).slot_count()
                &&& final(self).pending() == old(self).pending()
            },
            old(self).states().dom().contains(path@) && old(self).states()[path@]
                == MeshEntry::Pending ==> {
                &&& final(self).pending() + 1 == old(self).pending()
                &&& succeeded ==> {
                    &&& r == Completion::Upload(old(self).slot_count() as usize)
                    &&& final(self).states() == old(self).states().insert(
                        path@,
                        MeshEntry::Loaded(old(self).slot_count() as usize),
                    )
                    &&& final(self).slot_count() == old(self).slot_count() + 1
                }
                &&& !succeeded ==> {
                    &&& r == Completion::Failed
                    &&& final(self).states() == old(self).states().insert(path@, MeshEntry::Failed)
                    &&& final(self).slot_count() == old(self).slot_count()
                }
            },
    {
        let key = path.to_owned();
        let found = self.find(&key);
        match found {
            Some(i) => {
                if self.entries[i].1 != MeshEntry::Pending {
                    return Completion::Dropped;
                }
                if succeeded {
                    let idx = self.slots;
                    self.slots = self.slots + 1;
                    self.set_entry(key, found, MeshEntry::Loaded(idx));
                    Completion::Upload(idx)
                } else {
                    self.set_entry(key, found, MeshEntry::Failed);
                    Completion::Failed
                }
            },
            None => Completion::Dropped,
        }
    }

    /// Number of paths being decoded.
    pub fn pending_count(&self) -> (n: usize)
        requires
            self.wf(),
        ensures
            n == self.pending(),
    {
        let mut n: usize = 0;
        let mut i: usize = 0;
        while i < self.entries.len()
            invariant
                i <= self.entries@.len(),
                n == pending_in(self.entries@.take(i as int)),
                n <= i,
            decreases self.entries@.len() - i,
        {
            proof {
                assert(self.entries@.take(i + 1).drop_last() =~= self.entries@.take(i as int));
            }
            if self.entries[i].1 == MeshEntry::Pending {
                n = n + 1;
            }
            i = i + 1;
        }
        proof {
            assert(self.entries@.take(i as int) =~= self.entries@);
        }
        n
    }
}

} // verus!
