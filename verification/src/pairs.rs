//! Collision pair bookkeeping. Entities are identified by a 64-bit key
//! (index in the high half, generation in the low half) whose numeric
//! order is the order of the entity handles. Pairs are canonical: smaller
//! key first.
//!
//! Broadphase: every entity is paired with every other entity sharing one
//! of its grid cells; pairs are reported once each, in order of first
//! discovery. Narrowphase contact tracking: the pairs that start and stop
//! overlapping this frame, each list in ascending pair order, so event
//! order is the same on every run.
use vstd::prelude::*;

verus! {

broadcast use vstd::seq::Seq::lemma_push_to_set_commute;

pub type EntityKey = u64;

pub type Pair = (u64, u64);

/// The canonical pair of two distinct entities.
pub open spec fn canonical(a: u64, b: u64) -> Pair {
    if a < b {
        (a, b)
    } else {
        (b, a)
    }
}

/// Pairs of `e` with the members of one of its cells, skipping `e` itself,
/// in member order.
pub open spec fn cell_pairs(e: u64, members: Seq<u64>) -> Seq<Pair>
    decreases members.len(),
{
    if members.len() == 0 {
        Seq::empty()
    } else if members.last() == e {
        cell_pairs(e, members.drop_last())
    } else {
        cell_pairs(e, members.drop_last()).push(canonical(e, members.last()))
    }
}

/// Pairs of `e` over all its cells, cell by cell.
pub open spec fn entity_pairs(e: u64, cells: Seq<Seq<u64>>) -> Seq<Pair>
    decreases cells.len(),
{
    if cells.len() == 0 {
        Seq::empty()
    } else {
        entity_pairs(e, cells.drop_last()) + cell_pairs(e, cells.last())
    }
}

/// Every pair in discovery order: entity by entity, cell by cell, member by
/// member (duplicates included).
pub open spec fn discovered(entities: Seq<(u64, Seq<Seq<u64>>)>) -> Seq<Pair>
    decreases entities.len(),
{
    if entities.len() == 0 {
        Seq::empty()
    } else {
        discovered(entities.drop_last()) + entity_pairs(
            entities.last().0,
            entities.last().1,
        )
    }
}

/// `s` with every repeat of an earlier element dropped.
pub open spec fn first_occurrences(s: Seq<Pair>) -> Seq<Pair>
    decreases s.len(),
{
    if s.len() == 0 {
        Seq::empty()
    } else if first_occurrences(s.drop_last()).contains(s.last()) {
        first_occurrences(s.drop_last())
    } else {
        first_occurrences(s.drop_last()).push(s.last())
    }
}

/// The plain-value view of one broadphase participant: its key and, for
/// each grid cell it occupies, the keys of every entity in that cell.
pub open spec fn entities_view(entities: Seq<(u64, Vec<Vec<u64>>)>) -> Seq<(u64, Seq<Seq<u64>>)> {
    entities.map_values(|e: (u64, Vec<Vec<u64>>)| (e.0, e.1@.map_values(|c: Vec<u64>| c@)))
}

fn contains_pair(s: &Vec<Pair>, p: Pair) -> (res: bool)
    ensures
        res == s@.contains(p),
{
    let mut i: usize = 0;
    while i < s.len()
        invariant
            i <= s@.len(),
            forall|j: int| 0 <= j < i ==> s@[j] != p,
        decreases s@.len() - i,
    {
        if s[i].0 == p.0 && s[i].1 == p.1 {
            assert(s@[i as int] == p);
            return true;
        }
        i = i + 1;
    }
    false
}

fn add_first_occurrence(out: &mut Vec<Pair>, p: Pair, Ghost(seen): Ghost<Seq<Pair>>)
    requires
        old(out)@ == first_occurrences(seen),
    ensures
        final(out)@ == first_occurrences(seen.push(p)),
{
    assert(seen.push(p).drop_last() == seen);
    if !contains_pair(out, p) {
        out.push(p);
    }
}

/// Broadphase candidate pairs: for each entity, its pairs with every other
/// member of each of its cells, canonical, each pair reported once in
/// order of first discovery.
pub fn candidate_pairs(entities: &Vec<(u64, Vec<Vec<u64>>)>) -> (res: Vec<Pair>)
    ensures
        res@ == first_occurrences(discovered(entities_view(entities@))),
{
    let ghost ev = entities_view(entities@);
    let mut out: Vec<Pair> = Vec::new();
    let ghost mut seen: Seq<Pair> = Seq::empty();
    let mut i: usize = 0;
    while i < entities.len()
        invariant
            ev == entities_view(entities@),
            ev.len() == entities@.len(),
            i <= entities@.len(),
            seen == discovered(ev.take(i as int)),
            out@ == first_occurrences(seen),
        decreases entities@.len() - i,
    {
        let e = entities[i].0;
        let cells = &entities[i].1;
        let ghost cv = ev[i as int].1;
        assert(cv == cells@.map_values(|c: Vec<u64>| c@));
        let ghost seen_before = seen;
        let mut k: usize = 0;
        while k < cells.len()
            invariant
                cv == cells@.map_values(|c: Vec<u64>| c@),
                k <= cells@.len(),
                seen == seen_before + entity_pairs(e, cv.take(k as int)),
                out@ == first_occurrences(seen),
            decreases cells@.len() - k,
        {
            let members = &cells[k];
            let ghost seen_cell = seen;
            let mut m: usize = 0;
            while m < members.len()
                invariant
                    m <= members@.len(),
                    seen == seen_cell + cell_pairs(e, members@.take(m as int)),
                    out@ == first_occurrences(seen),
                decreases members@.len() - m,
            {
                let other = members[m];
                assert(members@.take(m + 1).drop_last() == members@.take(m as int));
                if other != e {
                    let p: Pair = if e < other {
                        (e, other)
                    } else {
                        (other, e)
                    };
                    add_first_occurrence(&mut out, p, Ghost(seen));
                    proof {
                        seen = seen.push(p);
                    }
                    assert(seen == seen_cell + cell_pairs(e, members@.take(m + 1)));
                } else {
                    assert(cell_pairs(e, members@.take(m + 1)) == cell_pairs(e, members@.take(m as int)));
                }
                m = m + 1;
            }
            assert(members@.take(members@.len() as int) == members@);
            assert(cv.take(k + 1).drop_last() == cv.take(k as int));
            assert(cv.take(k + 1).last() == members@);
            assert(entity_pairs(e, cv.take(k + 1)) == entity_pairs(e, cv.take(k as int)) + cell_pairs(
                e,
                members@,
            ));
            assert(seen == seen_before + entity_pairs(e, cv.take(k + 1)));
            k = k + 1;
        }
        assert(cv.take(cells@.len() as int) == cv);
        assert(ev.take(i + 1).drop_last() == ev.take(i as int));
        assert(ev.take(i + 1).last() == (e, cv));
        assert(seen == discovered(ev.take(i + 1)));
        i = i + 1;
    }
    assert(ev.take(entities@.len() as int) == ev);
    out
}

/// Strict lexicographic order on pairs.
pub open spec fn pair_lt(a: Pair, b: Pair) -> bool {
    a.0 < b.0 || (a.0 == b.0 && a.1 < b.1)
}

pub open spec fn strictly_sorted(s: Seq<Pair>) -> bool {
    forall|i: int, j: int| 0 <= i < j < s.len() ==> pair_lt(#[trigger] s[i], #[trigger] s[j])
}

/// Sorts distinct pairs ascending.
fn sort_pairs(v: &Vec<Pair>) -> (res: Vec<Pair>)
    ensures
        strictly_sorted(res@),
        res@.to_set() == v@.to_set(),
{
    let mut out: Vec<Pair> = Vec::new();
    let mut i: usize = 0;
    while i < v.len()
        invariant
            i <= v@.len(),
            strictly_sorted(out@),
            out@.to_set() == v@.take(i as int).to_set(),
        decreases v@.len() - i,
    {
        let p = v[i];
        assert(v@.take(i + 1) == v@.take(i as int).push(p));
        if contains_pair(&out, p) {
            assert(v@.take(i + 1).to_set() == out@.to_set()) by {
                assert(v@.take(i as int).push(p).to_set() == v@.take(i as int).to_set().insert(p));
            }
        } else {
            let mut pos: usize = 0;
            while pos < out.len() && pair_lt_exec(out[pos], p)
                invariant
                    pos <= out@.len(),
                    forall|j: int| 0 <= j < pos ==> pair_lt(#[trigger] out@[j], p),
                decreases out@.len() - pos,
            {
                pos = pos + 1;
            }
            let ghost before = out@;
            assert(forall|j: int| pos <= j < before.len() ==> pair_lt(p, #[trigger] before[j])) by {
                assert forall|j: int| pos <= j < before.len() implies pair_lt(p, #[trigger] before[j]) by {
                    assert(before[pos as int] != p) by {
                        if before[pos as int] == p {
                            assert(before.contains(p));
                        }
                    }
                    assert(!pair_lt(before[pos as int], p));
                    if j > pos {
                        assert(pair_lt(before[pos as int], before[j]));
                    }
                }
            }
            out.insert(pos, p);
            assert(out@ == before.insert(pos as int, p));
            assert forall|a: int, b: int| 0 <= a < b < out@.len() implies pair_lt(
                #[trigger] out@[a],
                #[trigger] out@[b],
            ) by {
                if b < pos {
                    assert(out@[a] == before[a] && out@[b] == before[b]);
                } else if b == pos {
                    assert(out@[a] == before[a]);
                } else if a < pos {
                    assert(out@[a] == before[a] && out@[b] == before[b - 1]);
                    assert(pair_lt(before[a], p));
                } else if a == pos {
                    assert(out@[b] == before[b - 1]);
                } else {
                    assert(out@[a] == before[a - 1] && out@[b] == before[b - 1]);
                }
            }
            assert(out@.to_set() == before.to_set().insert(p)) by {
                assert forall|x: Pair| out@.to_set().contains(x) <==> before.to_set().insert(p).contains(x) by {
                    if out@.contains(x) {
                        let k = choose|k: int| 0 <= k < out@.len() && out@[k] == x;
                        if k < pos {
                            assert(before[k] == x);
                        } else if k > pos {
                            assert(before[k - 1] == x);
                        }
                    }
                    if before.contains(x) {
                        let k = choose|k: int| 0 <= k < before.len() && before[k] == x;
                        if k < pos {
                            assert(out@[k] == x);
                        } else {
                            assert(out@[k + 1] == x);
                        }
                    }
                    if x == p {
                        assert(out@[pos as int] == p);
                    }
                }
            }
            assert(v@.take(i as int).push(p).to_set() == v@.take(i as int).to_set().insert(p));
        }
        i = i + 1;
    }
    assert(v@.take(v@.len() as int) == v@);
    out
}

fn pair_lt_exec(a: Pair, b: Pair) -> (res: bool)
    ensures
        res == pair_lt(a, b),
{
    a.0 < b.0 || (a.0 == b.0 && a.1 < b.1)
}

/// Contact transitions for one frame: the pairs that started overlapping
/// (overlapping now, not active before) and those that ended (active
/// before, not overlapping now), each ascending; `active` is updated to
/// exactly the overlapping set.
pub fn contact_transitions(active: &mut Vec<Pair>, overlapping: &Vec<Pair>) -> (res: (
    Vec<Pair>,
    Vec<Pair>,
))
    ensures
        strictly_sorted(res.0@),
        strictly_sorted(res.1@),
        res.0@.to_set() == overlapping@.to_set().difference(old(active)@.to_set()),
        res.1@.to_set() == old(active)@.to_set().difference(overlapping@.to_set()),
        final(active)@.to_set() == overlapping@.to_set(),
{
    let mut started: Vec<Pair> = Vec::new();
    let mut i: usize = 0;
    while i < overlapping.len()
        invariant
            i <= overlapping@.len(),
            started@.to_set() == overlapping@.take(i as int).to_set().difference(active@.to_set()),
        decreases overlapping@.len() - i,
    {
        let p = overlapping[i];
        assert(overlapping@.take(i + 1) == overlapping@.take(i as int).push(p));
        let ghost before = started@;
        if !contains_pair(active, p) {
            started.push(p);
            assert(started@.to_set() == before.to_set().insert(p)) by {
                assert(started@ == before.push(p));
            }
        }
        assert(overlapping@.take(i as int).push(p).to_set() == overlapping@.take(i as int).to_set().insert(p));
        assert(started@.to_set() =~= overlapping@.take(i + 1).to_set().difference(active@.to_set()));
        i = i + 1;
    }
    let mut ended: Vec<Pair> = Vec::new();
    let mut j: usize = 0;
    while j < active.len()
        invariant
            j <= active@.len(),
            ended@.to_set() == active@.take(j as int).to_set().difference(overlapping@.to_set()),
        decreases active@.len() - j,
    {
        let p = active[j];
        assert(active@.take(j + 1) == active@.take(j as int).push(p));
        let ghost before = ended@;
        if !contains_pair(overlapping, p) {
            ended.push(p);
            assert(ended@.to_set() == before.to_set().insert(p)) by {
                assert(ended@ == before.push(p));
            }
        }
        assert(active@.take(j as int).push(p).to_set() == active@.take(j as int).to_set().insert(p));
        assert(ended@.to_set() =~= active@.take(j + 1).to_set().difference(overlapping@.to_set()));
        j = j + 1;
    }
    assert(overlapping@.take(overlapping@.len() as int) == overlapping@);
    assert(active@.take(active@.len() as int) == active@);
    let started_sorted = sort_pairs(&started);
    let ended_sorted = sort_pairs(&ended);
    let mut next: Vec<Pair> = Vec::new();
    let mut k: usize = 0;
    while k < overlapping.len()
        invariant
            k <= overlapping@.len(),
            next@ == overlapping@.take(k as int),
        decreases overlapping@.len() - k,
    {
        next.push(overlapping[k]);
        assert(overlapping@.take(k + 1) == overlapping@.take(k as int).push(overlapping@[k as int]));
        k = k + 1;
    }
    *active = next;
    (started_sorted, ended_sorted)
}

/// Broadphase reports each pair once, and exactly the pairs discovered.
pub proof fn lemma_first_occurrences_distinct(s: Seq<Pair>)
    ensures
        first_occurrences(s).no_duplicates(),
        first_occurrences(s).to_set() == s.to_set(),
    decreases s.len(),
{
    if s.len() > 0 {
        lemma_first_occurrences_distinct(s.drop_last());
        assert(s =~= s.drop_last().push(s.last()));
        let f = first_occurrences(s.drop_last());
        if !f.contains(s.last()) {
            assert forall|i: int, j: int| 0 <= i < j < f.push(s.last()).len() implies f.push(
                s.last(),
            )[i] != f.push(s.last())[j] by {
                if j == f.len() {
                    assert(f.push(s.last())[i] == f[i]);
                }
            }
        } else {
            assert(s.to_set() =~= s.drop_last().to_set().insert(s.last()));
        }
    }
}

/// Every reported pair is canonical: its smaller key first, never an
/// entity paired with itself.
pub proof fn lemma_discovered_canonical(entities: Seq<(u64, Seq<Seq<u64>>)>)
    ensures
        forall|k: int|
            0 <= k < discovered(entities).len() ==> (#[trigger] discovered(entities)[k]).0
                < discovered(entities)[k].1,
    decreases entities.len(),
{
    if entities.len() > 0 {
        lemma_discovered_canonical(entities.drop_last());
        lemma_entity_pairs_canonical(entities.last().0, entities.last().1);
        let a = discovered(entities.drop_last());
        let b = entity_pairs(entities.last().0, entities.last().1);
        assert forall|k: int| 0 <= k < (a + b).len() implies (#[trigger] (a + b)[k]).0 < (a
            + b)[k].1 by {
            if k < a.len() {
                assert((a + b)[k] == a[k]);
            } else {
                assert((a + b)[k] == b[k - a.len()]);
            }
        }
    }
}

proof fn lemma_entity_pairs_canonical(e: u64, cells: Seq<Seq<u64>>)
    ensures
        forall|k: int|
            0 <= k < entity_pairs(e, cells).len() ==> (#[trigger] entity_pairs(e, cells)[k]).0
                < entity_pairs(e, cells)[k].1,
    decreases cells.len(),
{
    if cells.len() > 0 {
        lemma_entity_pairs_canonical(e, cells.drop_last());
        lemma_cell_pairs_canonical(e, cells.last());
        let a = entity_pairs(e, cells.drop_last());
        let b = cell_pairs(e, cells.last());
        assert forall|k: int| 0 <= k < (a + b).len() implies (#[trigger] (a + b)[k]).0 < (a
            + b)[k].1 by {
            if k < a.len() {
                assert((a + b)[k] == a[k]);
            } else {
                assert((a + b)[k] == b[k - a.len()]);
            }
        }
    }
}

proof fn lemma_cell_pairs_canonical(e: u64, members: Seq<u64>)
    ensures
        forall|k: int|
            0 <= k < cell_pairs(e, members).len() ==> (#[trigger] cell_pairs(e, members)[k]).0
                < cell_pairs(e, members)[k].1,
    decreases members.len(),
{
    if members.len() > 0 {
        lemma_cell_pairs_canonical(e, members.drop_last());
        let a = cell_pairs(e, members.drop_last());
        if members.last() != e {
            let x = canonical(e, members.last());
            assert forall|k: int| 0 <= k < a.push(x).len() implies (#[trigger] a.push(x)[k]).0 < a.push(
                x,
            )[k].1 by {
                if k < a.len() {
                    assert(a.push(x)[k] == a[k]);
                }
            }
        }
    }
}

/// A frame whose overlapping pairs are exactly the active ones reports no
/// contact starting and none ending.
pub proof fn lemma_steady_contacts(active: Set<Pair>, overlapping: Set<Pair>)
    requires
        active == overlapping,
    ensures
        overlapping.difference(active) == Set::<Pair>::empty(),
        active.difference(overlapping) == Set::<Pair>::empty(),
{
    assert(overlapping.difference(active) =~= Set::<Pair>::empty());
    assert(active.difference(overlapping) =~= Set::<Pair>::empty());
}

proof fn lemma_concat_contains(a: Seq<Pair>, b: Seq<Pair>, p: Pair)
    ensures
        (a + b).contains(p) <==> (a.contains(p) || b.contains(p)),
{
    if a.contains(p) {
        let k = choose|k: int| 0 <= k < a.len() && a[k] == p;
        assert((a + b)[k] == p);
    }
    if b.contains(p) {
        let k = choose|k: int| 0 <= k < b.len() && b[k] == p;
        assert((a + b)[a.len() + k] == p);
    }
    if (a + b).contains(p) {
        let k = choose|k: int| 0 <= k < (a + b).len() && (a + b)[k] == p;
        if k < a.len() {
            assert(a[k] == p);
        } else {
            assert(b[k - a.len()] == p);
        }
    }
}

proof fn lemma_push_contains(a: Seq<Pair>, x: Pair, p: Pair)
    ensures
        a.push(x).contains(p) <==> (a.contains(p) || p == x),
{
    if a.contains(p) {
        let k = choose|k: int| 0 <= k < a.len() && a[k] == p;
        assert(a.push(x)[k] == p);
    }
    assert(a.push(x)[a.len() as int] == x);
    if a.push(x).contains(p) {
        let k = choose|k: int| 0 <= k < a.push(x).len() && a.push(x)[k] == p;
        if k < a.len() {
            assert(a[k] == p);
        }
    }
}

/// `p` pairs `e` with a member of `members` other than `e`.
spec fn pairs_with_member(e: u64, members: Seq<u64>, p: Pair) -> bool {
    exists|k: int| 0 <= k < members.len() && members[k] != e && p == canonical(e, #[trigger] members[k])
}

proof fn lemma_cell_pairs_exact(e: u64, members: Seq<u64>, p: Pair)
    ensures
        cell_pairs(e, members).contains(p) <==> pairs_with_member(e, members, p),
    decreases members.len(),
{
    if members.len() > 0 {
        let m = members.drop_last();
        let l = members.last();
        lemma_cell_pairs_exact(e, m, p);
        if pairs_with_member(e, m, p) {
            let k = choose|k: int| 0 <= k < m.len() && m[k] != e && p == canonical(e, #[trigger] m[k]);
            assert(members[k] == m[k]);
        }
        if pairs_with_member(e, members, p) {
            let k = choose|k: int| 0 <= k < members.len() && members[k] != e && p == canonical(e, #[trigger] members[k]);
            if k < m.len() {
                assert(m[k] == members[k]);
            }
        }
        if l != e {
            lemma_push_contains(cell_pairs(e, m), canonical(e, l), p);
            assert(members[members.len() - 1] == l);
        }
    } else {
        assert(!cell_pairs(e, members).contains(p));
    }
}

/// `p` pairs `e` with a member other than `e` of one of `cells`.
spec fn pairs_in_cells(e: u64, cells: Seq<Seq<u64>>, p: Pair) -> bool {
    exists|j: int| 0 <= j < cells.len() && pairs_with_member(e, #[trigger] cells[j], p)
}

proof fn lemma_entity_pairs_exact(e: u64, cells: Seq<Seq<u64>>, p: Pair)
    ensures
        entity_pairs(e, cells).contains(p) <==> pairs_in_cells(e, cells, p),
    decreases cells.len(),
{
    if cells.len() > 0 {
        let c = cells.drop_last();
        lemma_entity_pairs_exact(e, c, p);
        lemma_cell_pairs_exact(e, cells.last(), p);
        lemma_concat_contains(entity_pairs(e, c), cell_pairs(e, cells.last()), p);
        if pairs_in_cells(e, c, p) {
            let j = choose|j: int| 0 <= j < c.len() && pairs_with_member(e, #[trigger] c[j], p);
            assert(cells[j] == c[j]);
        }
        if pairs_in_cells(e, cells, p) {
            let j = choose|j: int| 0 <= j < cells.len() && pairs_with_member(e, #[trigger] cells[j], p);
            if j < c.len() {
                assert(c[j] == cells[j]);
            }
        }
        assert(cells[cells.len() - 1] == cells.last());
    } else {
        assert(!entity_pairs(e, cells).contains(p));
    }
}

/// `p` pairs some entity with another member of one of its cells.
spec fn pairs_of_entities(ev: Seq<(u64, Seq<Seq<u64>>)>, p: Pair) -> bool {
    exists|i: int| 0 <= i < ev.len() && pairs_in_cells((#[trigger] ev[i]).0, ev[i].1, p)
}

proof fn lemma_discovered_exact(ev: Seq<(u64, Seq<Seq<u64>>)>, p: Pair)
    ensures
        discovered(ev).contains(p) <==> pairs_of_entities(ev, p),
    decreases ev.len(),
{
    if ev.len() > 0 {
        let d = ev.drop_last();
        lemma_discovered_exact(d, p);
        lemma_entity_pairs_exact(ev.last().0, ev.last().1, p);
        lemma_concat_contains(discovered(d), entity_pairs(ev.last().0, ev.last().1), p);
        if pairs_of_entities(d, p) {
            let i = choose|i: int| 0 <= i < d.len() && pairs_in_cells((#[trigger] d[i]).0, d[i].1, p);
            assert(ev[i] == d[i]);
        }
        if pairs_of_entities(ev, p) {
            let i = choose|i: int| 0 <= i < ev.len() && pairs_in_cells((#[trigger] ev[i]).0, ev[i].1, p);
            if i < d.len() {
                assert(d[i] == ev[i]);
            }
        }
        assert(ev[ev.len() - 1] == ev.last());
    } else {
        assert(!discovered(ev).contains(p));
    }
}

/// Broadphase law: the candidate pairs of `candidate_pairs` (the first
/// occurrences of the discovered pairs) are each reported once, and a pair
/// is reported exactly when it is `(min, max)` of some entity `e` and some
/// member `o != e` of one of the cells listed for `e`.
pub proof fn lemma_candidate_pairs_law(ev: Seq<(u64, Seq<Seq<u64>>)>)
    ensures
        first_occurrences(discovered(ev)).no_duplicates(),
        forall|i: int, j: int, k: int|
            0 <= i < ev.len() && 0 <= j < ev[i].1.len() && 0 <= k < ev[i].1[j].len() && ev[i].1[j][k]
                != ev[i].0 ==> first_occurrences(discovered(ev)).contains(
                if ev[i].0 < ev[i].1[j][k] {
                    (ev[i].0, ev[i].1[j][k])
                } else {
                    (ev[i].1[j][k], ev[i].0)
                },
            ),
        forall|p: Pair|
            #[trigger] first_occurrences(discovered(ev)).contains(p) ==> exists|i: int, j: int, k: int|
                0 <= i < ev.len() && 0 <= j < ev[i].1.len() && 0 <= k < ev[i].1[j].len() && ev[i].1[j][k]
                    != ev[i].0 && p == (if ev[i].0 < ev[i].1[j][k] {
                    (ev[i].0, ev[i].1[j][k])
                } else {
                    (ev[i].1[j][k], ev[i].0)
                }),
{
    let d = discovered(ev);
    let f = first_occurrences(d);
    lemma_first_occurrences_distinct(d);
    assert forall|p: Pair| f.contains(p) <==> d.contains(p) by {
        assert(f.to_set().contains(p) == f.contains(p));
        assert(d.to_set().contains(p) == d.contains(p));
    }
    assert forall|i: int, j: int, k: int|
        0 <= i < ev.len() && 0 <= j < ev[i].1.len() && 0 <= k < ev[i].1[j].len() && ev[i].1[j][k]
            != ev[i].0 implies f.contains(
        if ev[i].0 < ev[i].1[j][k] {
            (ev[i].0, ev[i].1[j][k])
        } else {
            (ev[i].1[j][k], ev[i].0)
        },
    ) by {
        let p = canonical(ev[i].0, ev[i].1[j][k]);
        assert(pairs_with_member(ev[i].0, ev[i].1[j], p));
        assert(pairs_in_cells(ev[i].0, ev[i].1, p));
        assert(pairs_of_entities(ev, p));
        lemma_discovered_exact(ev, p);
    }
    assert forall|p: Pair| #[trigger] f.contains(p) implies exists|i: int, j: int, k: int|
        0 <= i < ev.len() && 0 <= j < ev[i].1.len() && 0 <= k < ev[i].1[j].len() && ev[i].1[j][k]
            != ev[i].0 && p == (if ev[i].0 < ev[i].1[j][k] {
            (ev[i].0, ev[i].1[j][k])
        } else {
            (ev[i].1[j][k], ev[i].0)
        }) by {
        lemma_discovered_exact(ev, p);
        let i = choose|i: int| 0 <= i < ev.len() && pairs_in_cells((#[trigger] ev[i]).0, ev[i].1, p);
        let j = choose|j: int| 0 <= j < ev[i].1.len() && pairs_with_member(ev[i].0, #[trigger] ev[i].1[j], p);
        let k = choose|k: int|
            0 <= k < ev[i].1[j].len() && ev[i].1[j][k] != ev[i].0 && p == canonical(ev[i].0, #[trigger] ev[i].1[j][k]);
        assert(ev[i].1[j][k] != ev[i].0);
    }
}

/// Contact events come in ascending pair order: in a list that
/// `contact_transitions` returns (strictly sorted), every pair comes before
/// each later one by its first key, or by its second key when the first
/// keys are equal; so no pair is listed twice.
pub proof fn lemma_transitions_ascending(s: Seq<Pair>)
    requires
        strictly_sorted(s),
    ensures
        forall|i: int, j: int|
            0 <= i < j < s.len() ==> (#[trigger] s[i]).0 < (#[trigger] s[j]).0 || (s[i].0 == s[j].0 && s[i].1 < s[j].1),
        s.no_duplicates(),
{
    assert forall|i: int, j: int| 0 <= i < j < s.len() implies (#[trigger] s[i]).0 < (#[trigger] s[j]).0 || (s[i].0
        == s[j].0 && s[i].1 < s[j].1) by {
        assert(pair_lt(s[i], s[j]));
    }
}

/// `x` occurs in `s` before position `b`.
pub open spec fn occurs_before(s: Seq<Pair>, x: Pair, b: int) -> bool {
    exists|a: int| 0 <= a < b && s[a] == x
}

/// Discovery-order law: of two reported pairs, the one reported first was
/// discovered first: every discovery of the later pair comes after some
/// discovery of the earlier one.
pub proof fn lemma_first_occurrences_order(s: Seq<Pair>)
    ensures
        forall|k1: int, k2: int, b: int|
            #![trigger first_occurrences(s)[k1], first_occurrences(s)[k2], s[b]]
            0 <= k1 < k2 < first_occurrences(s).len() && 0 <= b < s.len() && s[b] == first_occurrences(s)[k2]
                ==> occurs_before(s, first_occurrences(s)[k1], b),
    decreases s.len(),
{
    if s.len() > 0 {
        let t = s.drop_last();
        let f = first_occurrences(t);
        let g = first_occurrences(s);
        lemma_first_occurrences_order(t);
        lemma_first_occurrences_distinct(t);
        assert forall|k1: int, k2: int, b: int|
            #![trigger g[k1], g[k2], s[b]]
            0 <= k1 < k2 < g.len() && 0 <= b < s.len() && s[b] == g[k2] implies occurs_before(s, g[k1], b) by {
            assert(g[k1] == f[k1]);
            assert(f.to_set().contains(f[k1]));
            assert(t.contains(f[k1]));
            let a0 = choose|a: int| 0 <= a < t.len() && t[a] == f[k1];
            assert(s[a0] == t[a0]);
            if k2 < f.len() {
                assert(g[k2] == f[k2]);
                if b < t.len() {
                    assert(t[b] == s[b]);
                    assert(t[b] == f[k2]);
                    assert(occurs_before(t, f[k1], b));
                    let a = choose|a: int| 0 <= a < b && t[a] == f[k1];
                    assert(s[a] == t[a]);
                } else {
                    assert(f.to_set().contains(f[k2]));
                    assert(t.contains(f[k2]));
                    let b2 = choose|b2: int| 0 <= b2 < t.len() && t[b2] == f[k2];
                    assert(t[b2] == f[k2]);
                    assert(occurs_before(t, f[k1], b2));
                    let a = choose|a: int| 0 <= a < b2 && t[a] == f[k1];
                    assert(s[a] == t[a]);
                }
            } else {
                assert(g == f.push(s.last()));
                assert(g[k2] == s.last());
                assert(!f.contains(s.last()));
                if b < t.len() {
                    assert(t[b] == s.last());
                    assert(t.contains(s.last()));
                    assert(t.to_set().contains(s.last()));
                    assert(f.to_set().contains(s.last()));
                    assert(false);
                }
            }
        }
    } else {
        assert(first_occurrences(s).len() == 0);
    }
}

} // verus!
