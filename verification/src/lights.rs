//! Point-light selection: the lights uploaded each frame are the ones
//! nearest the camera focus, at most the GPU array's capacity, nearest
//! first, ties kept in the order the lights were gathered. Distances are
//! handed in as integer keys whose order is the order of the distances.
use vstd::prelude::*;
use crate::instance::count_true;

verus! {

/// Capacity of the GPU point-light array.
pub const MAX_POINT_LIGHTS: usize = 16;

/// Light `a` is nearer than light `b`, or as near and gathered earlier.
pub open spec fn nearer(keys: Seq<u32>, a: int, b: int) -> bool {
    keys[a] < keys[b] || (keys[a] == keys[b] && a < b)
}

/// `r` lists the `min(n, cap)` nearest lights by index, nearest first.
pub open spec fn nearest_selection(keys: Seq<u32>, cap: int, r: Seq<usize>) -> bool {
    &&& r.len() == if keys.len() < cap { keys.len() as int } else { cap }
    &&& forall|j: int| 0 <= j < r.len() ==> (#[trigger] r[j]) < keys.len()
    &&& forall|j1: int, j2: int| 0 <= j1 < j2 < r.len() ==> nearer(keys, #[trigger] r[j1] as int, #[trigger] r[j2] as int)
    &&& forall|i: int, j: int|
        0 <= i < keys.len() && !r.contains(i as usize) && 0 <= j < r.len() ==> #[trigger] nearer(keys, r[j] as int, i)
}

proof fn lemma_some_false(s: Seq<bool>)
    requires
        count_true(s) < s.len(),
    ensures
        exists|i: int| 0 <= i < s.len() && !s[i],
    decreases s.len(),
{
    if s.last() {
        lemma_some_false(s.drop_last());
        let i = choose|i: int| 0 <= i < s.drop_last().len() && !s.drop_last()[i];
        assert(s[i] == s.drop_last()[i]);
    } else {
        assert(!s[s.len() - 1]);
    }
}

proof fn lemma_count_true_update_false_to_true(s: Seq<bool>, i: int)
    requires
        0 <= i < s.len(),
        !s[i],
    ensures
        count_true(s.update(i, true)) == count_true(s) + 1,
    decreases s.len(),
{
    if i == s.len() - 1 {
        assert(s.update(i, true).drop_last() =~= s.drop_last());
    } else {
        lemma_count_true_update_false_to_true(s.drop_last(), i);
        assert(s.update(i, true).drop_last() =~= s.drop_last().update(i, true));
    }
}

/// Indices of the `cap` nearest lights (all of them when there are fewer),
/// nearest first.
pub fn select_nearest(keys: &Vec<u32>, cap: usize) -> (r: Vec<usize>)
    ensures
        nearest_selection(keys@, cap as int, r@),
{
    let n = keys.len();
    let mut out: Vec<usize> = Vec::new();
    let mut taken: Vec<bool> = Vec::new();
    let mut k: usize = 0;
    while k < n
        invariant
            k <= n,
            n == keys@.len(),
            taken@.len() == k,
            forall|i: int| 0 <= i < k ==> !taken@[i],
        decreases n - k,
    {
        taken.push(false);
        k = k + 1;
    }
    proof {
        assert(count_true(taken@) == 0) by {
            lemma_all_false(taken@);
        }
    }
    while out.len() < cap && out.len() < n
        invariant
            n == keys@.len(),
            taken@.len() == n,
            out@.len() <= n,
            out@.len() <= cap,
            out@.len() == count_true(taken@),
            forall|i: int| 0 <= i < n ==> (#[trigger] taken@[i] <==> out@.contains(i as usize)),
            forall|j: int| 0 <= j < out@.len() ==> (#[trigger] out@[j]) < n,
            forall|j1: int, j2: int|
                0 <= j1 < j2 < out@.len() ==> nearer(keys@, #[trigger] out@[j1] as int, #[trigger] out@[j2] as int),
            forall|i: int, j: int|
                0 <= i < n && !taken@[i] && 0 <= j < out@.len() ==> #[trigger] nearer(keys@, out@[j] as int, i),
        decreases n - out@.len(),
    {
        proof {
            lemma_some_false(taken@);
        }
        let mut best: usize = n;
        let mut i: usize = 0;
        while i < n
            invariant
                n == keys@.len(),
                taken@.len() == n,
                i <= n,
                best == n || (best < i && !taken@[best as int]),
                best == n ==> forall|q: int| 0 <= q < i ==> taken@[q],
                best < n ==> forall|q: int|
                    0 <= q < i && !taken@[q] && q != best ==> nearer(keys@, best as int, q),
            decreases n - i,
        {
            let ghost old_best = best;
            if !taken[i] {
                if best == n || keys[i] < keys[best] {
                    best = i;
                }
            }
            proof {
                if best < n {
                    assert forall|q: int| 0 <= q < i + 1 && !taken@[q] && q != best implies nearer(
                        keys@,
                        best as int,
                        q,
                    ) by {
                        if old_best < n && q < i && q != old_best {
                            assert(nearer(keys@, old_best as int, q));
                        }
                    }
                }
            }
            i = i + 1;
        }
        let ghost t = taken@;
        let ghost before = out@;
        proof {
            assert(best < n);
            lemma_count_true_update_false_to_true(t, best as int);
        }
        taken.set(best, true);
        out.push(best);
        proof {
            assert forall|q: int| 0 <= q < n implies (#[trigger] taken@[q] <==> out@.contains(q as usize)) by {
                if q == best {
                    assert(out@[before.len() as int] == best);
                } else {
                    assert(taken@[q] == t[q]);
                    if before.contains(q as usize) {
                        let j = choose|j: int| 0 <= j < before.len() && before[j] == q as usize;
                        assert(out@[j] == before[j]);
                    }
                    if out@.contains(q as usize) {
                        let j = choose|j: int| 0 <= j < out@.len() && out@[j] == q as usize;
                        if j < before.len() {
                            assert(before[j] == out@[j]);
                        }
                    }
                }
            }
            assert forall|j1: int, j2: int| 0 <= j1 < j2 < out@.len() implies nearer(
                keys@,
                #[trigger] out@[j1] as int,
                #[trigger] out@[j2] as int,
            ) by {
                assert(out@[j1] == before[j1]);
                if j2 < before.len() {
                    assert(out@[j2] == before[j2]);
                }
            }
            assert forall|q: int, j: int|
                0 <= q < n && !taken@[q] && 0 <= j < out@.len() implies #[trigger] nearer(
                keys@,
                out@[j] as int,
                q,
            ) by {
                assert(taken@[q] == t[q]);
                assert(q != best);
                if j < before.len() {
                    assert(out@[j] == before[j]);
                }
            }
        }
    }
    proof {
        assert forall|i: int, j: int|
            0 <= i < keys@.len() && !out@.contains(i as usize) && 0 <= j < out@.len() implies #[trigger] nearer(
            keys@,
            out@[j] as int,
            i,
        ) by {
            assert(!taken@[i]);
        }
    }
    out
}

proof fn lemma_all_false(s: Seq<bool>)
    requires
        forall|i: int| 0 <= i < s.len() ==> !s[i],
    ensures
        count_true(s) == 0,
    decreases s.len(),
{
    if s.len() > 0 {
        assert forall|i: int| 0 <= i < s.drop_last().len() implies !s.drop_last()[i] by {
            assert(s.drop_last()[i] == s[i]);
        }
        lemma_all_false(s.drop_last());
        assert(!s[s.len() - 1]);
    }
}

/// Light-selection law: the lights `select_nearest` picks are
/// `min(n, cap)` distinct lights listed nearest first (a tie goes to the
/// light gathered first), and none left out is nearer than any picked.
pub proof fn lemma_nearest_law(keys: Seq<u32>, cap: int, r: Seq<usize>)
    requires
        nearest_selection(keys, cap, r),
    ensures
        r.len() == if keys.len() < cap { keys.len() as int } else { cap },
        forall|j: int| 0 <= j < r.len() ==> #[trigger] r[j] < keys.len(),
        forall|j1: int, j2: int|
            0 <= j1 < j2 < r.len() ==> keys[#[trigger] r[j1] as int] < keys[#[trigger] r[j2] as int] || (keys[r[j1]
                as int] == keys[r[j2] as int] && r[j1] < r[j2]),
        r.no_duplicates(),
        forall|i: int, j: int|
            0 <= i < keys.len() && !r.contains(i as usize) && 0 <= j < r.len() ==> keys[#[trigger] r[j] as int]
                <= #[trigger] keys[i],
{
    assert forall|j1: int, j2: int| 0 <= j1 < j2 < r.len() implies keys[#[trigger] r[j1] as int] < keys[#[trigger] r[
        j2] as int] || (keys[r[j1] as int] == keys[r[j2] as int] && r[j1] < r[j2]) by {
        assert(nearer(keys, r[j1] as int, r[j2] as int));
    }
    assert forall|i: int, j: int| 0 <= i < keys.len() && !r.contains(i as usize) && 0 <= j < r.len() implies keys[
        #[trigger] r[j] as int] <= #[trigger] keys[i] by {
        assert(nearer(keys, r[j] as int, i));
    }
}

} // verus!
