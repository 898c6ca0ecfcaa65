//! Per-frame draw packing. Each visible mesh instance is tagged with the
//! volumes that see it (camera frustum, shadow volume, or both); packing
//! groups the instances by mesh and, within a mesh, puts the ones both
//! volumes see first, then camera-only, then shadow-only. The camera pass
//! then draws one range per mesh over the first two classes, and the shadow
//! pass one range over the first class and one over the last.
use vstd::prelude::*;

verus! {

/// Which of the two volumes (camera frustum, shadow volume) sees a box.
/// Packing order is `Both`, then `CamOnly`, then `ShadowOnly`.
#[derive(Clone, Copy, PartialEq, Eq, Structural, Debug)]
pub enum Visibility {
    Both,
    CamOnly,
    ShadowOnly,
}

/// Position of a class in packing order.
pub open spec fn vis_rank(v: Visibility) -> int {
    match v {
        Visibility::Both => 0,
        Visibility::CamOnly => 1,
        Visibility::ShadowOnly => 2,
    }
}

/// Combines the two intersection tests; `None` when neither volume sees the box.
pub fn classify_visibility(in_camera: bool, in_shadow: bool) -> (v: Option<Visibility>)
    ensures
        v == (if in_camera && in_shadow {
            Some(Visibility::Both)
        } else if in_camera {
            Some(Visibility::CamOnly)
        } else if in_shadow {
            Some(Visibility::ShadowOnly)
        } else {
            None
        }),
{
    match (in_camera, in_shadow) {
        (true, true) => Some(Visibility::Both),
        (true, false) => Some(Visibility::CamOnly),
        (false, true) => Some(Visibility::ShadowOnly),
        (false, false) => None,
    }
}

/// Number of items of `s` satisfying `p`.
pub open spec fn count_items<T>(
    s: Seq<(usize, Visibility, T)>,
    p: spec_fn((usize, Visibility, T)) -> bool,
) -> nat
    decreases s.len(),
{
    if s.len() == 0 {
        0
    } else {
        count_items(s.drop_last(), p) + if p(s.last()) { 1nat } else { 0nat }
    }
}

pub open spec fn below_pred<T>(m: int) -> spec_fn((usize, Visibility, T)) -> bool {
    |x: (usize, Visibility, T)| (x.0 as int) < m
}

pub open spec fn class_pred<T>(m: int, v: Visibility) -> spec_fn((usize, Visibility, T)) -> bool {
    |x: (usize, Visibility, T)| x.0 as int == m && x.1 == v
}

pub open spec fn packs_before_pred<T>(m: int, v: Visibility) -> spec_fn((usize, Visibility, T)) -> bool {
    |x: (usize, Visibility, T)| (x.0 as int) < m || (x.0 as int == m && vis_rank(x.1) < vis_rank(v))
}

/// Items of a mesh below `m`.
pub open spec fn below<T>(s: Seq<(usize, Visibility, T)>, m: int) -> nat {
    count_items(s, below_pred(m))
}

/// Items of mesh `m` in class `v`.
pub open spec fn class_count<T>(s: Seq<(usize, Visibility, T)>, m: int, v: Visibility) -> nat {
    count_items(s, class_pred(m, v))
}

/// Items that pack before `(m, v)`: a lower mesh, or mesh `m` in an earlier class.
pub open spec fn packs_before<T>(s: Seq<(usize, Visibility, T)>, m: int, v: Visibility) -> nat {
    count_items(s, packs_before_pred(m, v))
}

/// Where item `i` of `s` lands among the packed items: after every item
/// that packs before it, and after the items of its own mesh and class
/// that precede it in `s` (packing is stable).
pub open spec fn packed_position<T>(s: Seq<(usize, Visibility, T)>, i: int) -> int {
    (packs_before(s, s[i].0 as int, s[i].1) + class_count(s.take(i), s[i].0 as int, s[i].1)) as int
}

/// Items of mesh `m` the camera draws.
pub open spec fn camera_count<T>(s: Seq<(usize, Visibility, T)>, m: int) -> nat {
    class_count(s, m, Visibility::Both) + class_count(s, m, Visibility::CamOnly)
}

/// `e` is mesh `e.0`'s shadow range over its `Both` items.
pub open spec fn is_both_range<T>(s: Seq<(usize, Visibility, T)>, b: int, e: (usize, u32, u32)) -> bool {
    &&& e.1 as int == b + below(s, e.0 as int)
    &&& e.2 as int == class_count(s, e.0 as int, Visibility::Both)
}

/// `e` is mesh `e.0`'s shadow range over its `ShadowOnly` items.
pub open spec fn is_shadow_only_range<T>(
    s: Seq<(usize, Visibility, T)>,
    b: int,
    e: (usize, u32, u32),
) -> bool {
    &&& e.1 as int == b + below(s, e.0 as int) + camera_count(s, e.0 as int)
    &&& e.2 as int == class_count(s, e.0 as int, Visibility::ShadowOnly)
}

/// `r` holds, by ascending mesh, one range per mesh below `hi` that the
/// camera sees: `(mesh, first, count)` over its `Both` and `CamOnly` items,
/// where the packed items start at `b`.
pub open spec fn camera_ranges_ok<T>(
    s: Seq<(usize, Visibility, T)>,
    b: int,
    r: Seq<(usize, u32, u32)>,
    hi: int,
) -> bool {
    &&& forall|k: int|
        0 <= k < r.len() ==> {
            &&& ((#[trigger] r[k]).0 as int) < hi
            &&& r[k].1 as int == b + below(s, r[k].0 as int)
            &&& r[k].2 as int == camera_count(s, r[k].0 as int)
            &&& r[k].2 > 0
        }
    &&& forall|k1: int, k2: int| 0 <= k1 < k2 < r.len() ==> (#[trigger] r[k1]).0 < (#[trigger] r[k2]).0
    &&& forall|m: usize|
        (m as int) < hi && #[trigger] camera_count(s, m as int) > 0 ==> exists|k: int|
            0 <= k < r.len() && (#[trigger] r[k]).0 == m
}

/// `r` holds, by ascending first index, the nonempty shadow ranges of the
/// meshes below `hi`: per mesh, one over its `Both` items and one over its
/// `ShadowOnly` items.
pub open spec fn shadow_ranges_ok<T>(
    s: Seq<(usize, Visibility, T)>,
    b: int,
    r: Seq<(usize, u32, u32)>,
    hi: int,
) -> bool {
    &&& forall|k: int|
        0 <= k < r.len() ==> {
            &&& ((#[trigger] r[k]).0 as int) < hi
            &&& r[k].2 > 0
            &&& is_both_range(s, b, r[k]) || is_shadow_only_range(s, b, r[k])
        }
    &&& forall|k1: int, k2: int| 0 <= k1 < k2 < r.len() ==> (#[trigger] r[k1]).1 < (#[trigger] r[k2]).1
    &&& forall|m: usize|
        (m as int) < hi && #[trigger] class_count(s, m as int, Visibility::Both) > 0 ==> exists|k: int|
            0 <= k < r.len() && (#[trigger] r[k]).0 == m && is_both_range(s, b, r[k])
    &&& forall|m: usize|
        (m as int) < hi && #[trigger] class_count(s, m as int, Visibility::ShadowOnly) > 0
            ==> exists|k: int| 0 <= k < r.len() && (#[trigger] r[k]).0 == m && is_shadow_only_range(s, b, r[k])
}

proof fn lemma_count_take_next<T>(
    s: Seq<(usize, Visibility, T)>,
    p: spec_fn((usize, Visibility, T)) -> bool,
    i: int,
)
    requires
        0 <= i < s.len(),
    ensures
        count_items(s.take(i + 1), p) == count_items(s.take(i), p) + if p(s[i]) { 1nat } else { 0nat },
{
    assert(s.take(i + 1).drop_last() =~= s.take(i));
}

proof fn lemma_count_agree<T>(
    s: Seq<(usize, Visibility, T)>,
    p: spec_fn((usize, Visibility, T)) -> bool,
    q: spec_fn((usize, Visibility, T)) -> bool,
)
    requires
        forall|k: int| 0 <= k < s.len() ==> p(#[trigger] s[k]) == q(s[k]),
    ensures
        count_items(s, p) == count_items(s, q),
    decreases s.len(),
{
    if s.len() > 0 {
        assert forall|k: int| 0 <= k < s.drop_last().len() implies p(#[trigger] s.drop_last()[k]) == q(
            s.drop_last()[k],
        ) by {
            assert(s.drop_last()[k] == s[k]);
        }
        lemma_count_agree(s.drop_last(), p, q);
        assert(s.last() == s[s.len() - 1]);
    }
}

proof fn lemma_count_split<T>(
    s: Seq<(usize, Visibility, T)>,
    r: spec_fn((usize, Visibility, T)) -> bool,
    p: spec_fn((usize, Visibility, T)) -> bool,
    q: spec_fn((usize, Visibility, T)) -> bool,
)
    requires
        forall|k: int|
            0 <= k < s.len() ==> (r(#[trigger] s[k]) == (p(s[k]) || q(s[k]))) && !(p(s[k]) && q(s[k])),
    ensures
        count_items(s, r) == count_items(s, p) + count_items(s, q),
    decreases s.len(),
{
    if s.len() > 0 {
        assert forall|k: int| 0 <= k < s.drop_last().len() implies (r(#[trigger] s.drop_last()[k]) == (p(
            s.drop_last()[k],
        ) || q(s.drop_last()[k]))) && !(p(s.drop_last()[k]) && q(s.drop_last()[k])) by {
            assert(s.drop_last()[k] == s[k]);
        }
        lemma_count_split(s.drop_last(), r, p, q);
        assert(s.last() == s[s.len() - 1]);
    }
}

proof fn lemma_count_none<T>(s: Seq<(usize, Visibility, T)>, p: spec_fn((usize, Visibility, T)) -> bool)
    requires
        forall|k: int| 0 <= k < s.len() ==> !p(#[trigger] s[k]),
    ensures
        count_items(s, p) == 0,
    decreases s.len(),
{
    if s.len() > 0 {
        assert forall|k: int| 0 <= k < s.drop_last().len() implies !p(#[trigger] s.drop_last()[k]) by {
            assert(s.drop_last()[k] == s[k]);
        }
        lemma_count_none(s.drop_last(), p);
        assert(s.last() == s[s.len() - 1]);
    }
}

proof fn lemma_count_all<T>(s: Seq<(usize, Visibility, T)>, p: spec_fn((usize, Visibility, T)) -> bool)
    requires
        forall|k: int| 0 <= k < s.len() ==> p(#[trigger] s[k]),
    ensures
        count_items(s, p) == s.len(),
    decreases s.len(),
{
    if s.len() > 0 {
        assert forall|k: int| 0 <= k < s.drop_last().len() implies p(#[trigger] s.drop_last()[k]) by {
            assert(s.drop_last()[k] == s[k]);
        }
        lemma_count_all(s.drop_last(), p);
        assert(s.last() == s[s.len() - 1]);
    }
}

proof fn lemma_count_bound<T>(s: Seq<(usize, Visibility, T)>, p: spec_fn((usize, Visibility, T)) -> bool)
    ensures
        count_items(s, p) <= s.len(),
    decreases s.len(),
{
    if s.len() > 0 {
        lemma_count_bound(s.drop_last(), p);
    }
}

/// The items of mesh `m` split into its three classes, and the items that
/// pack before each class are the lower meshes plus the earlier classes.
proof fn lemma_mesh_counts<T>(s: Seq<(usize, Visibility, T)>, m: int)
    ensures
        below(s, m + 1) == below(s, m) + camera_count(s, m) + class_count(
            s,
            m,
            Visibility::ShadowOnly,
        ),
        packs_before(s, m, Visibility::Both) == below(s, m),
        packs_before(s, m, Visibility::CamOnly) == below(s, m) + class_count(s, m, Visibility::Both),
        packs_before(s, m, Visibility::ShadowOnly) == below(s, m) + camera_count(s, m),
{
    let lt = below_pred::<T>(m);
    let le = below_pred::<T>(m + 1);
    let eq = |x: (usize, Visibility, T)| x.0 as int == m;
    let cb = class_pred::<T>(m, Visibility::Both);
    let cc = class_pred::<T>(m, Visibility::CamOnly);
    let cs = class_pred::<T>(m, Visibility::ShadowOnly);
    let bc = |x: (usize, Visibility, T)| x.0 as int == m && vis_rank(x.1) < 2;
    let pb = packs_before_pred::<T>(m, Visibility::Both);
    let pc = packs_before_pred::<T>(m, Visibility::CamOnly);
    let ps = packs_before_pred::<T>(m, Visibility::ShadowOnly);
    lemma_count_split(s, le, lt, eq);
    lemma_count_split(s, bc, cb, cc);
    lemma_count_split(s, eq, bc, cs);
    lemma_count_agree(s, pb, lt);
    lemma_count_split(s, pc, lt, cb);
    lemma_count_split(s, ps, lt, bc);
}

/// The smallest mesh index at least `lo` among the items, if any.
fn min_mesh_from<T>(items: &Vec<(usize, Visibility, T)>, lo: usize) -> (r: Option<usize>)
    ensures
        r is None ==> forall|j: int| 0 <= j < items@.len() ==> (#[trigger] items@[j]).0 < lo,
        r matches Some(m) ==> {
            &&& m >= lo
            &&& exists|j: int| 0 <= j < items@.len() && (#[trigger] items@[j]).0 == m
            &&& forall|j: int| 0 <= j < items@.len() && (#[trigger] items@[j]).0 >= lo ==> items@[j].0 >= m
        },
{
    let mut best: Option<usize> = None;
    let mut j: usize = 0;
    while j < items.len()
        invariant
            j <= items@.len(),
            best is None ==> forall|i: int| 0 <= i < j ==> (#[trigger] items@[i]).0 < lo,
            best matches Some(m) ==> {
                &&& m >= lo
                &&& exists|i: int| 0 <= i < j && (#[trigger] items@[i]).0 == m
                &&& forall|i: int| 0 <= i < j && (#[trigger] items@[i]).0 >= lo ==> items@[i].0 >= m
            },
        decreases items@.len() - j,
    {
        let mesh = items[j].0;
        if mesh >= lo {
            match best {
                None => {
                    best = Some(mesh);
                },
                Some(m) => {
                    if mesh < m {
                        best = Some(mesh);
                    }
                },
            }
        }
        j = j + 1;
    }
    best
}

/// Appends, in order, the items of mesh `m` in class `v`; returns how many.
fn emit_class<T: Copy>(
    items: &Vec<(usize, Visibility, T)>,
    m: usize,
    v: Visibility,
    instances: &mut Vec<T>,
) -> (c: u32)
    requires
        old(instances)@.len() + class_count(items@, m as int, v) <= u32::MAX,
    ensures
        c == class_count(items@, m as int, v),
        final(instances)@.len() == old(instances)@.len() + c,
        final(instances)@.take(old(instances)@.len() as int) == old(instances)@,
        forall|i: int|
            0 <= i < items@.len() && (#[trigger] items@[i]).0 == m && items@[i].1 == v
                ==> final(instances)@[(old(instances)@.len() + class_count(items@.take(i), m as int, v)) as int]
                == items@[i].2,
{
    let ghost p = class_pred::<T>(m as int, v);
    let ghost start = instances@.len();
    let mut c: u32 = 0;
    let mut j: usize = 0;
    while j < items.len()
        invariant
            j <= items@.len(),
            start == old(instances)@.len(),
            p == class_pred::<T>(m as int, v),
            start + class_count(items@, m as int, v) <= u32::MAX,
            c == class_count(items@.take(j as int), m as int, v),
            instances@.len() == start + c,
            instances@.take(start as int) == old(instances)@,
            forall|i: int|
                0 <= i < j && (#[trigger] items@[i]).0 == m && items@[i].1 == v
                    ==> instances@[(start + class_count(items@.take(i), m as int, v)) as int] == items@[i].2,
        decreases items@.len() - j,
    {
        proof {
            lemma_count_take_next(items@, p, j as int);
            lemma_count_prefix_le(items@, p, j + 1);
        }
        if items[j].0 == m && items[j].1 == v {
            let ghost before = instances@;
            instances.push(items[j].2);
            c = c + 1;
            proof {
                assert(instances@.take(start as int) =~= before.take(start as int));
                assert forall|i: int|
                    0 <= i < j + 1 && (#[trigger] items@[i]).0 == m && items@[i].1 == v
                        implies instances@[(start + class_count(items@.take(i), m as int, v)) as int]
                        == items@[i].2 by {
                    if i < j {
                        lemma_count_mono_prefix(items@, p, i, j as int);
                    }
                }
            }
        }
        j = j + 1;
    }
    proof {
        assert(items@.take(items@.len() as int) =~= items@);
    }
    c
}

proof fn lemma_count_mono_prefix<T>(
    s: Seq<(usize, Visibility, T)>,
    p: spec_fn((usize, Visibility, T)) -> bool,
    i: int,
    j: int,
)
    requires
        0 <= i < j <= s.len(),
        p(s[i]),
    ensures
        count_items(s.take(i), p) < count_items(s.take(j), p),
    decreases j - i,
{
    lemma_count_take_next(s, p, j - 1);
    if i < j - 1 {
        lemma_count_mono_prefix(s, p, i, j - 1);
    }
}

proof fn lemma_count_prefix_le<T>(
    s: Seq<(usize, Visibility, T)>,
    p: spec_fn((usize, Visibility, T)) -> bool,
    j: int,
)
    requires
        0 <= j <= s.len(),
    ensures
        count_items(s.take(j), p) <= count_items(s, p),
    decreases s.len() - j,
{
    if j < s.len() {
        lemma_count_take_next(s, p, j);
        lemma_count_prefix_le(s, p, j + 1);
    } else {
        assert(s.take(j) =~= s);
    }
}

proof fn lemma_count_implies<T>(
    s: Seq<(usize, Visibility, T)>,
    p: spec_fn((usize, Visibility, T)) -> bool,
    q: spec_fn((usize, Visibility, T)) -> bool,
)
    requires
        forall|k: int| 0 <= k < s.len() && p(#[trigger] s[k]) ==> q(s[k]),
    ensures
        count_items(s, p) <= count_items(s, q),
    decreases s.len(),
{
    if s.len() > 0 {
        assert forall|k: int| 0 <= k < s.drop_last().len() && p(#[trigger] s.drop_last()[k]) implies q(
            s.drop_last()[k],
        ) by {
            assert(s.drop_last()[k] == s[k]);
        }
        lemma_count_implies(s.drop_last(), p, q);
        assert(s.last() == s[s.len() - 1]);
    }
}

proof fn lemma_below_mono<T>(s: Seq<(usize, Visibility, T)>, m1: int, m2: int)
    requires
        m1 <= m2,
    ensures
        below(s, m1) <= below(s, m2),
{
    lemma_count_implies(s, below_pred::<T>(m1), below_pred::<T>(m2));
}

/// An item lands inside the block of its own mesh.
proof fn lemma_position_bound<T>(s: Seq<(usize, Visibility, T)>, i: int)
    requires
        0 <= i < s.len(),
    ensures
        below(s, s[i].0 as int) <= packed_position(s, i) < below(s, s[i].0 + 1),
{
    let m = s[i].0 as int;
    let v = s[i].1;
    lemma_mesh_counts(s, m);
    lemma_count_mono_prefix(s, class_pred::<T>(m, v), i, s.len() as int);
    assert(s.take(s.len() as int) =~= s);
}

/// The packed items, ranges and shadow ranges cover exactly the meshes
/// below `hi`.
pub open spec fn packed_below<T>(
    s: Seq<(usize, Visibility, T)>,
    b: int,
    inst: Seq<T>,
    r: Seq<(usize, u32, u32)>,
    sh: Seq<(usize, u32, u32)>,
    hi: int,
) -> bool {
    &&& inst.len() == b + below(s, hi)
    &&& forall|i: int|
        0 <= i < s.len() && ((#[trigger] s[i]).0 as int) < hi ==> inst[b + packed_position(s, i)]
            == s[i].2
    &&& camera_ranges_ok(s, b, r, hi)
    &&& shadow_ranges_ok(s, b, sh, hi)
    &&& forall|k: int| 0 <= k < sh.len() ==> (#[trigger] sh[k]).1 + sh[k].2 <= b + below(s, hi)
}

/// Meshes in `[lo, hi)` with no items change nothing.
proof fn lemma_pack_extend<T>(
    s: Seq<(usize, Visibility, T)>,
    b: int,
    inst: Seq<T>,
    r: Seq<(usize, u32, u32)>,
    sh: Seq<(usize, u32, u32)>,
    lo: int,
    hi: int,
)
    requires
        lo <= hi,
        packed_below(s, b, inst, r, sh, lo),
        forall|j: int| 0 <= j < s.len() ==> !(lo <= (#[trigger] s[j]).0 < hi),
    ensures
        packed_below(s, b, inst, r, sh, hi),
{
    lemma_count_agree(s, below_pred::<T>(lo), below_pred::<T>(hi));
    assert forall|m: usize| (m as int) < hi && #[trigger] camera_count(s, m as int) > 0 implies exists|
        k: int,
    | 0 <= k < r.len() && (#[trigger] r[k]).0 == m by {
        if m as int >= lo {
            lemma_count_none(s, class_pred::<T>(m as int, Visibility::Both));
            lemma_count_none(s, class_pred::<T>(m as int, Visibility::CamOnly));
        }
    }
    assert forall|m: usize|
        (m as int) < hi && #[trigger] class_count(s, m as int, Visibility::Both) > 0 implies exists|
        k: int,
    | 0 <= k < sh.len() && (#[trigger] sh[k]).0 == m && is_both_range(s, b, sh[k]) by {
        if m as int >= lo {
            lemma_count_none(s, class_pred::<T>(m as int, Visibility::Both));
        }
    }
    assert forall|m: usize|
        (m as int) < hi && #[trigger] class_count(s, m as int, Visibility::ShadowOnly) > 0 implies exists|
        k: int,
    | 0 <= k < sh.len() && (#[trigger] sh[k]).0 == m && is_shadow_only_range(s, b, sh[k]) by {
        if m as int >= lo {
            lemma_count_none(s, class_pred::<T>(m as int, Visibility::ShadowOnly));
        }
    }
}

/// Appending mesh `m`'s three classes and its ranges extends the packing
/// from the meshes below `m` to the meshes up to `m`.
proof fn lemma_pack_step<T>(
    s: Seq<(usize, Visibility, T)>,
    b: int,
    inst0: Seq<T>,
    inst1: Seq<T>,
    inst2: Seq<T>,
    inst3: Seq<T>,
    r0: Seq<(usize, u32, u32)>,
    r1: Seq<(usize, u32, u32)>,
    sh0: Seq<(usize, u32, u32)>,
    sh1: Seq<(usize, u32, u32)>,
    m: usize,
)
    requires
        0 <= b,
        packed_below(s, b, inst0, r0, sh0, m as int),
        inst0.len() + camera_count(s, m as int) + class_count(s, m as int, Visibility::ShadowOnly)
            <= u32::MAX,
        inst1.len() == inst0.len() + class_count(s, m as int, Visibility::Both),
        inst1.take(inst0.len() as int) == inst0,
        forall|i: int|
            0 <= i < s.len() && (#[trigger] s[i]).0 == m && s[i].1 == Visibility::Both
                ==> inst1[inst0.len() + class_count(s.take(i), m as int, Visibility::Both) as int] == s[i].2,
        inst2.len() == inst1.len() + class_count(s, m as int, Visibility::CamOnly),
        inst2.take(inst1.len() as int) == inst1,
        forall|i: int|
            0 <= i < s.len() && (#[trigger] s[i]).0 == m && s[i].1 == Visibility::CamOnly
                ==> inst2[inst1.len() + class_count(s.take(i), m as int, Visibility::CamOnly) as int]
                == s[i].2,
        inst3.len() == inst2.len() + class_count(s, m as int, Visibility::ShadowOnly),
        inst3.take(inst2.len() as int) == inst2,
        forall|i: int|
            0 <= i < s.len() && (#[trigger] s[i]).0 == m && s[i].1 == Visibility::ShadowOnly
                ==> inst3[inst2.len() + class_count(s.take(i), m as int, Visibility::ShadowOnly) as int]
                == s[i].2,
        r1 == (if camera_count(s, m as int) > 0 {
            r0.push((m, inst0.len() as u32, camera_count(s, m as int) as u32))
        } else {
            r0
        }),
        sh1 == ({
            let sa = if class_count(s, m as int, Visibility::Both) > 0 {
                sh0.push((m, inst0.len() as u32, class_count(s, m as int, Visibility::Both) as u32))
            } else {
                sh0
            };
            if class_count(s, m as int, Visibility::ShadowOnly) > 0 {
                sa.push(
                    (
                        m,
                        (inst1.len() + class_count(s, m as int, Visibility::CamOnly)) as u32,
                        class_count(s, m as int, Visibility::ShadowOnly) as u32,
                    ),
                )
            } else {
                sa
            }
        }),
    ensures
        packed_below(s, b, inst3, r1, sh1, m + 1),
{
    let mi = m as int;
    let nb = class_count(s, mi, Visibility::Both);
    let nc = class_count(s, mi, Visibility::CamOnly);
    let ns = class_count(s, mi, Visibility::ShadowOnly);
    lemma_mesh_counts(s, mi);
    assert forall|x: int| 0 <= x < inst2.len() implies inst3[x] == inst2[x] by {
        assert(inst3.take(inst2.len() as int)[x] == inst3[x]);
    }
    assert forall|x: int| 0 <= x < inst1.len() implies inst2[x] == inst1[x] by {
        assert(inst2.take(inst1.len() as int)[x] == inst2[x]);
    }
    assert forall|x: int| 0 <= x < inst0.len() implies inst1[x] == inst0[x] by {
        assert(inst1.take(inst0.len() as int)[x] == inst1[x]);
    }
    assert forall|i: int|
        0 <= i < s.len() && ((#[trigger] s[i]).0 as int) < mi + 1 implies inst3[b + packed_position(
        s,
        i,
    )] == s[i].2 by {
        lemma_position_bound(s, i);
        let x = b + packed_position(s, i);
        if (s[i].0 as int) < mi {
            lemma_below_mono(s, s[i].0 + 1, mi);
            assert(x < inst0.len());
            assert(inst0[x] == s[i].2);
            assert(inst1[x] == inst0[x]);
            assert(inst2[x] == inst1[x]);
        } else {
            let v = s[i].1;
            let c = class_count(s.take(i), mi, v);
            lemma_count_mono_prefix(s, class_pred::<T>(mi, v), i, s.len() as int);
            assert(s.take(s.len() as int) =~= s);
            assert(c < class_count(s, mi, v));
            if v == Visibility::Both {
                assert(x == inst0.len() + c);
                assert(inst1[x] == s[i].2);
                assert(inst2[x] == inst1[x]);
            } else if v == Visibility::CamOnly {
                assert(x == inst1.len() + c);
                assert(inst2[x] == s[i].2);
            } else {
                assert(x == inst2.len() + c);
            }
        }
    }
    assert forall|m2: usize| (m2 as int) < mi + 1 && #[trigger] camera_count(s, m2 as int) > 0 implies exists|
        k: int,
    | 0 <= k < r1.len() && (#[trigger] r1[k]).0 == m2 by {
        if m2 as int == mi {
            assert(r1[r1.len() - 1].0 == m2);
        } else {
            let k = choose|k: int| 0 <= k < r0.len() && (#[trigger] r0[k]).0 == m2;
            assert(r1[k] == r0[k]);
        }
    }
    assert forall|k: int|
        0 <= k < r1.len() implies {
        &&& ((#[trigger] r1[k]).0 as int) < mi + 1
        &&& r1[k].1 as int == b + below(s, r1[k].0 as int)
        &&& r1[k].2 as int == camera_count(s, r1[k].0 as int)
        &&& r1[k].2 > 0
    } by {
        if k < r0.len() {
            assert(r1[k] == r0[k]);
        }
    }
    assert forall|k1: int, k2: int| 0 <= k1 < k2 < r1.len() implies (#[trigger] r1[k1]).0 < (#[trigger] r1[
        k2]).0 by {
        assert(r1[k1] == r0[k1]);
        if k2 < r0.len() {
            assert(r1[k2] == r0[k2]);
        }
    }
    let sa = if nb > 0 {
        sh0.push((m, inst0.len() as u32, nb as u32))
    } else {
        sh0
    };
    assert forall|k: int| 0 <= k < sh1.len() implies {
        &&& ((#[trigger] sh1[k]).0 as int) < mi + 1
        &&& sh1[k].2 > 0
        &&& is_both_range(s, b, sh1[k]) || is_shadow_only_range(s, b, sh1[k])
        &&& sh1[k].1 + sh1[k].2 <= b + below(s, mi + 1)
    } by {
        if k < sh0.len() {
            assert(sh1[k] == sh0[k]);
            lemma_below_mono(s, mi, mi + 1);
        } else if k < sa.len() {
            assert(sh1[k] == sa[k]);
        }
    }
    assert forall|k1: int, k2: int| 0 <= k1 < k2 < sh1.len() implies (#[trigger] sh1[k1]).1 < (#[trigger] sh1[
        k2]).1 by {
        if k2 < sh0.len() {
            assert(sh1[k1] == sh0[k1]);
            assert(sh1[k2] == sh0[k2]);
        } else if k1 < sh0.len() {
            assert(sh1[k1] == sh0[k1]);
            if k2 < sa.len() {
                assert(sh1[k2] == sa[k2]);
            }
        } else {
            assert(sh1[k1] == sa[k1]);
        }
    }
    assert forall|m2: usize|
        (m2 as int) < mi + 1 && #[trigger] class_count(s, m2 as int, Visibility::Both) > 0 implies exists|
        k: int,
    | 0 <= k < sh1.len() && (#[trigger] sh1[k]).0 == m2 && is_both_range(s, b, sh1[k]) by {
        if m2 as int == mi {
            let k = sh0.len() as int;
            assert(sh1[k] == sa[k]);
        } else {
            let k = choose|k: int|
                0 <= k < sh0.len() && (#[trigger] sh0[k]).0 == m2 && is_both_range(s, b, sh0[k]);
            assert(sh1[k] == sh0[k]);
        }
    }
    assert forall|m2: usize|
        (m2 as int) < mi + 1 && #[trigger] class_count(s, m2 as int, Visibility::ShadowOnly) > 0
            implies exists|k: int|
        0 <= k < sh1.len() && (#[trigger] sh1[k]).0 == m2 && is_shadow_only_range(s, b, sh1[k]) by {
        if m2 as int == mi {
            let k = sa.len() as int;
            assert(sh1[k].0 == m2);
        } else {
            let k = choose|k: int|
                0 <= k < sh0.len() && (#[trigger] sh0[k]).0 == m2 && is_shadow_only_range(
                    s,
                    b,
                    sh0[k],
                );
            assert(sh1[k] == sh0[k]);
        }
    }
}

/// Packs the frame's visible items: stably sorts them by mesh, then by
/// class (`Both`, `CamOnly`, `ShadowOnly`), appends their payloads to
/// `instances`, and appends per mesh a camera range over its `Both` and
/// `CamOnly` items and shadow ranges over its `Both` items and its
/// `ShadowOnly` items, each only when nonempty. Drains `items`.
pub fn pack_visible<T: Copy>(
    items: &mut Vec<(usize, Visibility, T)>,
    instances: &mut Vec<T>,
    ranges: &mut Vec<(usize, u32, u32)>,
    shadow_ranges: &mut Vec<(usize, u32, u32)>,
)
    requires
        old(instances)@.len() + old(items)@.len() <= u32::MAX,
    ensures
        final(items)@.len() == 0,
        final(instances)@.len() == old(instances)@.len() + old(items)@.len(),
        final(instances)@.take(old(instances)@.len() as int) == old(instances)@,
        forall|i: int|
            0 <= i < old(items)@.len() ==> final(instances)@[old(instances)@.len()
                + #[trigger] packed_position(old(items)@, i)] == old(items)@[i].2,
        final(ranges)@.take(old(ranges)@.len() as int) == old(ranges)@,
        camera_ranges_ok(
            old(items)@,
            old(instances)@.len() as int,
            final(ranges)@.skip(old(ranges)@.len() as int),
            usize::MAX + 1,
        ),
        final(shadow_ranges)@.take(old(shadow_ranges)@.len() as int) == old(shadow_ranges)@,
        shadow_ranges_ok(
            old(items)@,
            old(instances)@.len() as int,
            final(shadow_ranges)@.skip(old(shadow_ranges)@.len() as int),
            usize::MAX + 1,
        ),
{
    let ghost s = items@;
    let ghost b = instances@.len() as int;
    let ghost rs = ranges@.len() as int;
    let ghost ss = shadow_ranges@.len() as int;
    proof {
        lemma_count_none(s, below_pred::<T>(0));
        assert(instances@.take(b) =~= instances@);
        assert(ranges@.skip(rs).len() == 0);
        assert(shadow_ranges@.skip(ss).len() == 0);
    }
    let mut lo: usize = 0;
    loop
        invariant_except_break
            packed_below(s, b, instances@, ranges@.skip(rs), shadow_ranges@.skip(ss), lo as int),
        invariant
            items@ == s,
            b + s.len() <= u32::MAX,
            instances@.len() >= b,
            ranges@.len() >= rs,
            shadow_ranges@.len() >= ss,
            instances@.take(b) == old(instances)@,
            ranges@.take(rs) == old(ranges)@,
            shadow_ranges@.take(ss) == old(shadow_ranges)@,
            b == old(instances)@.len(),
            rs == old(ranges)@.len(),
            ss == old(shadow_ranges)@.len(),
        ensures
            items@ == s,
            instances@.len() >= b,
            instances@.take(b) == old(instances)@,
            ranges@.take(rs) == old(ranges)@,
            shadow_ranges@.take(ss) == old(shadow_ranges)@,
            packed_below(
                s,
                b,
                instances@,
                ranges@.skip(rs),
                shadow_ranges@.skip(ss),
                usize::MAX + 1,
            ),
        decreases usize::MAX - lo,
    {
        match min_mesh_from(items, lo) {
            None => {
                proof {
                    lemma_pack_extend(
                        s,
                        b,
                        instances@,
                        ranges@.skip(rs),
                        shadow_ranges@.skip(ss),
                        lo as int,
                        usize::MAX + 1,
                    );
                }
                break ;
            },
            Some(m) => {
                proof {
                    lemma_pack_extend(
                        s,
                        b,
                        instances@,
                        ranges@.skip(rs),
                        shadow_ranges@.skip(ss),
                        lo as int,
                        m as int,
                    );
                    lemma_mesh_counts(s, m as int);
                    lemma_count_bound(s, below_pred::<T>(m + 1));
                }
                let ghost inst0 = instances@;
                let ghost r0 = ranges@;
                let ghost sh0 = shadow_ranges@;
                let first = instances.len() as u32;
                let both = emit_class(items, m, Visibility::Both, instances);
                let ghost inst1 = instances@;
                let cam = emit_class(items, m, Visibility::CamOnly, instances);
                let ghost inst2 = instances@;
                let so = emit_class(items, m, Visibility::ShadowOnly, instances);
                if both + cam > 0 {
                    ranges.push((m, first, both + cam));
                }
                if both > 0 {
                    shadow_ranges.push((m, first, both));
                }
                let ghost sa = shadow_ranges@;
                if so > 0 {
                    shadow_ranges.push((m, first + both + cam, so));
                }
                proof {
                    assert(instances@.take(inst2.len() as int) == inst2);
                    assert(instances@.take(b) =~= inst2.take(b));
                    assert(inst2.take(b) =~= inst1.take(b));
                    assert(inst1.take(b) =~= inst0.take(b));
                    assert(ranges@.take(rs) =~= r0.take(rs));
                    assert(shadow_ranges@.take(ss) =~= sh0.take(ss));
                    assert(sa.take(ss) =~= sh0.take(ss));
                    let r1 = ranges@.skip(rs);
                    assert(r1 =~= (if camera_count(s, m as int) > 0 {
                        r0.skip(rs).push((m, inst0.len() as u32, camera_count(s, m as int) as u32))
                    } else {
                        r0.skip(rs)
                    }));
                    let sa2 = if class_count(s, m as int, Visibility::Both) > 0 {
                        sh0.skip(ss).push(
                            (m, inst0.len() as u32, class_count(s, m as int, Visibility::Both) as u32),
                        )
                    } else {
                        sh0.skip(ss)
                    };
                    assert(sa.skip(ss) =~= sa2);
                    assert(shadow_ranges@.skip(ss) =~= (if class_count(
                        s,
                        m as int,
                        Visibility::ShadowOnly,
                    ) > 0 {
                        sa2.push(
                            (
                                m,
                                (inst1.len() + class_count(s, m as int, Visibility::CamOnly)) as u32,
                                class_count(s, m as int, Visibility::ShadowOnly) as u32,
                            ),
                        )
                    } else {
                        sa2
                    }));
                    lemma_pack_step(
                        s,
                        b,
                        inst0,
                        inst1,
                        inst2,
                        instances@,
                        r0.skip(rs),
                        ranges@.skip(rs),
                        sh0.skip(ss),
                        shadow_ranges@.skip(ss),
                        m,
                    );
                }
                if m == usize::MAX {
                    proof {
                        lemma_pack_extend(
                            s,
                            b,
                            instances@,
                            ranges@.skip(rs),
                            shadow_ranges@.skip(ss),
                            m + 1,
                            usize::MAX + 1,
                        );
                    }
                    break ;
                }
                lo = m + 1;
            },
        }
    }
    proof {
        lemma_count_all(s, below_pred::<T>(usize::MAX + 1));
        assert forall|i: int| 0 <= i < s.len() implies instances@[b + #[trigger] packed_position(s, i)]
            == s[i].2 by {
            assert((s[i].0 as int) < usize::MAX + 1);
        }
    }
    items.clear();
}

/// The part of the instance ranges a buffer of `cap` instances can draw:
/// the ranges before the first that starts at or past `cap`, each cut off
/// at `cap`.
pub fn drawable_ranges(ranges: &Vec<(usize, u32, u32)>, cap: u32) -> (out: Vec<(usize, u32, u32)>)
    ensures
        out@.len() <= ranges@.len(),
        forall|q: int| 0 <= q < out@.len() ==> (#[trigger] ranges@[q]).1 < cap,
        out@.len() < ranges@.len() ==> ranges@[out@.len() as int].1 >= cap,
        forall|k: int|
            0 <= k < out@.len() ==> {
                &&& (#[trigger] out@[k]).0 == ranges@[k].0
                &&& out@[k].1 == ranges@[k].1
                &&& out@[k].2 as int == if ranges@[k].2 <= cap - ranges@[k].1 {
                    ranges@[k].2 as int
                } else {
                    cap - ranges@[k].1
                }
            },
{
    let mut out: Vec<(usize, u32, u32)> = Vec::new();
    let mut k: usize = 0;
    while k < ranges.len()
        invariant
            k <= ranges@.len(),
            out@.len() == k,
            forall|q: int| 0 <= q < k ==> (#[trigger] ranges@[q]).1 < cap,
            forall|q: int|
                0 <= q < out@.len() ==> {
                    &&& (#[trigger] out@[q]).0 == ranges@[q].0
                    &&& out@[q].1 == ranges@[q].1
                    &&& out@[q].2 as int == if ranges@[q].2 <= cap - ranges@[q].1 {
                        ranges@[q].2 as int
                    } else {
                        cap - ranges@[q].1
                    }
                },
        decreases ranges@.len() - k,
    {
        let (mesh, first, count) = ranges[k];
        if first >= cap {
            return out;
        }
        let room = cap - first;
        let c = if count <= room {
            count
        } else {
            room
        };
        out.push((mesh, first, c));
        k = k + 1;
    }
    out
}

/// Class `a` packs before class `b` within a mesh: both volumes first,
/// then camera-only, then shadow-only.
pub open spec fn class_packs_earlier(a: Visibility, b: Visibility) -> bool {
    (a == Visibility::Both && b != Visibility::Both) || (a == Visibility::CamOnly && b == Visibility::ShadowOnly)
}

spec fn before_or_class<T>(m: int, v: Visibility) -> spec_fn((usize, Visibility, T)) -> bool {
    |x: (usize, Visibility, T)| (x.0 as int) < m || (x.0 as int == m && vis_rank(x.1) < vis_rank(v)) || (x.0 as int
        == m && x.1 == v)
}

/// Packing-order law: `pack_visible` puts item `i` before item `j` when
/// `i`'s mesh is lower, or the mesh is the same and `i`'s class packs
/// earlier (both volumes, then camera-only, then shadow-only), or mesh and
/// class are the same and `i` came first (packing is stable). Distinct
/// items land in distinct places.
pub proof fn lemma_packing_order<T>(s: Seq<(usize, Visibility, T)>, i: int, j: int)
    requires
        0 <= i < s.len(),
        0 <= j < s.len(),
        i != j,
    ensures
        s[i].0 < s[j].0 || (s[i].0 == s[j].0 && class_packs_earlier(s[i].1, s[j].1)) || (s[i].0 == s[j].0 && s[i].1
            == s[j].1 && i < j) ==> packed_position(s, i) < packed_position(s, j),
        packed_position(s, i) != packed_position(s, j),
{
    lemma_order_one_way(s, i, j);
    lemma_order_one_way(s, j, i);
    assert(class_packs_earlier(s[i].1, s[j].1) <==> vis_rank(s[i].1) < vis_rank(s[j].1));
    assert(class_packs_earlier(s[j].1, s[i].1) <==> vis_rank(s[j].1) < vis_rank(s[i].1));
}

proof fn lemma_order_one_way<T>(s: Seq<(usize, Visibility, T)>, i: int, j: int)
    requires
        0 <= i < s.len(),
        0 <= j < s.len(),
        i != j,
    ensures
        s[i].0 < s[j].0 || (s[i].0 == s[j].0 && vis_rank(s[i].1) < vis_rank(s[j].1)) || (s[i].0 == s[j].0 && s[i].1
            == s[j].1 && i < j) ==> packed_position(s, i) < packed_position(s, j),
{
    let mi = s[i].0 as int;
    let vi = s[i].1;
    let mj = s[j].0 as int;
    let vj = s[j].1;
    let ci = class_pred::<T>(mi, vi);
    if mi == mj && vi == vj && i < j {
        lemma_count_mono_prefix(s, ci, i, j);
    } else if mi < mj || (mi == mj && vis_rank(vi) < vis_rank(vj)) {
        let u = before_or_class::<T>(mi, vi);
        lemma_count_split(s, u, packs_before_pred::<T>(mi, vi), ci);
        assert forall|k: int| 0 <= k < s.len() && u(#[trigger] s[k]) implies packs_before_pred::<T>(mj, vj)(s[k]) by {}
        lemma_count_implies(s, u, packs_before_pred::<T>(mj, vj));
        lemma_count_mono_prefix(s, ci, i, s.len() as int);
        assert(s.take(s.len() as int) =~= s);
    }
}

} // verus!
