//! Spatial-grid footprints: the cells a hitbox's bounding rectangle covers,
//! and the incremental diff that moves an entity between cells only where
//! its footprint changed.
use vstd::prelude::*;

verus! {

/// One cell of the horizontal collision grid.
#[derive(Clone, Copy, PartialEq, Eq, Structural, Debug)]
pub struct GridCell {
    pub col: i32,
    pub row: i32,
}

/// Cells `(c, r0) ..= (c, r1)` of one column, in row order.
pub open spec fn column_cells(c: int, r0: int, r1: int) -> Seq<GridCell>
    decreases r1 - r0 + 1,
{
    if r1 < r0 {
        Seq::empty()
    } else {
        column_cells(c, r0, r1 - 1).push(GridCell { col: c as i32, row: r1 as i32 })
    }
}

/// Cells of the rectangle `[c0, c1] x [r0, r1]`, column by column, each
/// column in row order.
pub open spec fn rect_cells(c0: int, c1: int, r0: int, r1: int) -> Seq<GridCell>
    decreases c1 - c0 + 1,
{
    if c1 < c0 {
        Seq::empty()
    } else {
        rect_cells(c0, c1 - 1, r0, r1) + column_cells(c1, r0, r1)
    }
}

/// Appends the cells of the rectangle `[min_col, max_col] x [min_row,
/// max_row]` to `out`, column-major (an empty range appends nothing).
pub fn cells_in_rect_into(min_col: i32, max_col: i32, min_row: i32, max_row: i32, out: &mut Vec<GridCell>)
    ensures
        final(out)@ == old(out)@ + rect_cells(min_col as int, max_col as int, min_row as int, max_row as int),
{
    let ghost base = out@;
    let mut col: i64 = min_col as i64;
    if (max_col as i64) < col {
        assert(rect_cells(min_col as int, max_col as int, min_row as int, max_row as int) == Seq::<GridCell>::empty());
        assert(out@ == base + Seq::<GridCell>::empty());
        return;
    }
    while col <= max_col as i64
        invariant
            min_col <= col <= max_col as i64 + 1,
            out@ == base + rect_cells(min_col as int, col - 1, min_row as int, max_row as int),
        decreases max_col as i64 + 1 - col,
    {
        let ghost before = out@;
        let mut row: i64 = min_row as i64;
        if (max_row as i64) >= row {
            while row <= max_row as i64
                invariant
                    min_col <= col <= max_col,
                    min_row <= row <= max_row as i64 + 1,
                    out@ == before + column_cells(col as int, min_row as int, row - 1),
                decreases max_row as i64 + 1 - row,
            {
                out.push(GridCell { col: col as i32, row: row as i32 });
                assert(column_cells(col as int, min_row as int, row as int) == column_cells(
                    col as int,
                    min_row as int,
                    row - 1,
                ).push(GridCell { col: col as i32, row: row as i32 }));
                row = row + 1;
            }
        } else {
            assert(column_cells(col as int, min_row as int, max_row as int) == Seq::<GridCell>::empty());
        }
        assert(out@ == before + column_cells(col as int, min_row as int, max_row as int));
        assert(rect_cells(min_col as int, col as int, min_row as int, max_row as int) == rect_cells(
            min_col as int,
            col - 1,
            min_row as int,
            max_row as int,
        ) + column_cells(col as int, min_row as int, max_row as int));
        col = col + 1;
    }
}

/// The elements of `s` that `other` does not contain, in their order in `s`.
pub open spec fn absent_from(s: Seq<GridCell>, other: Seq<GridCell>) -> Seq<GridCell>
    decreases s.len(),
{
    if s.len() == 0 {
        Seq::empty()
    } else if other.contains(s.last()) {
        absent_from(s.drop_last(), other)
    } else {
        absent_from(s.drop_last(), other).push(s.last())
    }
}

fn contains_cell(s: &Vec<GridCell>, c: GridCell) -> (res: bool)
    ensures
        res == s@.contains(c),
{
    let mut i: usize = 0;
    while i < s.len()
        invariant
            i <= s@.len(),
            forall|j: int| 0 <= j < i ==> s@[j] != c,
        decreases s@.len() - i,
    {
        if s[i] == c {
            assert(s@[i as int] == c);
            return true;
        }
        i = i + 1;
    }
    false
}

fn absent_cells(s: &Vec<GridCell>, other: &Vec<GridCell>) -> (res: Vec<GridCell>)
    ensures
        res@ == absent_from(s@, other@),
{
    let mut res: Vec<GridCell> = Vec::new();
    let mut i: usize = 0;
    while i < s.len()
        invariant
            i <= s@.len(),
            res@ == absent_from(s@.take(i as int), other@),
        decreases s@.len() - i,
    {
        let c = s[i];
        assert(s@.take(i + 1).drop_last() == s@.take(i as int));
        if !contains_cell(other, c) {
            res.push(c);
        }
        i = i + 1;
    }
    assert(s@.take(s@.len() as int) == s@);
    res
}

/// How an entity's grid membership changes when its footprint moves from
/// `old_cells` to `new_cells`: the cells to leave (in `old_cells` order)
/// and the cells to enter (in `new_cells` order). Unchanged cells touch
/// nothing.
pub fn footprint_diff(old_cells: &Vec<GridCell>, new_cells: &Vec<GridCell>) -> (res: (
    Vec<GridCell>,
    Vec<GridCell>,
))
    ensures
        res.0@ == absent_from(old_cells@, new_cells@),
        res.1@ == absent_from(new_cells@, old_cells@),
{
    (absent_cells(old_cells, new_cells), absent_cells(new_cells, old_cells))
}

/// A footprint that did not change leaves and enters no cell.
pub proof fn lemma_unchanged_footprint_is_free(cells: Seq<GridCell>)
    ensures
        absent_from(cells, cells).len() == 0,
{
    lemma_absent_of_subset(cells, cells);
}

proof fn lemma_absent_of_subset(s: Seq<GridCell>, other: Seq<GridCell>)
    requires
        forall|i: int| 0 <= i < s.len() ==> other.contains(#[trigger] s[i]),
    ensures
        absent_from(s, other).len() == 0,
    decreases s.len(),
{
    if s.len() > 0 {
        assert(other.contains(s[s.len() - 1]));
        assert forall|i: int| 0 <= i < s.drop_last().len() implies other.contains(
            #[trigger] s.drop_last()[i],
        ) by {
            assert(s.drop_last()[i] == s[i]);
        }
        lemma_absent_of_subset(s.drop_last(), other);
    }
}

/// `v` fits in an `i32`.
pub open spec fn i32_range(v: int) -> bool {
    i32::MIN <= v <= i32::MAX
}

proof fn lemma_column_cells(c: int, r0: int, r1: int)
    requires
        i32_range(c),
        i32_range(r0),
        i32_range(r1),
    ensures
        column_cells(c, r0, r1).len() == if r1 < r0 { 0 } else { r1 - r0 + 1 },
        forall|r: int|
            r0 <= r <= r1 ==> (#[trigger] column_cells(c, r0, r1)[r - r0]).col == c && column_cells(c, r0, r1)[r
                - r0].row == r,
    decreases r1 - r0 + 1,
{
    if r1 >= r0 {
        if r1 > r0 {
            lemma_column_cells(c, r0, r1 - 1);
        }
        let prev = column_cells(c, r0, r1 - 1);
        assert(prev.len() == r1 - r0);
        assert forall|r: int| r0 <= r <= r1 implies (#[trigger] column_cells(c, r0, r1)[r - r0]).col == c
            && column_cells(c, r0, r1)[r - r0].row == r by {
            if r < r1 {
                assert(column_cells(c, r0, r1)[r - r0] == prev[r - r0]);
            }
        }
    }
}

proof fn lemma_rect_cells_no_rows(c0: int, c1: int, r0: int, r1: int)
    requires
        r1 < r0,
    ensures
        rect_cells(c0, c1, r0, r1).len() == 0,
    decreases c1 - c0 + 1,
{
    if c1 >= c0 {
        lemma_rect_cells_no_rows(c0, c1 - 1, r0, r1);
        assert(column_cells(c1, r0, r1).len() == 0);
    }
}

proof fn lemma_index_in_block(a: int, h: int, b: int, n: int)
    by (nonlinear_arith)
    requires
        0 <= a < n,
        0 <= b < h,
    ensures
        0 <= a * h + b < n * h,
        a * h + b < (a + 1) * h,
        a * h >= 0,
{
}

proof fn lemma_rect_cells_grid(c0: int, c1: int, r0: int, r1: int)
    requires
        i32_range(c0),
        i32::MIN - 1 <= c1 <= i32::MAX,
        i32_range(r0),
        i32_range(r1),
        r0 <= r1,
        c0 <= c1 + 1,
    ensures
        rect_cells(c0, c1, r0, r1).len() == (c1 - c0 + 1) * (r1 - r0 + 1),
        forall|c: int, r: int|
            c0 <= c <= c1 && r0 <= r <= r1 ==> (#[trigger] rect_cells(c0, c1, r0, r1)[(c - c0) * (r1 - r0 + 1) + (
            r - r0)]).col == c && rect_cells(c0, c1, r0, r1)[(c - c0) * (r1 - r0 + 1) + (r - r0)].row == r,
    decreases c1 - c0 + 1,
{
    let h = r1 - r0 + 1;
    if c1 >= c0 {
        lemma_rect_cells_grid(c0, c1 - 1, r0, r1);
        lemma_column_cells(c1, r0, r1);
        let a = rect_cells(c0, c1 - 1, r0, r1);
        let b = column_cells(c1, r0, r1);
        assert((c1 - c0) * h + h == (c1 - c0 + 1) * h) by (nonlinear_arith);
        assert forall|c: int, r: int| c0 <= c <= c1 && r0 <= r <= r1 implies (#[trigger] rect_cells(
            c0,
            c1,
            r0,
            r1,
        )[(c - c0) * h + (r - r0)]).col == c && rect_cells(c0, c1, r0, r1)[(c - c0) * h + (r - r0)].row == r by {
            let idx = (c - c0) * h + (r - r0);
            if c < c1 {
                lemma_index_in_block(c - c0, h, r - r0, c1 - c0);
                assert((a + b)[idx] == a[idx]);
            } else {
                lemma_index_in_block(c - c0, h, r - r0, c1 - c0 + 1);
                assert((a + b)[idx] == b[r - r0]);
            }
        }
    } else {
        assert((c1 - c0 + 1) * h == 0) by (nonlinear_arith)
            requires
                c1 - c0 + 1 == 0,
        ;
    }
}

/// Footprint law: the cells `cells_in_rect_into` appends for the rectangle
/// `[c0, c1] x [r0, r1]` are `(c1 - c0 + 1) * (r1 - r0 + 1)` cells when the
/// rectangle is not empty (none when it is), column by column, each column
/// in row order: cell `(c, r)` of the rectangle is number
/// `(c - c0) * (r1 - r0 + 1) + (r - r0)`; so every cell of the rectangle is
/// there, and nothing else.
pub proof fn lemma_rect_footprint(c0: i32, c1: i32, r0: i32, r1: i32)
    ensures
        rect_cells(c0 as int, c1 as int, r0 as int, r1 as int).len() == if c1 < c0 || r1 < r0 {
            0
        } else {
            (c1 - c0 + 1) * (r1 - r0 + 1)
        },
        forall|c: int, r: int|
            c0 <= c <= c1 && r0 <= r <= r1 ==> (#[trigger] rect_cells(c0 as int, c1 as int, r0 as int, r1 as int)[(c
                - c0) * (r1 - r0 + 1) + (r - r0)]) == (GridCell { col: c as i32, row: r as i32 }),
        forall|k: int|
            0 <= k < rect_cells(c0 as int, c1 as int, r0 as int, r1 as int).len() ==> c0 <= (
            #[trigger] rect_cells(c0 as int, c1 as int, r0 as int, r1 as int)[k]).col <= c1 && r0 <= rect_cells(
                c0 as int,
                c1 as int,
                r0 as int,
                r1 as int,
            )[k].row <= r1,
{
    let s = rect_cells(c0 as int, c1 as int, r0 as int, r1 as int);
    if r1 < r0 {
        lemma_rect_cells_no_rows(c0 as int, c1 as int, r0 as int, r1 as int);
    } else if c1 < c0 {
        assert(s.len() == 0);
    } else {
        let h = r1 - r0 + 1;
        lemma_rect_cells_grid(c0 as int, c1 as int, r0 as int, r1 as int);
        assert forall|k: int| 0 <= k < s.len() implies c0 <= (#[trigger] s[k]).col <= c1 && r0 <= s[k].row <= r1 by {
            let c = c0 + k / h;
            let r = r0 + k % h;
            assert(k == (k / h) * h + k % h) by (nonlinear_arith)
                requires
                    h > 0,
            ;
            assert(0 <= k % h < h) by (nonlinear_arith)
                requires
                    h > 0,
            ;
            assert(0 <= k / h) by (nonlinear_arith)
                requires
                    h > 0,
                    k >= 0,
            ;
            assert(k / h <= c1 - c0) by (nonlinear_arith)
                requires
                    h > 0,
                    0 <= k < (c1 - c0 + 1) * h,
            ;
            assert(s[(c - c0) * h + (r - r0)].col == c);
        }
    }
}

/// Footprint diff law: the cells to leave are exactly the old cells that
/// are not new cells, and the cells to enter exactly the new cells that
/// were not old cells; a cell in both is neither left nor entered.
pub proof fn lemma_footprint_diff(old_cells: Seq<GridCell>, new_cells: Seq<GridCell>)
    ensures
        forall|x: GridCell|
            #[trigger] absent_from(old_cells, new_cells).contains(x) <==> (old_cells.contains(x)
                && !new_cells.contains(x)),
        forall|x: GridCell|
            #[trigger] absent_from(new_cells, old_cells).contains(x) <==> (new_cells.contains(x)
                && !old_cells.contains(x)),
{
    assert forall|x: GridCell| #[trigger] absent_from(old_cells, new_cells).contains(x) <==> (old_cells.contains(x)
        && !new_cells.contains(x)) by {
        lemma_absent_contains(old_cells, new_cells, x);
    }
    assert forall|x: GridCell| #[trigger] absent_from(new_cells, old_cells).contains(x) <==> (new_cells.contains(x)
        && !old_cells.contains(x)) by {
        lemma_absent_contains(new_cells, old_cells, x);
    }
}

proof fn lemma_absent_contains(s: Seq<GridCell>, other: Seq<GridCell>, x: GridCell)
    ensures
        absent_from(s, other).contains(x) <==> (s.contains(x) && !other.contains(x)),
    decreases s.len(),
{
    if s.len() > 0 {
        let t = s.drop_last();
        lemma_absent_contains(t, other, x);
        let a = absent_from(t, other);
        if t.contains(x) {
            let k = choose|k: int| 0 <= k < t.len() && t[k] == x;
            assert(s[k] == x);
        }
        if s.contains(x) && x != s.last() {
            let k = choose|k: int| 0 <= k < s.len() && s[k] == x;
            assert(k < t.len());
            assert(t[k] == x);
        }
        assert(s[s.len() - 1] == s.last());
        if !other.contains(s.last()) {
            if a.push(s.last()).contains(x) && x != s.last() {
                let k = choose|k: int| 0 <= k < a.push(s.last()).len() && a.push(s.last())[k] == x;
                assert(k < a.len());
                assert(a[k] == x);
            }
            if a.contains(x) {
                let k = choose|k: int| 0 <= k < a.len() && a[k] == x;
                assert(a.push(s.last())[k] == x);
            }
            assert(a.push(s.last())[a.len() as int] == s.last());
        }
    } else {
        assert(!absent_from(s, other).contains(x));
    }
}

/// The cells not in `other`.
pub open spec fn outside_of(other: Seq<GridCell>) -> spec_fn(GridCell) -> bool {
    |x: GridCell| !other.contains(x)
}

/// Footprint order law: the cells to leave are the old cells that are not
/// new, and the cells to enter the new cells that were not old, each kept
/// in its footprint's order (a filter of the footprint).
pub proof fn lemma_footprint_diff_order(old_cells: Seq<GridCell>, new_cells: Seq<GridCell>)
    ensures
        absent_from(old_cells, new_cells) == old_cells.filter(outside_of(new_cells)),
        absent_from(new_cells, old_cells) == new_cells.filter(outside_of(old_cells)),
{
    lemma_absent_is_filter(old_cells, new_cells);
    lemma_absent_is_filter(new_cells, old_cells);
}

proof fn lemma_absent_is_filter(s: Seq<GridCell>, other: Seq<GridCell>)
    ensures
        absent_from(s, other) == s.filter(outside_of(other)),
    decreases s.len(),
{
    reveal(Seq::filter);
    if s.len() > 0 {
        lemma_absent_is_filter(s.drop_last(), other);
    }
}

} // verus!
