//! The lattice as mathematics: cells, adjacency, and the size of a square grid.

use vstd::prelude::*;

verus! {

/// Whether `a` and `b` are neighbours along one axis, one unit apart.
pub open spec fn adjacent(a: (int, int), b: (int, int)) -> bool {
    ||| a.0 == b.0 && (a.1 == b.1 + 1 || a.1 + 1 == b.1)
    ||| a.1 == b.1 && (a.0 == b.0 + 1 || a.0 + 1 == b.0)
}

/// Whether one of the four neighbours of `c` is in `occupied`.
pub open spec fn touches(occupied: Set<(int, int)>, c: (int, int)) -> bool {
    ||| occupied.contains((c.0 + 1, c.1))
    ||| occupied.contains((c.0 - 1, c.1))
    ||| occupied.contains((c.0, c.1 + 1))
    ||| occupied.contains((c.0, c.1 - 1))
}

/// Whether `c` lies on the square grid of the given side.
pub open spec fn in_grid(c: (int, int), side: int) -> bool {
    0 <= c.0 < side && 0 <= c.1 < side
}

/// All cells of the square grid of the given side.
pub open spec fn grid(side: int) -> Set<(int, int)> {
    Set::new(|c: (int, int)| in_grid(c, side))
}

/// A cell touches a set exactly when the set holds a cell adjacent to it.
pub proof fn lemma_touches_iff_adjacent(occupied: Set<(int, int)>, c: (int, int))
    ensures
        touches(occupied, c) <==> exists|d: (int, int)| occupied.contains(d) && adjacent(c, d),
{
    if touches(occupied, c) {
        if occupied.contains((c.0 + 1, c.1)) {
            assert(adjacent(c, (c.0 + 1, c.1)));
        } else if occupied.contains((c.0 - 1, c.1)) {
            assert(adjacent(c, (c.0 - 1, c.1)));
        } else if occupied.contains((c.0, c.1 + 1)) {
            assert(adjacent(c, (c.0, c.1 + 1)));
        } else {
            assert(adjacent(c, (c.0, c.1 - 1)));
        }
    }
    if exists|d: (int, int)| occupied.contains(d) && adjacent(c, d) {
        let d = choose|d: (int, int)| occupied.contains(d) && adjacent(c, d);
        assert(d == (c.0 + 1, c.1) || d == (c.0 - 1, c.1) || d == (c.0, c.1 + 1) || d == (
            c.0,
            c.1 - 1,
        ));
    }
}

/// The cells `(x, lo)`, ..., `(x, hi)`.
pub open spec fn run_along_y(x: int, lo: int, hi: int) -> Set<(int, int)> {
    Set::new(|c: (int, int)| c.0 == x && lo <= c.1 <= hi)
}

/// The cells `(lo, y)`, ..., `(hi, y)`.
pub open spec fn run_along_x(y: int, lo: int, hi: int) -> Set<(int, int)> {
    Set::new(|c: (int, int)| c.1 == y && lo <= c.0 <= hi)
}

/// A run along y from `lo` to `hi` has `hi - lo + 1` cells.
pub proof fn lemma_run_along_y_size(x: int, lo: int, hi: int)
    requires
        lo <= hi + 1,
    ensures
        run_along_y(x, lo, hi).finite(),
        run_along_y(x, lo, hi).len() == hi - lo + 1,
    decreases hi - lo + 1,
{
    if lo == hi + 1 {
        assert(run_along_y(x, lo, hi) =~= Set::empty());
    } else {
        lemma_run_along_y_size(x, lo, hi - 1);
        assert(run_along_y(x, lo, hi) =~= run_along_y(x, lo, hi - 1).insert((x, hi)));
    }
}

/// A run along x from `lo` to `hi` has `hi - lo + 1` cells.
pub proof fn lemma_run_along_x_size(y: int, lo: int, hi: int)
    requires
        lo <= hi + 1,
    ensures
        run_along_x(y, lo, hi).finite(),
        run_along_x(y, lo, hi).len() == hi - lo + 1,
    decreases hi - lo + 1,
{
    if lo == hi + 1 {
        assert(run_along_x(y, lo, hi) =~= Set::empty());
    } else {
        lemma_run_along_x_size(y, lo, hi - 1);
        assert(run_along_x(y, lo, hi) =~= run_along_x(y, lo, hi - 1).insert((hi, y)));
    }
}

/// The cells of the first rows of a grid of the given width.
spec fn rows_prefix(rows: int, width: int) -> Set<(int, int)> {
    Set::new(|c: (int, int)| 0 <= c.0 < rows && 0 <= c.1 < width)
}

proof fn lemma_rows_size(rows: int, width: int)
    requires
        0 <= rows,
        0 <= width,
    ensures
        rows_prefix(rows, width).finite(),
        rows_prefix(rows, width).len() == rows * width,
    decreases rows,
{
    if rows == 0 {
        assert(rows_prefix(rows, width) =~= Set::empty());
        assert(rows * width == 0) by (nonlinear_arith)
            requires
                rows == 0,
        ;
    } else {
        lemma_rows_size(rows - 1, width);
        lemma_run_along_y_size(rows - 1, 0, width - 1);
        let above = rows_prefix(rows - 1, width);
        let last = run_along_y(rows - 1, 0, width - 1);
        assert(rows_prefix(rows, width) =~= above.union(last));
        assert(above.disjoint(last));
        vstd::set_lib::lemma_set_disjoint_lens(above, last);
        assert(rows * width == (rows - 1) * width + width) by (nonlinear_arith);
    }
}

/// A square grid of side `side` is finite and has `side * side` cells.
pub proof fn lemma_grid_size(side: int)
    requires
        0 <= side,
    ensures
        grid(side).finite(),
        grid(side).len() == side * side,
{
    lemma_rows_size(side, side);
    assert(grid(side) =~= rows_prefix(side, side));
}

/// Pairwise distinct cells that all lie in a finite set are no more than the
/// set has.
pub proof fn lemma_distinct_cells_bound(cells: Seq<(int, int)>, within: Set<(int, int)>)
    requires
        cells.no_duplicates(),
        within.finite(),
        forall|i: int| 0 <= i < cells.len() ==> within.contains(#[trigger] cells[i]),
    ensures
        cells.len() <= within.len(),
        cells.len() == within.len() ==> cells.to_set() == within,
{
    cells.unique_seq_to_set();
    assert(cells.to_set().subset_of(within)) by {
        assert forall|c: (int, int)| cells.to_set().contains(c) implies within.contains(c) by {
            let i = choose|i: int| 0 <= i < cells.len() && cells[i] == c;
            assert(within.contains(cells[i]));
        }
    }
    vstd::set_lib::lemma_len_subset(cells.to_set(), within);
    if cells.len() == within.len() {
        vstd::set_lib::lemma_subset_equality(cells.to_set(), within);
    }
}

} // verus!
