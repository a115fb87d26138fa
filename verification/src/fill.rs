//! Grid completion: a filler point for every cell that no point stands on.

use crate::cluster::{lemma_occupied_push, occupancy};
use crate::grid::{grid, in_grid, lemma_grid_size};
use crate::point::{cells, occupied, Point};
use vstd::prelude::*;

verus! {

/// The value of the points that fill the free cells: one unit, in eighths.
pub const FILLER: i32 = 8;

/// The fillers of row `x` for its first `upto` cells: a point with the
/// filler value on each cell that is not in `occ`, in ascending order.
pub open spec fn row_fill(occ: Set<(int, int)>, x: int, upto: int) -> Seq<Point>
    decreases upto,
{
    if upto <= 0 {
        Seq::empty()
    } else {
        let rest = row_fill(occ, x, upto - 1);
        if occ.contains((x, upto - 1)) {
            rest
        } else {
            rest.push(Point { x: x as i32, y: (upto - 1) as i32, value: FILLER })
        }
    }
}

/// The fillers of the first `rows` rows of a grid, row after row.
pub open spec fn grid_fill(occ: Set<(int, int)>, side: int, rows: int) -> Seq<Point>
    decreases rows,
{
    if rows <= 0 {
        Seq::empty()
    } else {
        grid_fill(occ, side, rows - 1) + row_fill(occ, rows - 1, side)
    }
}

/// Whether the cell `c` comes before `(i, j)` when the grid is walked row
/// after row.
spec fn scanned(c: (int, int), i: int, j: int) -> bool {
    c.0 < i || (c.0 == i && c.1 < j)
}

/// Whether no two points share a cell and all stand on the grid.
pub open spec fn fits(points: Seq<Point>, side: int) -> bool {
    &&& cells(points).no_duplicates()
    &&& forall|k: int| 0 <= k < points.len() ==> in_grid(#[trigger] points[k].cell(), side)
}

/// The points, and behind them a filler on every cell of the grid that none
/// of them stands on, row after row. Where the points fit the grid, the
/// result has exactly one point on each of its cells.
pub fn fill_grid(points: Vec<Point>, side: i32) -> (filled: Vec<Point>)
    ensures
        filled@ == points@ + grid_fill(occupied(points@), side as int, side as int),
        fits(points@, side as int) ==> {
            &&& fits(filled@, side as int)
            &&& occupied(filled@) == grid(side as int)
            &&& side >= 0 ==> filled@.len() == side * side
        },
{
    let position_set = occupancy(&points);
    let ghost first = points@;
    let ghost occ = occupied(first);
    let mut points = points;
    let mut i: i32 = 0;
    proof {
        assert(points@ =~= first + grid_fill(occ, side as int, 0));
    }
    while i < side
        invariant
            0 <= i,
            i == 0 || i <= side,
            position_set@ == occ,
            occ == occupied(first),
            points@ == first + grid_fill(occ, side as int, i as int),
            fits(first, side as int) ==> fits(points@, side as int),
            forall|k: int|
                first.len() <= k < points@.len() ==> scanned(#[trigger] points@[k].cell(), i as int, 0)
                    && !occ.contains(points@[k].cell()),
            forall|c: (int, int)|
                in_grid(c, side as int) && scanned(c, i as int, 0) ==> #[trigger] occupied(
                    points@,
                ).contains(c),
        decreases side - i,
    {
        let ghost row_start = points@;
        let mut j: i32 = 0;
        proof {
            assert(points@ =~= row_start + row_fill(occ, i as int, 0));
        }
        while j < side
            invariant
                0 <= i < side,
                0 <= j <= side,
                position_set@ == occ,
                occ == occupied(first),
                row_start == first + grid_fill(occ, side as int, i as int),
                points@ == row_start + row_fill(occ, i as int, j as int),
                fits(first, side as int) ==> fits(points@, side as int),
                forall|k: int|
                    first.len() <= k < points@.len() ==> scanned(
                        #[trigger] points@[k].cell(),
                        i as int,
                        j as int,
                    ) && !occ.contains(points@[k].cell()),
                forall|c: (int, int)|
                    in_grid(c, side as int) && scanned(c, i as int, j as int)
                        ==> #[trigger] occupied(points@).contains(c),
            decreases side - j,
        {
            let ghost so_far = points@;
            if !position_set.contains(i, j) {
                let filler = Point::new(i, j, FILLER);
                points.push(filler);
                proof {
                    lemma_occupied_push(so_far, filler);
                    assert(points@ =~= row_start + row_fill(occ, i as int, j + 1));
                    assert(!cells(so_far).contains(filler.cell())) by {
                        if cells(so_far).contains(filler.cell()) {
                            let k = choose|k: int|
                                0 <= k < cells(so_far).len() && cells(so_far)[k] == filler.cell();
                            assert(so_far[k].cell() == filler.cell());
                            if k < first.len() {
                                assert(cells(first)[k] == filler.cell());
                            }
                        }
                    }
                }
            } else {
                proof {
                    assert(points@ =~= row_start + row_fill(occ, i as int, j + 1));
                    let k = choose|k: int| 0 <= k < cells(first).len() && cells(first)[k] == (
                        i as int,
                        j as int,
                    );
                    assert(cells(points@)[k] == (i as int, j as int));
                }
            }
            j = j + 1;
        }
        proof {
            assert(grid_fill(occ, side as int, i + 1) == grid_fill(occ, side as int, i as int)
                + row_fill(occ, i as int, side as int));
            assert(points@ =~= first + grid_fill(occ, side as int, i + 1));
        }
        i = i + 1;
    }
    proof {
        if side <= 0 {
            assert(i == 0);
            assert(grid_fill(occ, side as int, side as int) =~= Seq::empty());
            assert(grid_fill(occ, side as int, 0) =~= Seq::empty());
        }
        if fits(first, side as int) {
            assert(occupied(points@) =~= grid(side as int)) by {
                assert forall|c: (int, int)| occupied(points@).contains(c) implies grid(
                    side as int,
                ).contains(c) by {
                    let k = choose|k: int| 0 <= k < cells(points@).len() && cells(points@)[k] == c;
                    assert(in_grid(points@[k].cell(), side as int));
                }
            }
            if side >= 0 {
                cells(points@).unique_seq_to_set();
                lemma_grid_size(side as int);
            }
        }
    }
    points
}

} // verus!
