//! Heights from graph distance: what it means to be connected to an origin
//! over the occupied cells, how far, and how height falls with distance.

use crate::grid::adjacent;
use crate::point::{cells, occupied, Point};
use vstd::prelude::*;

verus! {

/// The height at the origin: 32 units, in eighths.
pub const PEAK: i32 = 256;

/// The least height: one unit, in eighths.
pub const FLOOR: i32 = 8;

/// The height, in eighths of a unit, of a cell at the given distance from the
/// origin: an eighth less per step, and never under one unit.
pub open spec fn height_at(distance: int) -> int {
    if PEAK - distance > FLOOR {
        PEAK - distance
    } else {
        FLOOR as int
    }
}

/// Height never rises with distance, peaks at the origin with 32 units and
/// stays at one unit from 248 steps on.
pub proof fn lemma_height_profile(near: int, far: int)
    requires
        0 <= near <= far,
    ensures
        height_at(near) >= height_at(far),
        height_at(0) == PEAK,
        FLOOR <= height_at(near) <= PEAK,
        far >= PEAK - FLOOR ==> height_at(far) == FLOOR,
{
}

/// The height of a cell at the given distance.
pub fn height_for(distance: i64) -> (height: i32)
    requires
        distance >= 0,
    ensures
        height == height_at(distance as int),
{
    if distance < (PEAK - FLOOR) as i64 {
        PEAK - distance as i32
    } else {
        FLOOR
    }
}

/// Whether `c` can be reached from `origin` in at most `steps` unit moves
/// that stay on occupied cells, the origin included.
pub open spec fn reach(
    occ: Set<(int, int)>,
    origin: (int, int),
    c: (int, int),
    steps: nat,
) -> bool
    decreases steps,
{
    occ.contains(c) && if steps == 0 {
        c == origin
    } else {
        let fewer = (steps - 1) as nat;
        ||| reach(occ, origin, c, fewer)
        ||| reach(occ, origin, (c.0 + 1, c.1), fewer)
        ||| reach(occ, origin, (c.0 - 1, c.1), fewer)
        ||| reach(occ, origin, (c.0, c.1 + 1), fewer)
        ||| reach(occ, origin, (c.0, c.1 - 1), fewer)
    }
}

/// Whether `c` belongs to the origin's connected part of the occupied cells.
pub open spec fn connected(occ: Set<(int, int)>, origin: (int, int), c: (int, int)) -> bool {
    exists|steps: nat| reach(occ, origin, c, steps)
}

/// Whether `steps` is the least number of moves that reaches `c`.
pub open spec fn is_distance(
    occ: Set<(int, int)>,
    origin: (int, int),
    c: (int, int),
    steps: nat,
) -> bool {
    reach(occ, origin, c, steps) && (steps == 0 || !reach(occ, origin, c, (steps - 1) as nat))
}

/// The graph distance of a connected cell from the origin.
pub open spec fn distance(occ: Set<(int, int)>, origin: (int, int), c: (int, int)) -> nat {
    choose|steps: nat| is_distance(occ, origin, c, steps)
}

/// What is reached in some number of moves is reached in any larger number.
pub proof fn lemma_reach_monotone(
    occ: Set<(int, int)>,
    origin: (int, int),
    c: (int, int),
    few: nat,
    many: nat,
)
    requires
        reach(occ, origin, c, few),
        few <= many,
    ensures
        reach(occ, origin, c, many),
    decreases many,
{
    if few < many {
        lemma_reach_monotone(occ, origin, c, few, (many - 1) as nat);
    }
}

/// A cell has at most one distance, and `distance` names it.
pub proof fn lemma_distance_unique(
    occ: Set<(int, int)>,
    origin: (int, int),
    c: (int, int),
    steps: nat,
)
    requires
        is_distance(occ, origin, c, steps),
    ensures
        distance(occ, origin, c) == steps,
        connected(occ, origin, c),
{
    let other = distance(occ, origin, c);
    assert(is_distance(occ, origin, c, other));
    if other < steps {
        lemma_reach_monotone(occ, origin, c, other, (steps - 1) as nat);
    }
    if steps < other {
        lemma_reach_monotone(occ, origin, c, steps, (other - 1) as nat);
    }
}

/// A step from a reached cell to an occupied neighbour reaches that
/// neighbour in one move more.
pub proof fn lemma_reach_step(
    occ: Set<(int, int)>,
    origin: (int, int),
    c: (int, int),
    d: (int, int),
    steps: nat,
)
    requires
        reach(occ, origin, c, steps),
        occ.contains(d),
        adjacent(c, d),
    ensures
        reach(occ, origin, d, steps + 1),
{
    assert(c == (d.0 + 1, d.1) || c == (d.0 - 1, d.1) || c == (d.0, d.1 + 1) || c == (
        d.0,
        d.1 - 1,
    ));
}

/// Paths join: from `a` to `b` and on to `c`.
pub proof fn lemma_reach_joined(
    occ: Set<(int, int)>,
    a: (int, int),
    b: (int, int),
    c: (int, int),
    first: nat,
    then: nat,
)
    requires
        reach(occ, a, b, first),
        reach(occ, b, c, then),
    ensures
        reach(occ, a, c, first + then),
    decreases then,
{
    if then > 0 {
        let fewer = (then - 1) as nat;
        if reach(occ, b, c, fewer) {
            lemma_reach_joined(occ, a, b, c, first, fewer);
            lemma_reach_monotone(occ, a, c, first + fewer, first + then);
        } else {
            let d = if reach(occ, b, (c.0 + 1, c.1), fewer) {
                (c.0 + 1, c.1)
            } else if reach(occ, b, (c.0 - 1, c.1), fewer) {
                (c.0 - 1, c.1)
            } else if reach(occ, b, (c.0, c.1 + 1), fewer) {
                (c.0, c.1 + 1)
            } else {
                (c.0, c.1 - 1)
            };
            assert(reach(occ, b, d, fewer));
            lemma_reach_joined(occ, a, b, d, first, fewer);
            lemma_reach_step(occ, a, d, c, first + fewer);
        }
    }
}

/// Paths turn round: what reaches `b` from `a` reaches `a` from `b`.
pub proof fn lemma_reach_back(occ: Set<(int, int)>, a: (int, int), b: (int, int), steps: nat)
    requires
        reach(occ, a, b, steps),
    ensures
        reach(occ, b, a, steps),
    decreases steps,
{
    if steps > 0 {
        let fewer = (steps - 1) as nat;
        if reach(occ, a, b, fewer) {
            lemma_reach_back(occ, a, b, fewer);
            lemma_reach_monotone(occ, b, a, fewer, steps);
        } else {
            let d = if reach(occ, a, (b.0 + 1, b.1), fewer) {
                (b.0 + 1, b.1)
            } else if reach(occ, a, (b.0 - 1, b.1), fewer) {
                (b.0 - 1, b.1)
            } else if reach(occ, a, (b.0, b.1 + 1), fewer) {
                (b.0, b.1 + 1)
            } else {
                (b.0, b.1 - 1)
            };
            assert(reach(occ, a, d, fewer));
            lemma_reach_back(occ, a, d, fewer);
            assert(reach(occ, b, b, 0));
            lemma_reach_step(occ, b, b, d, 0);
            lemma_reach_joined(occ, b, d, a, 1, fewer);
        }
    }
}

/// Being connected passes on: from `a` to `b` and from `b` to `c`.
pub proof fn lemma_connected_joined(
    occ: Set<(int, int)>,
    a: (int, int),
    b: (int, int),
    c: (int, int),
)
    requires
        connected(occ, a, b),
        connected(occ, b, c),
    ensures
        connected(occ, a, c),
        connected(occ, b, a),
{
    let first = choose|steps: nat| reach(occ, a, b, steps);
    let then = choose|steps: nat| reach(occ, b, c, steps);
    lemma_reach_joined(occ, a, b, c, first, then);
    lemma_reach_back(occ, a, b, first);
}

/// A point at the same place, with the height that belongs to a distance.
pub open spec fn raised(p: Point, steps: int) -> Point {
    Point { x: p.x, y: p.y, value: height_at(steps) as i32 }
}

/// Those of the points that are connected to the origin over the occupied
/// cells `occ`, in their order, each with the height of its graph distance.
pub open spec fn surviving(points: Seq<Point>, occ: Set<(int, int)>, origin: (int, int)) -> Seq<
    Point,
>
    decreases points.len(),
{
    if points.len() == 0 {
        Seq::empty()
    } else {
        let rest = surviving(points.drop_last(), occ, origin);
        let p = points.last();
        if connected(occ, origin, p.cell()) {
            rest.push(raised(p, distance(occ, origin, p.cell()) as int))
        } else {
            rest
        }
    }
}

/// The survivors are the connected points, one for one and in their order,
/// each with the height of its distance.
pub proof fn lemma_surviving(points: Seq<Point>, occ: Set<(int, int)>, origin: (int, int))
    ensures
        surviving(points, occ, origin).len() <= points.len(),
        forall|j: int|
            0 <= j < surviving(points, occ, origin).len() ==> {
                let q = #[trigger] surviving(points, occ, origin)[j];
                &&& connected(occ, origin, q.cell())
                &&& q.value == height_at(distance(occ, origin, q.cell()) as int)
                &&& exists|i: int| 0 <= i < points.len() && (#[trigger] points[i]).cell() == q.cell()
            },
        forall|i: int|
            0 <= i < points.len() && connected(occ, origin, (#[trigger] points[i]).cell())
                ==> occupied(surviving(points, occ, origin)).contains(points[i].cell()),
    decreases points.len(),
{
    let out = surviving(points, occ, origin);
    if points.len() > 0 {
        let front = points.drop_last();
        let rest = surviving(front, occ, origin);
        let p = points.last();
        lemma_surviving(front, occ, origin);
        let d = distance(occ, origin, p.cell()) as int;
        assert forall|j: int| 0 <= j < out.len() implies ({
            let q = #[trigger] out[j];
            &&& connected(occ, origin, q.cell())
            &&& q.value == height_at(distance(occ, origin, q.cell()) as int)
            &&& exists|i: int| 0 <= i < points.len() && (#[trigger] points[i]).cell() == q.cell()
        }) by {
            let q = out[j];
            if j < rest.len() {
                assert(q == rest[j]);
                let i = choose|i: int|
                    0 <= i < front.len() && (#[trigger] front[i]).cell() == q.cell();
                assert(points[i].cell() == q.cell());
            } else {
                assert(q == raised(p, d));
                assert(points[points.len() - 1].cell() == q.cell());
            }
        }
        assert forall|i: int|
            0 <= i < points.len() && connected(occ, origin, (#[trigger] points[i]).cell()) implies occupied(
            out,
        ).contains(points[i].cell()) by {
            if i < front.len() {
                assert(front[i] == points[i]);
                assert(occupied(rest).contains(points[i].cell()));
                let j = choose|j: int| 0 <= j < cells(rest).len() && cells(rest)[j] == points[i].cell();
                assert(cells(out)[j] == points[i].cell());
            } else {
                assert(cells(out)[out.len() - 1] == points[i].cell());
            }
        }
    }
}

/// Among the survivors, a point no further from the origin is no lower, and
/// a point on the origin has the peak height.
pub proof fn lemma_heights_fall_with_distance(
    points: Seq<Point>,
    occ: Set<(int, int)>,
    origin: (int, int),
    a: int,
    b: int,
)
    requires
        0 <= a < surviving(points, occ, origin).len(),
        0 <= b < surviving(points, occ, origin).len(),
    ensures
        distance(occ, origin, surviving(points, occ, origin)[a].cell()) <= distance(
            occ,
            origin,
            surviving(points, occ, origin)[b].cell(),
        ) ==> surviving(points, occ, origin)[a].value >= surviving(points, occ, origin)[b].value,
        surviving(points, occ, origin)[a].cell() == origin ==> surviving(
            points,
            occ,
            origin,
        )[a].value == PEAK,
{
    let out = surviving(points, occ, origin);
    lemma_surviving(points, occ, origin);
    let da = distance(occ, origin, out[a].cell()) as int;
    let db = distance(occ, origin, out[b].cell()) as int;
    if da <= db {
        lemma_height_profile(da, db);
    }
    if out[a].cell() == origin {
        assert(reach(occ, origin, origin, 0));
        lemma_distance_unique(occ, origin, origin, 0);
    }
}

} // verus!
