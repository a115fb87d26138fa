//! Points of the lattice, and links between two of them.

use crate::grid::{
    adjacent, in_grid, lemma_run_along_x_size, lemma_run_along_y_size, run_along_x, run_along_y, touches,
};
use crate::position::PositionSet;
use vstd::prelude::*;

verus! {

/// The value a point gets when it joins the cluster: two units, in eighths.
pub const CONTACT: i32 = 16;

/// The value of every point that a link is traced into: two units, in eighths.
pub const TRACED: i32 = 16;

/// A lattice point. Its identity is the cell `(x, y)`; `value` is a height in
/// eighths of a unit and no part of the identity.
#[derive(Clone, Copy, Debug, PartialEq, Eq, Structural)]
pub struct Point {
    pub x: i32,
    pub y: i32,
    pub value: i32,
}

/// Two points joined at the time one of them settled.
#[derive(Clone, Copy, Debug, PartialEq, Eq, Structural)]
pub struct Link {
    pub p1: Point,
    pub p2: Point,
}

/// Why no link could be made.
#[derive(Clone, Copy, Debug, PartialEq, Eq, Structural)]
pub enum LinkError {
    /// None of the four neighbouring cells is occupied.
    NoNeighbor,
}

impl LinkError {
    /// What went wrong, in words.
    pub fn message(&self) -> (text: String)
        ensures
            text@ == "Can't find a valid point to create a Link"@,
    {
        "Can't find a valid point to create a Link".to_owned()
    }
}

/// Where a coordinate `at` lands after moving by `by` on a ring of `cap`
/// cells: past the upper end it lands on 0, below 0 on `cap - 1`.
pub open spec fn wrapped(at: int, by: int, cap: int) -> int {
    if at + by >= cap {
        0
    } else if at + by < 0 {
        cap - 1
    } else {
        at + by
    }
}

/// The first occupied neighbour of `c`, probing +x, -x, +y, -y in this order.
pub open spec fn first_neighbor(occupied: Set<(int, int)>, c: (int, int)) -> Option<(int, int)> {
    if occupied.contains((c.0 + 1, c.1)) {
        Some((c.0 + 1, c.1))
    } else if occupied.contains((c.0 - 1, c.1)) {
        Some((c.0 - 1, c.1))
    } else if occupied.contains((c.0, c.1 + 1)) {
        Some((c.0, c.1 + 1))
    } else if occupied.contains((c.0, c.1 - 1)) {
        Some((c.0, c.1 - 1))
    } else {
        None
    }
}

/// Whatever the move, a coordinate lands on the ring.
pub proof fn lemma_wrap_lands_on_ring(at: int, by: int, cap: int)
    requires
        1 <= cap,
    ensures
        0 <= wrapped(at, by, cap) < cap,
{
}

/// A unit step from inside a ring stays inside it: from the last cell
/// upwards to 0, from 0 downwards to the last cell, and one cell along
/// anywhere else.
pub proof fn lemma_wrap_stays_in_range(at: int, by: int, cap: int)
    requires
        0 <= at < cap,
        by == 1 || by == -1,
    ensures
        0 <= wrapped(at, by, cap) < cap,
        at == cap - 1 && by == 1 ==> wrapped(at, by, cap) == 0,
        at == 0 && by == -1 ==> wrapped(at, by, cap) == cap - 1,
        0 <= at + by < cap ==> wrapped(at, by, cap) == at + by,
{
}

/// How many directions a walker chooses from: +x, -x, +y and -y.
pub const DIRECTIONS: i32 = 4;

/// The bound under which a walker's direction is drawn.
pub fn direction_bound() -> (bound: i32)
    ensures
        bound == DIRECTIONS,
{
    DIRECTIONS
}

/// Where a point stands after one unit step in the given direction on a
/// torus of side `cap`: 0 is +x, 1 is -x, 2 is +y, anything else -y.
pub open spec fn stepped(p: Point, direction: int, cap: int) -> Point {
    if direction == 0 {
        Point { x: wrapped(p.x as int, 1, cap) as i32, y: p.y, value: p.value }
    } else if direction == 1 {
        Point { x: wrapped(p.x as int, -1, cap) as i32, y: p.y, value: p.value }
    } else if direction == 2 {
        Point { x: p.x, y: wrapped(p.y as int, 1, cap) as i32, value: p.value }
    } else {
        Point { x: p.x, y: wrapped(p.y as int, -1, cap) as i32, value: p.value }
    }
}

/// Whether `b` is one unit step from `a` on a torus of side `cap`, in one
/// of the four directions.
pub open spec fn unit_step(a: Point, b: Point, cap: int) -> bool {
    exists|d: int| 0 <= d < DIRECTIONS && b == #[trigger] stepped(a, d, cap)
}

/// A unit step on the torus never leaves the grid.
pub proof fn lemma_step_stays_in_grid(p: Point, direction: int, cap: int)
    requires
        in_grid(p.cell(), cap),
        cap <= i32::MAX,
    ensures
        in_grid(stepped(p, direction, cap).cell(), cap),
{
    lemma_wrap_stays_in_range(p.x as int, 1, cap);
    lemma_wrap_stays_in_range(p.x as int, -1, cap);
    lemma_wrap_stays_in_range(p.y as int, 1, cap);
    lemma_wrap_stays_in_range(p.y as int, -1, cap);
}

/// A neighbour is found exactly when the cell touches the set, and it is
/// adjacent and occupied.
pub proof fn lemma_first_neighbor(occupied: Set<(int, int)>, c: (int, int))
    ensures
        first_neighbor(occupied, c) is Some <==> touches(occupied, c),
        first_neighbor(occupied, c) matches Some(n) ==> occupied.contains(n) && adjacent(c, n),
{
}

/// A point at the same place, with the value `TRACED`.
pub open spec fn retouched(p: Point) -> Point {
    Point { x: p.x, y: p.y, value: TRACED }
}

/// The cells that the points stand on, in the points' order.
pub open spec fn cells(points: Seq<Point>) -> Seq<(int, int)> {
    Seq::new(points.len(), |i: int| points[i].cell())
}

/// The set of cells on which some point stands.
pub open spec fn occupied(points: Seq<Point>) -> Set<(int, int)> {
    cells(points).to_set()
}

impl Point {
    /// The cell this point stands on.
    pub open spec fn cell(&self) -> (int, int) {
        (self.x as int, self.y as int)
    }

    /// A point on the cell `(x, y)` with the given value.
    pub fn new(x: i32, y: i32, value: i32) -> (point: Point)
        ensures
            point == (Point { x, y, value }),
    {
        Point { x, y, value }
    }

    /// Whether this point's cell is occupied.
    pub fn is_in_position_set(&self, position_set: &PositionSet) -> (held: bool)
        ensures
            held == position_set@.contains(self.cell()),
    {
        position_set.contains(self.x, self.y)
    }

    /// Whether one of the four neighbouring cells is occupied.
    pub fn is_touching_any(&self, position_set: &PositionSet) -> (touching: bool)
        ensures
            touching == touches(position_set@, self.cell()),
    {
        proof {
            position_set.lemma_bounded();
        }
        (self.x < i32::MAX && position_set.contains(self.x + 1, self.y)) || (self.x > i32::MIN
            && position_set.contains(self.x - 1, self.y)) || (self.y < i32::MAX
            && position_set.contains(self.x, self.y + 1)) || (self.y > i32::MIN
            && position_set.contains(self.x, self.y - 1))
    }

    /// Links this point to its first occupied neighbour, probing +x, -x, +y,
    /// -y in this order; fails when no neighbour is occupied.
    pub fn find_link(&self, position_set: &PositionSet) -> (found: Result<Link, LinkError>)
        ensures
            found == match first_neighbor(position_set@, self.cell()) {
                Some(n) => Ok(
                    Link { p1: *self, p2: Point { x: n.0 as i32, y: n.1 as i32, value: CONTACT } },
                ),
                None => Err(LinkError::NoNeighbor),
            },
    {
        proof {
            position_set.lemma_bounded();
        }
        if self.x < i32::MAX && position_set.contains(self.x + 1, self.y) {
            return Ok(Link::new(*self, Point::new(self.x + 1, self.y, CONTACT)));
        }
        if self.x > i32::MIN && position_set.contains(self.x - 1, self.y) {
            return Ok(Link::new(*self, Point::new(self.x - 1, self.y, CONTACT)));
        }
        if self.y < i32::MAX && position_set.contains(self.x, self.y + 1) {
            return Ok(Link::new(*self, Point::new(self.x, self.y + 1, CONTACT)));
        }
        if self.y > i32::MIN && position_set.contains(self.x, self.y - 1) {
            return Ok(Link::new(*self, Point::new(self.x, self.y - 1, CONTACT)));
        }
        Err(LinkError::NoNeighbor)
    }

    /// Moves along x by `x` on a ring of `cap` cells.
    pub fn add_x(&mut self, x: i32, cap: i32)
        requires
            cap > i32::MIN,
        ensures
            final(self).x == wrapped(old(self).x as int, x as int, cap as int),
            final(self).y == old(self).y,
            final(self).value == old(self).value,
            cap >= 1 ==> 0 <= final(self).x < cap,
    {
        let moved: i64 = self.x as i64 + x as i64;
        if moved >= cap as i64 {
            self.x = 0;
        } else if moved < 0 {
            self.x = cap - 1;
        } else {
            self.x = moved as i32;
        }
    }

    /// Moves along y by `y` on a ring of `cap` cells.
    pub fn add_y(&mut self, y: i32, cap: i32)
        requires
            cap > i32::MIN,
        ensures
            final(self).y == wrapped(old(self).y as int, y as int, cap as int),
            final(self).x == old(self).x,
            final(self).value == old(self).value,
            cap >= 1 ==> 0 <= final(self).y < cap,
    {
        let moved: i64 = self.y as i64 + y as i64;
        if moved >= cap as i64 {
            self.y = 0;
        } else if moved < 0 {
            self.y = cap - 1;
        } else {
            self.y = moved as i32;
        }
    }

    /// Takes one unit step on a torus of side `cap`: direction 0 is +x, 1 is
    /// -x, 2 is +y, anything else -y.
    pub fn step(&mut self, direction: i32, cap: i32)
        requires
            cap > i32::MIN,
        ensures
            *final(self) == stepped(*old(self), direction as int, cap as int),
    {
        if direction == 0 {
            self.add_x(1, cap);
        } else if direction == 1 {
            self.add_x(-1, cap);
        } else if direction == 2 {
            self.add_y(1, cap);
        } else {
            self.add_y(-1, cap);
        }
    }

    /// The column.
    pub fn x(&self) -> (x: i32)
        ensures
            x == self.x,
    {
        self.x
    }

    /// The row.
    pub fn y(&self) -> (y: i32)
        ensures
            y == self.y,
    {
        self.y
    }

    /// The height, in eighths of a unit.
    pub fn value(&self) -> (value: i32)
        ensures
            value == self.value,
    {
        self.value
    }

    /// Gives the point another height, in eighths of a unit.
    pub fn set_value(&mut self, value: i32)
        ensures
            *final(self) == (Point { x: old(self).x, y: old(self).y, value }),
    {
        self.value = value;
    }
}

impl Link {
    /// A link from `p1` to `p2`.
    pub fn new(p1: Point, p2: Point) -> (link: Link)
        ensures
            link == (Link { p1, p2 }),
    {
        Link { p1, p2 }
    }

    /// The end that settled.
    pub fn p1(&self) -> (p1: Point)
        ensures
            p1 == self.p1,
    {
        self.p1
    }

    /// The end it settled against.
    pub fn p2(&self) -> (p2: Point)
        ensures
            p2 == self.p2,
    {
        self.p2
    }

    /// Whether the two ends share a coordinate.
    pub open spec fn is_aligned(&self) -> bool {
        self.p1.x == self.p2.x || self.p1.y == self.p2.y
    }

    /// How many unit steps lie between the two ends of an aligned link.
    pub open spec fn span(&self) -> int {
        if self.p1.x == self.p2.x {
            if self.p1.y <= self.p2.y {
                self.p2.y - self.p1.y
            } else {
                self.p1.y - self.p2.y
            }
        } else {
            if self.p1.x <= self.p2.x {
                self.p2.x - self.p1.x
            } else {
                self.p1.x - self.p2.x
            }
        }
    }

    /// The cells of the segment between the two ends, both included; none
    /// where the ends share no coordinate.
    pub open spec fn segment(&self) -> Set<(int, int)> {
        if self.p1.x == self.p2.x {
            if self.p1.y <= self.p2.y {
                run_along_y(self.p1.x as int, self.p1.y as int, self.p2.y as int)
            } else {
                run_along_y(self.p1.x as int, self.p2.y as int, self.p1.y as int)
            }
        } else if self.p1.y == self.p2.y {
            if self.p1.x <= self.p2.x {
                run_along_x(self.p1.y as int, self.p1.x as int, self.p2.x as int)
            } else {
                run_along_x(self.p1.y as int, self.p2.x as int, self.p1.x as int)
            }
        } else {
            Set::empty()
        }
    }

    /// What tracing gives: the two ends, then every cell of the segment in
    /// ascending order, every one of these points with the value `TRACED`.
    /// Ends that share no coordinate give the two ends alone.
    pub open spec fn traced(&self) -> Seq<Point> {
        let ends = seq![retouched(self.p1), retouched(self.p2)];
        if self.p1.x == self.p2.x {
            let lo = if self.p1.y <= self.p2.y {
                self.p1.y
            } else {
                self.p2.y
            };
            ends + Seq::new(
                (self.span() + 1) as nat,
                |i: int| Point { x: self.p1.x, y: (lo + i) as i32, value: TRACED },
            )
        } else if self.p1.y == self.p2.y {
            let lo = if self.p1.x <= self.p2.x {
                self.p1.x
            } else {
                self.p2.x
            };
            ends + Seq::new(
                (self.span() + 1) as nat,
                |i: int| Point { x: (lo + i) as i32, y: self.p1.y, value: TRACED },
            )
        } else {
            ends
        }
    }

    /// Rasterizes the link: the two ends, then every cell between them, all
    /// with the value `TRACED`.
    pub fn trace(&self) -> (points: Vec<Point>)
        ensures
            points@ == self.traced(),
    {
        let mut points: Vec<Point> = Vec::new();
        points.push(Point::new(self.p1.x, self.p1.y, TRACED));
        points.push(Point::new(self.p2.x, self.p2.y, TRACED));
        let ghost ends = points@;
        assert(ends =~= seq![retouched(self.p1), retouched(self.p2)]);
        if self.p1.x == self.p2.x {
            let (y1, y2) = if self.p1.y <= self.p2.y {
                (self.p1.y, self.p2.y)
            } else {
                (self.p2.y, self.p1.y)
            };
            let x = self.p1.x;
            let mut y: i64 = y1 as i64;
            while y <= y2 as i64
                invariant
                    y1 <= y <= y2 + 1,
                    points@ == ends + Seq::new(
                        (y - y1) as nat,
                        |i: int| Point { x, y: (y1 + i) as i32, value: TRACED },
                    ),
                decreases y2 + 1 - y,
            {
                points.push(Point::new(x, y as i32, TRACED));
                y = y + 1;
                assert(points@ =~= ends + Seq::new(
                    (y - y1) as nat,
                    |i: int| Point { x, y: (y1 + i) as i32, value: TRACED },
                ));
            }
            assert(points@ =~= self.traced());
        } else if self.p1.y == self.p2.y {
            let (x1, x2) = if self.p1.x <= self.p2.x {
                (self.p1.x, self.p2.x)
            } else {
                (self.p2.x, self.p1.x)
            };
            let y = self.p1.y;
            let mut x: i64 = x1 as i64;
            while x <= x2 as i64
                invariant
                    x1 <= x <= x2 + 1,
                    points@ == ends + Seq::new(
                        (x - x1) as nat,
                        |i: int| Point { x: (x1 + i) as i32, y, value: TRACED },
                    ),
                decreases x2 + 1 - x,
            {
                points.push(Point::new(x as i32, y, TRACED));
                x = x + 1;
                assert(points@ =~= ends + Seq::new(
                    (x - x1) as nat,
                    |i: int| Point { x: (x1 + i) as i32, y, value: TRACED },
                ));
            }
            assert(points@ =~= self.traced());
        }
        points
    }

    /// Every traced point has the value `TRACED`.
    pub proof fn lemma_traced_values(&self)
        ensures
            forall|j: int|
                0 <= j < self.traced().len() ==> (#[trigger] self.traced()[j]).value == TRACED,
    {
    }

    /// A traced link between two cells of a grid stays on the grid.
    pub proof fn lemma_traced_in_grid(&self, side: int)
        requires
            in_grid(self.p1.cell(), side),
            in_grid(self.p2.cell(), side),
        ensures
            forall|j: int|
                0 <= j < self.traced().len() ==> in_grid(#[trigger] self.traced()[j].cell(), side),
    {
    }

    /// The cells that a traced link stands on.
    pub open spec fn traced_cells(&self) -> Set<(int, int)> {
        self.traced().map_values(|p: Point| p.cell()).to_set()
    }

    /// Tracing an aligned link covers its segment and nothing else: as many
    /// distinct cells as the ends are apart, and one more.
    pub proof fn lemma_trace_covers_segment(&self)
        requires
            self.is_aligned(),
        ensures
            self.traced_cells() == self.segment(),
            self.segment().finite(),
            self.segment().len() == self.span() + 1,
            self.segment().contains(self.p1.cell()),
            self.segment().contains(self.p2.cell()),
    {
        let traced = self.traced();
        let cells = traced.map_values(|p: Point| p.cell());
        if self.p1.x == self.p2.x {
            let lo = if self.p1.y <= self.p2.y {
                self.p1.y
            } else {
                self.p2.y
            };
            lemma_run_along_y_size(self.p1.x as int, lo as int, lo + self.span());
            assert forall|c: (int, int)| self.segment().contains(c) implies cells.to_set().contains(
                c,
            ) by {
                let i = c.1 - lo;
                assert(traced[2 + i].cell() == c);
                assert(cells[2 + i] == c);
            }
            assert forall|c: (int, int)| cells.to_set().contains(c) implies self.segment().contains(
                c,
            ) by {
                let i = choose|i: int| 0 <= i < cells.len() && cells[i] == c;
                assert(cells[i] == traced[i].cell());
            }
        } else {
            let lo = if self.p1.x <= self.p2.x {
                self.p1.x
            } else {
                self.p2.x
            };
            lemma_run_along_x_size(self.p1.y as int, lo as int, lo + self.span());
            assert forall|c: (int, int)| self.segment().contains(c) implies cells.to_set().contains(
                c,
            ) by {
                let i = c.0 - lo;
                assert(traced[2 + i].cell() == c);
                assert(cells[2 + i] == c);
            }
            assert forall|c: (int, int)| cells.to_set().contains(c) implies self.segment().contains(
                c,
            ) by {
                let i = choose|i: int| 0 <= i < cells.len() && cells[i] == c;
                assert(cells[i] == traced[i].cell());
            }
        }
        assert(self.traced_cells() =~= self.segment());
    }
}

} // verus!
