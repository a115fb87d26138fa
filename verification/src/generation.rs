//! The radial variant: a cluster grown without links, whose walkers are to be
//! weighted by how far from the centre they settled.
//!
//! The weighting takes a square root and is no part of this library. A
//! walker keeps the provisional height it set out with, by which a caller
//! tells it from the seed and from the fillers.

use crate::cluster::{
    admitted, campaign, grown_points, has_earlier_neighbor, joined_at, landed, lemma_grown_points_step,
    lemma_campaign_more, lemma_campaign_none, lemma_growth_connected, lemma_walk_stays_in_grid,
    settles_in_contact, standing, walked, Cluster,
};
use crate::fill::{fill_grid, fits, grid_fill};
use crate::grid::{adjacent, grid, in_grid};
use crate::point::{cells, occupied, Link, Point, CONTACT};
use crate::random::random_below;
use crate::tile::Tile;
use vstd::prelude::*;

verus! {

/// The height of the seed: 50 units, in eighths.
pub const SUMMIT: i32 = 400;

/// The height a walker sets out with: 100 units, in eighths.
pub const PROVISIONAL: i32 = 800;

/// A terrain of the radial variant: its points, the side of its grid, and
/// its budget of random draws.
pub struct Terrain {
    points: Vec<Point>,
    gsize: i32,
    budget: u64,
}

/// What a terrain of this variant holds, as mathematics.
pub struct RadialView {
    pub points: Seq<Point>,
    pub gsize: int,
    pub budget: nat,
}

impl View for Terrain {
    type V = RadialView;

    closed spec fn view(&self) -> RadialView {
        RadialView { points: self.points@, gsize: self.gsize as int, budget: self.budget as nat }
    }
}

/// The points as walkers that have settled: each at its place, with the
/// contact value.
pub open spec fn contacts(points: Seq<Point>) -> Seq<Point> {
    Seq::new(points.len(), |i: int| landed(points[i]))
}

/// The tile of a point of this variant: no texture, and the point's height.
pub open spec fn plain_tile(p: Point) -> Tile {
    Tile { posx: p.x, posy: p.y, u: 0, v: 0, height: p.value }
}

impl Terrain {
    /// The grid has cells, no two points share one, and all are on the grid.
    pub open spec fn wf(&self) -> bool {
        &&& 0 < self@.gsize
        &&& fits(self@.points, self@.gsize)
    }

    /// An empty terrain on a grid of side `gsize`, with the largest budget
    /// of random draws.
    pub fn new(gsize: i32) -> (terrain: Terrain)
        ensures
            terrain@ == (RadialView {
                points: Seq::empty(),
                gsize: gsize as int,
                budget: u64::MAX as nat,
            }),
            gsize > 0 ==> terrain.wf(),
    {
        let terrain = Terrain { points: Vec::new(), gsize, budget: u64::MAX };
        assert(cells(terrain@.points) =~= Seq::empty());
        terrain
    }

    /// The side of the grid.
    pub fn gsize(&self) -> (gsize: i32)
        ensures
            gsize == self@.gsize,
    {
        self.gsize
    }

    /// The points, in the order they came.
    pub fn points(&self) -> (points: &Vec<Point>)
        ensures
            points@ == self@.points,
    {
        &self.points
    }

    /// How many random draws the terrain may still take.
    pub fn budget(&self) -> (budget: u64)
        ensures
            budget == self@.budget,
    {
        self.budget
    }

    /// Sets how many random draws the terrain may still take.
    pub fn set_budget(&mut self, budget: u64)
        ensures
            final(self)@ == (RadialView { budget: budget as nat, ..old(self)@ }),
    {
        self.budget = budget;
    }

    /// The bound under which both coordinates of a walker's start are
    /// drawn: the side of the grid, so that a walker may start on any cell.
    pub fn spawn_bound(&self) -> (bound: i32)
        ensures
            bound == self@.gsize,
    {
        self.gsize
    }

    /// Grows a cluster of `range` points on this terrain's grid and hands it
    /// out as a terrain of its own: the seed on the centre cell with the
    /// summit height, then the walkers in the order they settled, each with
    /// the provisional height. Walkers start anywhere on the grid; each start
    /// and each step takes one draw from this terrain's budget, and the
    /// cluster stays short of `range` only where the budget ran out.
    pub fn dla(&mut self, range: i32) -> (cluster: Terrain)
        requires
            0 < old(self)@.gsize,
            0 <= range,
        ensures
            final(self)@ == (RadialView { budget: final(self)@.budget, ..old(self)@ }),
            final(self)@.budget <= old(self)@.budget,
            cluster.wf(),
            cluster@.gsize == old(self)@.gsize,
            cluster@.budget == final(self)@.budget,
            cluster@.points.len() >= 1,
            cluster@.points[0] == (Point {
                x: (old(self)@.gsize / 2) as i32,
                y: (old(self)@.gsize / 2) as i32,
                value: SUMMIT,
            }),
            forall|i: int|
                1 <= i < cluster@.points.len() ==> (#[trigger] cluster@.points[i]).value
                    == PROVISIONAL,
            grown_points(
                contacts(cluster@.points).subrange(0, 1),
                contacts(cluster@.points),
                old(self)@.gsize,
            ),
            settles_in_contact(cluster@.points, 1),
            cluster@.points.len() <= range || cluster@.points.len() == 1,
            cluster@.points.len() >= range || final(self)@.budget == 0,
            cluster@.points.len() - 1 <= old(self)@.budget - final(self)@.budget,
            exists|paths: Seq<Seq<Point>>| #[trigger]
                campaign(
                    standing(contacts(cluster@.points).subrange(0, 1), Seq::empty()),
                    standing(contacts(cluster@.points), Seq::empty()),
                    paths,
                    old(self)@.gsize,
                    false,
                    old(self)@.budget - final(self)@.budget,
                ),
    {
        let mut random = rand::rng();
        let side = self.gsize;
        let center_point = Point::new(side / 2, side / 2, CONTACT);
        let mut growing = Cluster::seeded(center_point);
        let ghost seed = seq![center_point];
        proof {
            assert(growing@.points.subrange(0, 1) =~= seed);
        }
        let ghost first = growing@;
        let ghost mut paths: Seq<Seq<Point>> = Seq::empty();
        proof {
            lemma_campaign_none(first, side as int, false);
        }
        let mut out_of_steps = false;
        while (growing.len() as u64) < range as u64 && !out_of_steps
            invariant
                first == standing(seed, Seq::empty()),
                campaign(first, growing@, paths, side as int, false, old(self).budget - self.budget),
                self.points@ == old(self).points@,
                self.gsize == old(self).gsize,
                self.budget <= old(self).budget,
                side == self.gsize,
                0 < side,
                0 <= range,
                growing.consistent(),
                growing@.links == Seq::<Link>::empty(),
                grown_points(seed, growing@.points, side as int),
                seed == seq![center_point],
                center_point == (Point { x: (side / 2) as i32, y: (side / 2) as i32, value: CONTACT }),
                growing@.points.len() <= range || growing@.points.len() == 1,
                growing@.points.len() - 1 <= old(self).budget - self.budget,
                forall|k: int|
                    0 <= k < growing@.points.len() ==> in_grid(
                        #[trigger] growing@.points[k].cell(),
                        side as int,
                    ),
                out_of_steps ==> self.budget == 0,
            decreases self.budget, (if out_of_steps { 0int } else { 1int }),
        {
            if self.budget == 0 {
                out_of_steps = true;
            } else {
                self.budget = self.budget - 1;
                let ghost left = self.budget;
                let span = self.spawn_bound();
                let x = random_below(&mut random, span);
                let y = random_below(&mut random, span);
                let new_point = Point::new(x, y, PROVISIONAL);
                let ghost before = growing@;
                growing.admit_walker(&mut random, new_point, side, &mut self.budget, false);
                proof {
                    let path = choose|path: Seq<Point>|
                        {
                            &&& #[trigger] walked(before.occupied, new_point, path, side as int)
                            &&& admitted(
                                before,
                                growing@,
                                path,
                                left - self.budget,
                                self.budget as int,
                                false,
                            )
                        };
                    lemma_campaign_more(
                        first,
                        before,
                        growing@,
                        paths,
                        path,
                        side as int,
                        false,
                        old(self).budget - left - 1,
                        self.budget as int,
                    );
                    paths = paths.push(path);
                    if growing@ != before {
                        lemma_walk_stays_in_grid(
                            before.occupied,
                            new_point,
                            path,
                            side as int,
                            path.len() - 1,
                        );
                        lemma_grown_points_step(seed, before.points, path.last(), side as int);
                        assert forall|k: int| 0 <= k < growing@.points.len() implies in_grid(
                            #[trigger] growing@.points[k].cell(),
                            side as int,
                        ) by {
                            if k < before.points.len() {
                                assert(growing@.points[k] == before.points[k]);
                            }
                        }
                    }
                }
            }
        }
        let ghost grown_up = growing@;
        let (walkers, _) = growing.into_parts();
        let mut points: Vec<Point> = Vec::new();
        points.push(Point::new(side / 2, side / 2, SUMMIT));
        let mut i: usize = 1;
        proof {
            assert(walkers@[0] == seed[0]) by {
                assert(walkers@.subrange(0, 1)[0] == walkers@[0]);
            }
            assert(contacts(points@) =~= walkers@.subrange(0, 1));
        }
        while i < walkers.len()
            invariant
                1 <= i <= walkers.len(),
                points@.len() == i,
                points@[0] == (Point { x: (side / 2) as i32, y: (side / 2) as i32, value: SUMMIT }),
                forall|k: int| 1 <= k < i ==> (#[trigger] points@[k]).value == PROVISIONAL,
                contacts(points@) == walkers@.subrange(0, i as int),
                grown_points(seed, walkers@, side as int),
                seed.len() == 1,
            decreases walkers.len() - i,
        {
            let w = walkers[i];
            assert(joined_at(walkers@, i as int, side as int));
            points.push(Point::new(w.x(), w.y(), PROVISIONAL));
            i = i + 1;
            assert(contacts(points@) =~= walkers@.subrange(0, i as int));
        }
        proof {
            assert(walkers@.subrange(0, walkers@.len() as int) =~= walkers@);
            assert(contacts(points@).subrange(0, 1) =~= seed);
            assert(cells(points@) =~= cells(walkers@));
            lemma_growth_connected(seed, walkers@, side as int);
            assert forall|k: int| 1 <= k < points@.len() implies #[trigger] has_earlier_neighbor(
                points@,
                k,
            ) by {
                assert(has_earlier_neighbor(walkers@, k));
                let j = choose|j: int|
                    0 <= j < k && adjacent(
                        walkers@[k].cell(),
                        #[trigger] walkers@[j].cell(),
                    );
                assert(cells(points@)[j] == cells(walkers@)[j]);
                assert(cells(points@)[k] == cells(walkers@)[k]);
                assert(adjacent(points@[k].cell(), points@[j].cell()));
            }
            assert forall|k: int| 0 <= k < points@.len() implies in_grid(
                #[trigger] points@[k].cell(),
                side as int,
            ) by {
                assert(cells(points@)[k] == cells(walkers@)[k]);
                assert(in_grid(walkers@[k].cell(), side as int));
            }
        }
        proof {
            assert(grown_up == standing(contacts(points@), Seq::empty()));
            assert(campaign(
                standing(contacts(points@).subrange(0, 1), Seq::empty()),
                standing(contacts(points@), Seq::empty()),
                paths,
                side as int,
                false,
                old(self).budget - self.budget,
            ));
        }
        let ghost held = points@;
        let cluster = Terrain { points, gsize: side, budget: self.budget };
        assert(cluster@.points == held);
        assert(campaign(
            standing(contacts(cluster@.points).subrange(0, 1), Seq::empty()),
            standing(contacts(cluster@.points), Seq::empty()),
            paths,
            old(self)@.gsize,
            false,
            old(self)@.budget - self@.budget,
        ));
        cluster
    }

    /// A terrain with this one's points and, behind them, a filler of one
    /// unit on every cell of the grid that none of them stands on, row after
    /// row. This terrain stays as it is.
    pub fn complete_pattern(&mut self) -> (completed: Terrain)
        ensures
            *final(self) == *old(self),
            completed@.gsize == old(self)@.gsize,
            completed@.budget == old(self)@.budget,
            completed@.points == old(self)@.points + grid_fill(
                occupied(old(self)@.points),
                old(self)@.gsize,
                old(self)@.gsize,
            ),
            old(self).wf() ==> {
                &&& completed.wf()
                &&& occupied(completed@.points) == grid(old(self)@.gsize)
                &&& completed@.points.len() == old(self)@.gsize * old(self)@.gsize
            },
    {
        let mut points: Vec<Point> = Vec::new();
        let mut i: usize = 0;
        while i < self.points.len()
            invariant
                0 <= i <= self.points.len(),
                *self == *old(self),
                points@ == self.points@.subrange(0, i as int),
            decreases self.points.len() - i,
        {
            points.push(self.points[i]);
            i = i + 1;
            assert(points@ =~= self.points@.subrange(0, i as int));
        }
        assert(self.points@.subrange(0, self.points@.len() as int) =~= self.points@);
        let filled = fill_grid(points, self.gsize);
        Terrain { points: filled, gsize: self.gsize, budget: self.budget }
    }

    /// Projects the points to tiles, one for one and in their order, without
    /// a texture.
    pub fn values_as_tile_vector(self) -> (tiles: Vec<Tile>)
        ensures
            tiles@.len() == self@.points.len(),
            forall|i: int|
                0 <= i < tiles@.len() ==> #[trigger] tiles@[i] == plain_tile(self@.points[i]),
    {
        let mut tiles: Vec<Tile> = Vec::new();
        let mut i: usize = 0;
        while i < self.points.len()
            invariant
                0 <= i <= self.points.len(),
                tiles@.len() == i,
                forall|k: int| 0 <= k < i ==> #[trigger] tiles@[k] == plain_tile(self.points@[k]),
            decreases self.points.len() - i,
        {
            let p = self.points[i];
            tiles.push(Tile::new(p.x(), p.y(), 0, 0, p.value()));
            i = i + 1;
        }
        tiles
    }
}

} // verus!
