//! The terrain and the stages that shape it.

use crate::cluster::{
    admitted, campaign, grew_by_one, lemma_campaign_more, lemma_campaign_none, standing, grown, inside, joined_at, lemma_walk_from_rest, lemma_walk_stays_in_grid,
    rests, walked, lemma_capacity, lemma_grown_step, lemma_growth_connected, lemma_occupied_push,
    landed, settles_in_contact, sound_link, with_walker, Cluster,
};
use crate::fill::{fill_grid, grid_fill};
use crate::grid::{grid, in_grid};
use crate::height::{connected, distance, height_for, surviving};
use crate::search::{graph_distances, UNVISITED};
use crate::point::{cells, lemma_first_neighbor, occupied, Link, Point, CONTACT, TRACED};
use crate::position::{cell_key, key_of, PositionSet};
use crate::random::random_below;
use crate::retrace::{
    covered, holds_ends, lemma_ends_retraced, lemma_retraced_covers, merged, rescaled,
    rescaled_times, retraced,
};
use crate::tile::{tile_of, Tile, ACTIVE_ABOVE};
use crate::tree::{
    lemma_spanned_grows, lemma_spanned_rescaled, lemma_spanned_seed, lemma_spanned_survives,
    rescaled_all, spanned,
};
use crate::uvs::{glow_yellow, mirror_black};
use vstd::arithmetic::power2::{lemma2_to64, lemma_pow2_unfold, pow2};
use vstd::prelude::*;

verus! {

/// How many cells of the grid stand for one unit of the size a terrain is
/// made with.
pub const SIZE_FACTOR: i32 = 8;

/// How many points the first growth pass aims at.
pub const INITIAL_POINTS: u64 = 16;

/// Why a growth pass ended short of its target.
#[derive(Clone, Copy, Debug, PartialEq, Eq, Structural)]
pub enum GrowthError {
    /// The walkers used up the terrain's budget of random draws.
    OutOfSteps,
}

impl GrowthError {
    /// What went wrong, in words.
    pub fn message(&self) -> (text: String)
        ensures
            text@ == "The budget of random draws ran out before the target was reached"@,
    {
        "The budget of random draws ran out before the target was reached".to_owned()
    }
}

/// A terrain: its points, the links that growth made between them, the side
/// of its grid, and its budget of random draws.
pub struct Terrain {
    points: Vec<Point>,
    links: Vec<Link>,
    gsize: i32,
    budget: u64,
}

/// What a terrain holds, as mathematics.
pub struct TerrainView {
    pub points: Seq<Point>,
    pub links: Seq<Link>,
    pub gsize: int,
    pub budget: nat,
}

impl View for Terrain {
    type V = TerrainView;

    closed spec fn view(&self) -> TerrainView {
        TerrainView {
            points: self.points@,
            links: self.links@,
            gsize: self.gsize as int,
            budget: self.budget as nat,
        }
    }
}

/// The seed of a terrain of the given side: the centre cell, with the
/// contact value.
pub open spec fn seed_of(side: int) -> Point {
    Point { x: (side / 2) as i32, y: (side / 2) as i32, value: CONTACT }
}

/// A grid side after `n` doublings.
pub open spec fn doublings(side: int, n: nat) -> int
    decreases n,
{
    if n == 0 {
        side
    } else {
        2 * doublings(side, (n - 1) as nat)
    }
}

/// A side doubled `n` times is the side times the `n`-th power of two.
pub proof fn lemma_doublings_is_power(side: int, n: nat)
    ensures
        doublings(side, n) == side * pow2(n),
    decreases n,
{
    if n == 0 {
        lemma2_to64();
    } else {
        lemma_doublings_is_power(side, (n - 1) as nat);
        lemma_pow2_unfold(n);
        assert(2 * (side * pow2((n - 1) as nat)) == side * (2 * pow2((n - 1) as nat)))
            by (nonlinear_arith);
    }
}

/// Doubling a positive side more often gives no smaller a side.
pub proof fn lemma_doublings_grow(side: int, few: nat, many: nat)
    requires
        0 < side,
        few <= many,
    ensures
        0 < doublings(side, few) <= doublings(side, many),
    decreases many,
{
    if few < many {
        lemma_doublings_grow(side, few, (many - 1) as nat);
    } else if few > 0 {
        lemma_doublings_grow(side, (few - 1) as nat, (few - 1) as nat);
    }
}

/// How many points a cluster of `points` points, spanned by its links, has
/// after `n` cycles that each reached their number: four times as many with
/// each cycle.
pub open spec fn points_after(points: int, n: nat) -> int
    decreases n,
{
    if n == 0 {
        points
    } else {
        4 * points_after(points, (n - 1) as nat)
    }
}

/// How many links such a cluster has after `n` such cycles: with each cycle
/// one for each point that the crisp layer added.
pub open spec fn links_after(points: int, links: int, n: nat) -> int
    decreases n,
{
    if n == 0 {
        links
    } else {
        links_after(points, links, (n - 1) as nat) + 2 * points_after(points, (n - 1) as nat) + 1
    }
}

/// Whether `after` is what `k` cycles of upscale and crisp layer make of
/// `before`, where `traced` are the links as the last upscale left them: the
/// side has doubled `k` times; `traced` begins with the links of `before`,
/// each rescaled `k` times; the points and links of `after` grew from the
/// retraced points and from `traced`; there are at most twice as many points
/// as were retraced, and two more; and both ends of every traced link are
/// occupied.
pub open spec fn cycled(before: TerrainView, after: TerrainView, k: nat, traced: Seq<Link>) -> bool {
    &&& 0 < k
    &&& after.gsize == doublings(before.gsize, k)
    &&& traced.len() >= before.links.len()
    &&& k == 1 ==> traced.len() == before.links.len()
    &&& forall|i: int|
        0 <= i < before.links.len() ==> #[trigger] traced[i] == rescaled_times(before.links[i], k)
    &&& grown(retraced(traced), traced, after.points, after.links, after.gsize)
    &&& after.points.len() <= 2 * (retraced(traced).len() + 1)
    &&& forall|i: int| 0 <= i < traced.len() ==> #[trigger] holds_ends(after.points, traced[i])
}

/// Whether `after` is what one cycle makes of `before`: the side is twice
/// as wide, and walkers on that grid, with the draws that left the budget,
/// made the points and links of `after` of the rescaled links of `before`
/// and their retraced points.
pub open spec fn one_cycle(before: TerrainView, after: TerrainView) -> bool {
    let traced = rescaled_all(before.links);
    &&& after.gsize == 2 * before.gsize
    &&& exists|paths: Seq<Seq<Point>>| #[trigger]
        campaign(
            standing(retraced(traced), traced),
            standing(after.points, after.links),
            paths,
            after.gsize,
            true,
            before.budget - after.budget,
        )
}

/// Whether `after` is what `k` cycles, one after the other, make of
/// `before`.
pub open spec fn cycles(before: TerrainView, after: TerrainView, k: nat) -> bool
    decreases k,
{
    if k == 0 {
        after == before
    } else {
        exists|mid: TerrainView|
            cycles(before, mid, (k - 1) as nat) && #[trigger] one_cycle(mid, after)
    }
}

/// One more cycle after `i` cycles makes `i + 1` cycles.
proof fn lemma_cycles_more(
    first: TerrainView,
    before: TerrainView,
    upscaled: TerrainView,
    after: TerrainView,
    i: nat,
)
    requires
        cycles(first, before, i),
        upscaled.gsize == 2 * before.gsize,
        upscaled.budget == before.budget,
        upscaled.links == rescaled_all(before.links),
        upscaled.points == retraced(upscaled.links),
        after.gsize == upscaled.gsize,
        exists|paths: Seq<Seq<Point>>| #[trigger]
            campaign(
                standing(upscaled.points, upscaled.links),
                standing(after.points, after.links),
                paths,
                upscaled.gsize,
                true,
                upscaled.budget - after.budget,
            ),
    ensures
        cycles(first, after, i + 1),
{
    let paths = choose|paths: Seq<Seq<Point>>| #[trigger]
        campaign(
            standing(upscaled.points, upscaled.links),
            standing(after.points, after.links),
            paths,
            upscaled.gsize,
            true,
            upscaled.budget - after.budget,
        );
    let traced = rescaled_all(before.links);
    assert(campaign(
        standing(retraced(traced), traced),
        standing(after.points, after.links),
        paths,
        after.gsize,
        true,
        before.budget - after.budget,
    ));
    assert(one_cycle(before, after));
    assert(cycles(first, before, ((i + 1) - 1) as nat));
}

/// One more cycle: where `before` is what `i` cycles made of `first`, or
/// `first` itself, and `after` grew from `before` upscaled, `after` is what
/// `i + 1` cycles make of `first`.
proof fn lemma_one_more_cycle(
    first: TerrainView,
    before: TerrainView,
    upscaled: TerrainView,
    after: TerrainView,
    i: nat,
)
    requires
        i == 0 ==> before.links == first.links,
        i > 0 ==> exists|earlier: Seq<Link>| #[trigger] cycled(first, before, i, earlier),
        before.gsize == doublings(first.gsize, i),
        upscaled.gsize == 2 * before.gsize,
        upscaled.links == rescaled_all(before.links),
        upscaled.points == retraced(upscaled.links),
        forall|j: int|
            0 <= j < upscaled.links.len() ==> #[trigger] holds_ends(
                upscaled.points,
                upscaled.links[j],
            ),
        after.gsize == upscaled.gsize,
        grown(upscaled.points, upscaled.links, after.points, after.links, after.gsize),
        after.points.len() <= (upscaled.points.len() + 1) * 2,
        forall|c: (int, int)|
            occupied(upscaled.points).contains(c) ==> #[trigger] occupied(after.points).contains(c),
    ensures
        cycled(first, after, i + 1, upscaled.links),
{
    let traced = upscaled.links;
    assert forall|j: int| 0 <= j < first.links.len() implies j < traced.len() && #[trigger] traced[j]
        == rescaled_times(first.links[j], i + 1) by {
        if i == 0 {
            assert(rescaled_times(first.links[j], 0) == first.links[j]);
            assert(traced[j] == rescaled(before.links[j]));
        } else {
            let earlier = choose|earlier: Seq<Link>| #[trigger] cycled(first, before, i, earlier);
            assert(before.links.subrange(0, earlier.len() as int)[j] == earlier[j]);
            assert(traced[j] == rescaled(before.links[j]));
        }
    }
    if i > 0 {
        let earlier = choose|earlier: Seq<Link>| #[trigger] cycled(first, before, i, earlier);
        assert(before.links.len() >= earlier.len());
    }
    assert forall|j: int| 0 <= j < traced.len() implies #[trigger] holds_ends(
        after.points,
        traced[j],
    ) by {
        assert(holds_ends(upscaled.points, upscaled.links[j]));
    }
}

impl Terrain {
    /// The grid has cells, no two points share one, and all points and links
    /// lie on the grid.
    pub open spec fn wf(&self) -> bool {
        &&& 0 < self@.gsize <= i32::MAX
        &&& cells(self@.points).no_duplicates()
        &&& inside(self@.points, self@.links, self@.gsize)
    }

    /// An empty terrain whose grid has `SIZE_FACTOR` cells a side for each
    /// unit of `gsize`, with the largest budget of random draws.
    pub fn new(gsize: i32) -> (terrain: Terrain)
        requires
            0 < gsize,
            gsize * SIZE_FACTOR <= i32::MAX,
        ensures
            terrain.wf(),
            terrain@ == (TerrainView {
                points: Seq::empty(),
                links: Seq::empty(),
                gsize: gsize * SIZE_FACTOR,
                budget: u64::MAX as nat,
            }),
    {
        let terrain = Terrain {
            points: Vec::new(),
            links: Vec::new(),
            gsize: gsize * SIZE_FACTOR,
            budget: u64::MAX,
        };
        assert(cells(terrain@.points) =~= Seq::empty());
        terrain
    }

    /// A terrain of the given side, points and links, where these are well
    /// formed: the side is positive, no two points share a cell, and all
    /// points and links lie on the grid. `None` otherwise.
    pub fn from_parts(gsize: i32, points: Vec<Point>, links: Vec<Link>) -> (made: Option<Terrain>)
        ensures
            made is Some <==> 0 < gsize && cells(points@).no_duplicates() && inside(
                points@,
                links@,
                gsize as int,
            ),
            made matches Some(terrain) ==> terrain.wf() && terrain@ == (TerrainView {
                points: points@,
                links: links@,
                gsize: gsize as int,
                budget: u64::MAX as nat,
            }),
    {
        if gsize <= 0 {
            return None;
        }
        let mut taken = PositionSet::new();
        let mut i: usize = 0;
        proof {
            assert(points@.subrange(0, 0) =~= Seq::empty());
            assert(cells(Seq::<Point>::empty()) =~= Seq::empty());
            assert(occupied(Seq::<Point>::empty()) =~= Set::empty());
        }
        while i < points.len()
            invariant
                0 <= i <= points.len(),
                taken@ == occupied(points@.subrange(0, i as int)),
                cells(points@.subrange(0, i as int)).no_duplicates(),
                forall|k: int| 0 <= k < i ==> in_grid(#[trigger] points@[k].cell(), gsize as int),
            decreases points.len() - i,
        {
            let p = points[i];
            let ghost front = points@.subrange(0, i as int);
            proof {
                assert(front.push(p) =~= points@.subrange(0, i + 1));
                lemma_occupied_push(front, p);
            }
            if !(0 <= p.x && p.x < gsize && 0 <= p.y && p.y < gsize) {
                assert(!in_grid(points@[i as int].cell(), gsize as int));
                return None;
            }
            if !taken.insert(p.x, p.y) {
                proof {
                    let k = choose|k: int| 0 <= k < cells(front).len() && cells(front)[k] == p.cell();
                    assert(cells(points@)[k] == cells(points@)[i as int]);
                }
                return None;
            }
            proof {
                assert(!cells(front).contains(p.cell()));
            }
            i = i + 1;
        }
        assert(points@.subrange(0, points@.len() as int) =~= points@);
        let mut j: usize = 0;
        while j < links.len()
            invariant
                0 <= j <= links.len(),
                forall|k: int| 0 <= k < j ==> sound_link(#[trigger] links@[k], gsize as int),
            decreases links.len() - j,
        {
            let l = links[j];
            let aligned = l.p1.x == l.p2.x || l.p1.y == l.p2.y;
            let on_grid = 0 <= l.p1.x && l.p1.x < gsize && 0 <= l.p1.y && l.p1.y < gsize && 0
                <= l.p2.x && l.p2.x < gsize && 0 <= l.p2.y && l.p2.y < gsize;
            if !(aligned && on_grid) {
                assert(!sound_link(links@[j as int], gsize as int));
                return None;
            }
            j = j + 1;
        }
        Some(Terrain { points, links, gsize, budget: u64::MAX })
    }

    /// The side of the grid.
    pub fn gsize(&self) -> (gsize: i32)
        ensures
            gsize == self@.gsize,
    {
        self.gsize
    }

    /// The points, in the order they came.
    pub fn points(&self) -> (points: &Vec<Point>)
        ensures
            points@ == self@.points,
    {
        &self.points
    }

    /// The links, in the order they came.
    pub fn links(&self) -> (links: &Vec<Link>)
        ensures
            links@ == self@.links,
    {
        &self.links
    }

    /// How many random draws the terrain may still take.
    pub fn budget(&self) -> (budget: u64)
        ensures
            budget == self@.budget,
    {
        self.budget
    }

    /// Sets how many random draws the terrain may still take.
    pub fn set_budget(&mut self, budget: u64)
        ensures
            final(self)@ == (TerrainView { budget: budget as nat, ..old(self)@ }),
    {
        self.budget = budget;
    }

    /// The bound under which both coordinates of a walker's start are
    /// drawn: the side of the grid, so that a walker may start on any cell.
    pub fn spawn_bound(&self) -> (bound: i32)
        ensures
            bound == self@.gsize,
    {
        self.gsize
    }

    /// Starts the terrain over: seeds the centre cell and grows the cluster
    /// from it, walkers starting anywhere on the grid, until it has
    /// `INITIAL_POINTS` points. Fails, with what has grown so far, when the
    /// budget of random draws runs out first.
    pub fn init(&mut self) -> (outcome: Result<(), GrowthError>)
        requires
            old(self).wf(),
        ensures
            final(self).wf(),
            final(self)@.gsize == old(self)@.gsize,
            final(self)@.budget <= old(self)@.budget,
            grown(
                seq![seed_of(old(self)@.gsize)],
                Seq::empty(),
                final(self)@.points,
                final(self)@.links,
                old(self)@.gsize,
            ),
            settles_in_contact(final(self)@.points, 1),
            spanned(final(self)@.points, final(self)@.links),
            final(self)@.links.len() > 0 ==> final(self)@.links[0].p2 == seed_of(old(self)@.gsize),
            final(self)@.points.len() <= INITIAL_POINTS,
            final(self)@.points.len() - 1 <= old(self)@.budget - final(self)@.budget,
            exists|paths: Seq<Seq<Point>>| #[trigger]
                campaign(
                    standing(seq![seed_of(old(self)@.gsize)], Seq::empty()),
                    standing(final(self)@.points, final(self)@.links),
                    paths,
                    old(self)@.gsize,
                    true,
                    old(self)@.budget - final(self)@.budget,
                ),
            outcome is Ok <==> final(self)@.points.len() == INITIAL_POINTS,
            outcome is Err ==> final(self)@.budget == 0,
    {
        let mut random = rand::rng();
        let center_point = Point::new(self.gsize / 2, self.gsize / 2, CONTACT);
        let mut cluster = Cluster::seeded(center_point);
        proof {
            lemma_spanned_seed(center_point);
        }
        let ghost first = cluster@;
        let reached = self.grow(&mut random, &mut cluster, INITIAL_POINTS);
        let ghost after = cluster@;
        let (points, links) = cluster.into_parts();
        proof {
            assert(first == standing(seq![seed_of(self.gsize as int)], Seq::empty()));
            assert(after == standing(points@, links@));
        }
        proof {
            lemma_growth_connected(seq![seed_of(self.gsize as int)], points@, self.gsize as int);
            if links@.len() > 0 {
                let seed = seed_of(self.gsize as int);
                let alone = points@.subrange(0, 1);
                assert(alone =~= seq![seed]);
                assert(joined_at(points@, 1, self.gsize as int));
                assert forall|c: (int, int)| occupied(alone).contains(c) implies c == seed.cell() by {
                    let i = choose|i: int| 0 <= i < cells(alone).len() && cells(alone)[i] == c;
                }
                lemma_first_neighbor(occupied(alone), points@[1].cell());
            }
        }
        self.points = points;
        self.links = links;
        if reached {
            Ok(())
        } else {
            Err(GrowthError::OutOfSteps)
        }
    }

    /// Walks one particle from `new_point` until it stands on the cluster or
    /// next to it, each step in a random direction on the torus, and lets it
    /// settle there, with its link. Each step takes one draw from the budget;
    /// a walker that finds the budget empty before it rests is dropped.
    pub fn dla_pixel_move(
        &mut self,
        random: &mut rand::rngs::ThreadRng,
        cluster: &mut Cluster,
        new_point: Point,
    )
        requires
            0 < old(self)@.gsize,
            old(cluster).consistent(),
        ensures
            final(self)@ == (TerrainView { budget: final(self)@.budget, ..old(self)@ }),
            final(self)@.budget <= old(self)@.budget,
            final(cluster).consistent(),
            exists|path: Seq<Point>|
                {
                    &&& #[trigger] walked(
                        old(cluster)@.occupied,
                        new_point,
                        path,
                        old(self)@.gsize,
                    )
                    &&& admitted(
                        old(cluster)@,
                        final(cluster)@,
                        path,
                        old(self)@.budget - final(self)@.budget,
                        final(self)@.budget as int,
                        true,
                    )
                },
            final(cluster)@ == old(cluster)@ || grew_by_one(old(cluster)@, final(cluster)@),
            final(cluster)@ != old(cluster)@ && in_grid(new_point.cell(), old(self)@.gsize)
                ==> in_grid(final(cluster)@.points.last().cell(), old(self)@.gsize),
            rests(old(cluster)@.occupied, new_point) ==> final(self)@ == old(self)@
                && final(cluster)@ == with_walker(old(cluster)@, new_point, true),
            old(self)@.budget == 0 && !rests(old(cluster)@.occupied, new_point) ==> final(self)@
                == old(self)@ && final(cluster)@ == old(cluster)@,
    {
        let cap = self.gsize;
        cluster.admit_walker(random, new_point, cap, &mut self.budget, true);
        proof {
            let occ = old(cluster)@.occupied;
            let path = choose|path: Seq<Point>|
                {
                    &&& #[trigger] walked(occ, new_point, path, cap as int)
                    &&& admitted(
                        old(cluster)@,
                        cluster@,
                        path,
                        old(self).budget - self.budget,
                        self.budget as int,
                        true,
                    )
                };
            if rests(occ, new_point) {
                lemma_walk_from_rest(occ, new_point, path, cap as int);
            }
            if cluster@ != old(cluster)@ {
                assert(cluster@.points.last() == landed(path.last()));
                if in_grid(new_point.cell(), cap as int) {
                    lemma_walk_stays_in_grid(occ, new_point, path, cap as int, path.len() - 1);
                }
            }
        }
    }

    /// Sends walkers out, each from a random cell of the grid, until the
    /// cluster has `target` points or the budget is used up; each walker
    /// takes one draw for its start. Says whether the target was reached.
    fn grow(
        &mut self,
        random: &mut rand::rngs::ThreadRng,
        cluster: &mut Cluster,
        target: u64,
    ) -> (reached: bool)
        requires
            0 < old(self)@.gsize,
            old(cluster).consistent(),
            inside(old(cluster)@.points, old(cluster)@.links, old(self)@.gsize),
        ensures
            final(self)@ == (TerrainView { budget: final(self)@.budget, ..old(self)@ }),
            final(self)@.budget <= old(self)@.budget,
            final(cluster).consistent(),
            inside(final(cluster)@.points, final(cluster)@.links, old(self)@.gsize),
            grown(
                old(cluster)@.points,
                old(cluster)@.links,
                final(cluster)@.points,
                final(cluster)@.links,
                old(self)@.gsize,
            ),
            reached == (final(cluster)@.points.len() >= target),
            !reached ==> final(self)@.budget == 0,
            final(cluster)@.points.len() <= target || final(cluster)@ == old(cluster)@,
            final(cluster)@.points.len() - old(cluster)@.points.len() <= old(self)@.budget
                - final(self)@.budget,
            spanned(old(cluster)@.points, old(cluster)@.links) ==> spanned(
                final(cluster)@.points,
                final(cluster)@.links,
            ),
            exists|paths: Seq<Seq<Point>>| #[trigger]
                campaign(
                    old(cluster)@,
                    final(cluster)@,
                    paths,
                    old(self)@.gsize,
                    true,
                    old(self)@.budget - final(self)@.budget,
                ),
    {
        let ghost mut paths: Seq<Seq<Point>> = Seq::empty();
        proof {
            lemma_campaign_none(old(cluster)@, self.gsize as int, true);
            assert(old(cluster)@.points.subrange(0, old(cluster)@.points.len() as int)
                =~= old(cluster)@.points);
            assert(old(cluster)@.links.subrange(0, old(cluster)@.links.len() as int)
                =~= old(cluster)@.links);
        }
        while (cluster.len() as u64) < target
            invariant
                self.points@ == old(self).points@,
                self.links@ == old(self).links@,
                self.gsize == old(self).gsize,
                self.budget <= old(self).budget,
                0 < self.gsize,
                cluster.consistent(),
                inside(cluster@.points, cluster@.links, self.gsize as int),
                grown(
                    old(cluster)@.points,
                    old(cluster)@.links,
                    cluster@.points,
                    cluster@.links,
                    self.gsize as int,
                ),
                cluster@.points.len() <= target || cluster@ == old(cluster)@,
                cluster@.points.len() - old(cluster)@.points.len() <= old(self).budget - self.budget,
                spanned(old(cluster)@.points, old(cluster)@.links) ==> spanned(
                    cluster@.points,
                    cluster@.links,
                ),
                campaign(
                    old(cluster)@,
                    cluster@,
                    paths,
                    self.gsize as int,
                    true,
                    old(self).budget - self.budget,
                ),
            decreases self.budget,
        {
            if self.budget == 0 {
                return false;
            }
            self.budget = self.budget - 1;
            let span = self.spawn_bound();
            let x = random_below(random, span);
            let y = random_below(random, span);
            let new_point = Point::new(x, y, CONTACT);
            let ghost before = cluster@;
            let ghost left = self.budget;
            self.dla_pixel_move(random, cluster, new_point);
            proof {
                let path = choose|path: Seq<Point>|
                    {
                        &&& #[trigger] walked(before.occupied, new_point, path, self.gsize as int)
                        &&& admitted(
                            before,
                            cluster@,
                            path,
                            left - self.budget,
                            self.budget as int,
                            true,
                        )
                    };
                lemma_campaign_more(
                    old(cluster)@,
                    before,
                    cluster@,
                    paths,
                    path,
                    self.gsize as int,
                    true,
                    old(self).budget - left - 1,
                    self.budget as int,
                );
                paths = paths.push(path);
                if cluster@ != before {
                    if spanned(before.points, before.links) {
                        lemma_spanned_grows(before.points, before.links, cluster@.points.last());
                    }
                    lemma_grown_step(
                        old(cluster)@.points,
                        old(cluster)@.links,
                        before,
                        cluster@,
                        self.gsize as int,
                    );
                }
            }
        }
        true
    }

    /// Doubles the resolution: every link gets both ends at twice their
    /// coordinates and is traced again; the points are those of the traces,
    /// each cell once, and the grid is twice as wide.
    pub fn upscale(&mut self)
        requires
            old(self).wf(),
            2 * old(self)@.gsize <= i32::MAX,
        ensures
            final(self).wf(),
            final(self)@.gsize == 2 * old(self)@.gsize,
            final(self)@.budget == old(self)@.budget,
            final(self)@.links.len() == old(self)@.links.len(),
            forall|i: int|
                0 <= i < old(self)@.links.len() ==> #[trigger] final(self)@.links[i] == rescaled(
                    old(self)@.links[i],
                ),
            final(self)@.points == retraced(final(self)@.links),
            forall|i: int|
                0 <= i < final(self)@.points.len() ==> (#[trigger] final(self)@.points[i]).value
                    == TRACED,
            forall|c: (int, int)| #[trigger]
                occupied(final(self)@.points).contains(c) <==> covered(final(self)@.links, c),
            final(self)@.links == rescaled_all(old(self)@.links),
            forall|i: int|
                0 <= i < final(self)@.links.len() ==> #[trigger] holds_ends(
                    final(self)@.points,
                    final(self)@.links[i],
                ),
            spanned(old(self)@.points, old(self)@.links) && old(self)@.links.len() > 0 ==> spanned(
                final(self)@.points,
                final(self)@.links,
            ) && final(self)@.points.len() == 2 * old(self)@.points.len() - 1,
    {
        let mut point_collection: Vec<Point> = Vec::new();
        let mut link_collection: Vec<Link> = Vec::new();
        let mut position_set = PositionSet::new();
        let ghost side = 2 * self.gsize;
        proof {
            assert(cells(point_collection@) =~= Seq::empty());
            assert(occupied(point_collection@) =~= Set::empty());
        }
        let mut i: usize = 0;
        while i < self.links.len()
            invariant
                0 <= i <= self.links.len(),
                *self == *old(self),
                self.wf(),
                side == 2 * self.gsize,
                side <= i32::MAX,
                link_collection@.len() == i,
                forall|j: int|
                    0 <= j < i ==> #[trigger] link_collection@[j] == rescaled(self.links@[j]),
                point_collection@ == retraced(link_collection@),
                position_set@ == occupied(point_collection@),
                cells(point_collection@).no_duplicates(),
                inside(point_collection@, link_collection@, side),
                forall|j: int|
                    0 <= j < point_collection@.len() ==> (#[trigger] point_collection@[j]).value
                        == TRACED,
            decreases self.links.len() - i,
        {
            let link = self.links[i];
            assert(sound_link(self.links@[i as int], self.gsize as int));
            let new_link = Link::new(
                Point::new(link.p1().x() * 2, link.p1().y() * 2, TRACED),
                Point::new(link.p2().x() * 2, link.p2().y() * 2, TRACED),
            );
            assert(new_link == rescaled(link));
            let new_points = new_link.trace();
            let ghost base = point_collection@;
            let ghost links_before = link_collection@;
            link_collection.push(new_link);
            proof {
                new_link.lemma_traced_in_grid(side);
                new_link.lemma_traced_values();
                assert(link_collection@.drop_last() =~= links_before);
                assert(new_points@.subrange(0, 0) =~= Seq::empty());
            }
            let mut j: usize = 0;
            while j < new_points.len()
                invariant
                    0 <= j <= new_points.len(),
                    new_points@ == new_link.traced(),
                    point_collection@ == merged(base, new_points@.subrange(0, j as int)),
                    position_set@ == occupied(point_collection@),
                    cells(point_collection@).no_duplicates(),
                    forall|k: int|
                        0 <= k < point_collection@.len() ==> in_grid(
                            #[trigger] point_collection@[k].cell(),
                            side,
                        ),
                    forall|k: int|
                        0 <= k < point_collection@.len() ==> (#[trigger] point_collection@[k]).value
                            == TRACED,
                    forall|k: int|
                        0 <= k < new_points@.len() ==> in_grid(#[trigger] new_points@[k].cell(), side),
                    forall|k: int|
                        0 <= k < new_points@.len() ==> (#[trigger] new_points@[k]).value == TRACED,
                decreases new_points.len() - j,
            {
                let p = new_points[j];
                let ghost so_far = point_collection@;
                proof {
                    assert(new_points@.subrange(0, j + 1).drop_last() =~= new_points@.subrange(
                        0,
                        j as int,
                    ));
                    assert(new_points@.subrange(0, j + 1).last() == p);
                }
                if !p.is_in_position_set(&position_set) {
                    position_set.insert(p.x(), p.y());
                    point_collection.push(p);
                    proof {
                        lemma_occupied_push(so_far, p);
                        assert(!cells(so_far).contains(p.cell()));
                    }
                }
                j = j + 1;
            }
            proof {
                assert(new_points@.subrange(0, new_points@.len() as int) =~= new_points@);
                assert forall|k: int| 0 <= k < link_collection@.len() implies sound_link(
                    #[trigger] link_collection@[k],
                    side,
                ) by {
                    if k < links_before.len() {
                        assert(link_collection@[k] == links_before[k]);
                    }
                }
            }
            i = i + 1;
        }
        proof {
            lemma_retraced_covers(link_collection@);
            lemma_ends_retraced(link_collection@);
            assert(link_collection@ =~= rescaled_all(self.links@));
            if spanned(self.points@, self.links@) && self.links@.len() > 0 {
                lemma_spanned_rescaled(self.points@, self.links@, self.gsize as int);
            }
        }
        self.links = link_collection;
        self.points = point_collection;
        self.gsize = self.gsize * 2;
    }

    /// Grows detail on the upscaled cluster: walkers start anywhere on the
    /// grid until there are twice as many points as before, and two more.
    /// Says whether that many were reached before the budget ran out.
    pub fn add_crisp_layer(&mut self) -> (reached: bool)
        requires
            old(self).wf(),
        ensures
            final(self).wf(),
            final(self)@.gsize == old(self)@.gsize,
            final(self)@.budget <= old(self)@.budget,
            grown(
                old(self)@.points,
                old(self)@.links,
                final(self)@.points,
                final(self)@.links,
                old(self)@.gsize,
            ),
            settles_in_contact(final(self)@.points, old(self)@.points.len() as int),
            spanned(old(self)@.points, old(self)@.links) ==> spanned(
                final(self)@.points,
                final(self)@.links,
            ),
            forall|c: (int, int)|
                occupied(old(self)@.points).contains(c) ==> #[trigger] occupied(
                    final(self)@.points,
                ).contains(c),
            reached == (final(self)@.points.len() >= (old(self)@.points.len() + 1) * 2),
            final(self)@.points.len() <= (old(self)@.points.len() + 1) * 2,
            final(self)@.points.len() - old(self)@.points.len() <= old(self)@.budget
                - final(self)@.budget,
            exists|paths: Seq<Seq<Point>>| #[trigger]
                campaign(
                    standing(old(self)@.points, old(self)@.links),
                    standing(final(self)@.points, final(self)@.links),
                    paths,
                    old(self)@.gsize,
                    true,
                    old(self)@.budget - final(self)@.budget,
                ),
            !reached ==> final(self)@.budget == 0,
    {
        let mut random = rand::rng();
        let mut point_collection: Vec<Point> = Vec::new();
        let mut link_collection: Vec<Link> = Vec::new();
        core::mem::swap(&mut self.points, &mut point_collection);
        core::mem::swap(&mut self.links, &mut link_collection);
        proof {
            lemma_capacity(point_collection@, self.gsize as int);
        }
        let target: u64 = (point_collection.len() as u64 + 1) * 2;
        let mut cluster = Cluster::adopt(point_collection, link_collection);
        let ghost first = cluster@;
        let ghost had = self.budget;
        let reached = self.grow(&mut random, &mut cluster, target);
        let ghost after = cluster@;
        let (points, links) = cluster.into_parts();
        proof {
            assert(first == standing(old(self)@.points, old(self)@.links));
            assert(after == standing(points@, links@));
            assert(had == old(self).budget);
        }
        let ghost walkers = choose|paths: Seq<Seq<Point>>| #[trigger]
            campaign(
                standing(old(self)@.points, old(self)@.links),
                standing(points@, links@),
                paths,
                old(self)@.gsize,
                true,
                old(self)@.budget - self.budget,
            );
        proof {
            lemma_growth_connected(old(self)@.points, points@, self.gsize as int);
            assert forall|c: (int, int)| occupied(old(self)@.points).contains(c) implies #[trigger] occupied(
                points@,
            ).contains(c) by {
                let first = old(self)@.points;
                let i = choose|i: int| 0 <= i < cells(first).len() && cells(first)[i] == c;
                assert(points@.subrange(0, first.len() as int)[i] == points@[i]);
                assert(cells(points@)[i] == c);
            }
        }
        self.points = points;
        self.links = links;
        assert(campaign(
            standing(old(self)@.points, old(self)@.links),
            standing(self@.points, self@.links),
            walkers,
            old(self)@.gsize,
            true,
            old(self)@.budget - self@.budget,
        ));
        reached
    }

    /// Runs `n` cycles, each an upscale and then a crisp layer; none where
    /// `n` is not positive. The side doubles with every cycle, whatever the
    /// budget. A crisp layer that the budget does not carry to its end leaves
    /// the later ones nothing to draw: the call then fails, and succeeds
    /// where every crisp layer reached its number of points. A cluster that
    /// its links span has four times the points after each cycle.
    pub fn upscale_n(&mut self, n: i32) -> (outcome: Result<(), GrowthError>)
        requires
            old(self).wf(),
            n > 0 ==> doublings(old(self)@.gsize, n as nat) <= i32::MAX,
        ensures
            final(self).wf(),
            final(self)@.budget <= old(self)@.budget,
            n <= 0 ==> outcome is Ok && final(self)@ == old(self)@,
            n > 0 ==> cycles(old(self)@, final(self)@, n as nat),
            n > 0 ==> final(self)@.gsize == doublings(old(self)@.gsize, n as nat),
            n > 0 ==> exists|traced: Seq<Link>|
                {
                    &&& #[trigger] cycled(old(self)@, final(self)@, n as nat, traced)
                    &&& outcome is Ok ==> final(self)@.points.len() == 2 * (retraced(traced).len()
                        + 1)
                    &&& outcome is Err ==> final(self)@.budget == 0 && final(self)@.points.len()
                        < 2 * (retraced(traced).len() + 1)
                },
            n > 0 && spanned(old(self)@.points, old(self)@.links) && old(self)@.links.len() > 0 ==> {
                &&& spanned(final(self)@.points, final(self)@.links)
                &&& outcome is Ok ==> final(self)@.points.len() == points_after(
                    old(self)@.points.len() as int,
                    n as nat,
                ) && final(self)@.links.len() == links_after(
                    old(self)@.points.len() as int,
                    old(self)@.links.len() as int,
                    n as nat,
                )
            },
    {
        let ghost rooted = spanned(self@.points, self@.links) && self@.links.len() > 0;
        let mut reached = true;
        let mut i: i32 = 0;
        while i < n
            invariant
                0 <= i,
                n > 0 ==> i <= n,
                n <= 0 ==> i == 0,
                old(self).wf(),
                self.wf(),
                self.budget <= old(self).budget,
                n > 0 ==> doublings(old(self)@.gsize, n as nat) <= i32::MAX,
                self@.gsize == doublings(old(self)@.gsize, i as nat),
                i == 0 ==> self@ == old(self)@ && reached,
                cycles(old(self)@, self@, i as nat),
                !reached ==> self.budget == 0,
                i > 0 ==> exists|traced: Seq<Link>|
                    {
                        &&& #[trigger] cycled(old(self)@, self@, i as nat, traced)
                        &&& reached ==> self@.points.len() == 2 * (retraced(traced).len() + 1)
                        &&& !reached ==> self@.points.len() < 2 * (retraced(traced).len() + 1)
                    },
                rooted == (spanned(old(self)@.points, old(self)@.links) && old(self)@.links.len()
                    > 0),
                rooted ==> {
                    &&& spanned(self@.points, self@.links)
                    &&& self@.links.len() > 0
                    &&& reached ==> self@.points.len() == points_after(
                        old(self)@.points.len() as int,
                        i as nat,
                    ) && self@.links.len() == links_after(
                        old(self)@.points.len() as int,
                        old(self)@.links.len() as int,
                        i as nat,
                    )
                },
            decreases n - i,
        {
            proof {
                lemma_doublings_grow(old(self)@.gsize, (i + 1) as nat, n as nat);
            }
            let ghost before = self@;
            self.upscale();
            let ghost upscaled = self@;
            reached = self.add_crisp_layer();
            proof {
                lemma_one_more_cycle(old(self)@, before, upscaled, self@, i as nat);
                lemma_cycles_more(old(self)@, before, upscaled, self@, i as nat);
            }
            i = i + 1;
        }
        if reached {
            Ok(())
        } else {
            Err(GrowthError::OutOfSteps)
        }
    }

    /// Gives every point the height of its graph distance from `center`,
    /// over unit steps between occupied cells, and drops the points that no
    /// path connects to it. From a free centre nothing is connected; from an
    /// occupied cell of a cluster that its links span, everything is.
    pub fn evaluate_height(&mut self, center: (i32, i32))
        requires
            old(self).wf(),
        ensures
            final(self).wf(),
            final(self)@.points == surviving(
                old(self)@.points,
                occupied(old(self)@.points),
                (center.0 as int, center.1 as int),
            ),
            spanned(old(self)@.points, old(self)@.links) && occupied(old(self)@.points).contains(
                (center.0 as int, center.1 as int),
            ) ==> final(self)@.points.len() == old(self)@.points.len() && spanned(
                final(self)@.points,
                final(self)@.links,
            ),
            final(self)@.links == old(self)@.links,
            final(self)@.gsize == old(self)@.gsize,
            final(self)@.budget == old(self)@.budget,
    {
        proof {
            lemma_capacity(self.points@, self.gsize as int);
            if spanned(self.points@, self.links@) && occupied(self.points@).contains(
                (center.0 as int, center.1 as int),
            ) {
                lemma_spanned_survives(
                    self.points@,
                    self.links@,
                    (center.0 as int, center.1 as int),
                );
            }
        }
        let point_map = graph_distances(&self.points, center);
        let ghost occ = occupied(self.points@);
        let ghost origin = (center.0 as int, center.1 as int);
        let mut new_points: Vec<Point> = Vec::new();
        let mut i: usize = 0;
        proof {
            assert(self.points@.subrange(0, 0) =~= Seq::empty());
            assert(cells(new_points@) =~= Seq::empty());
        }
        while i < self.points.len()
            invariant
                0 <= i <= self.points.len(),
                *self == *old(self),
                self.wf(),
                occ == occupied(self.points@),
                origin == (center.0 as int, center.1 as int),
                forall|c: (int, int)| #[trigger]
                    occ.contains(c) ==> {
                        let k = cell_key(c.0, c.1) as u64;
                        &&& point_map@.contains_key(k)
                        &&& point_map@[k] == if connected(occ, origin, c) {
                            distance(occ, origin, c) as int
                        } else {
                            UNVISITED as int
                        }
                    },
                new_points@ == surviving(self.points@.subrange(0, i as int), occ, origin),
                cells(new_points@).no_duplicates(),
                forall|k: int|
                    0 <= k < new_points@.len() ==> exists|m: int|
                        0 <= m < i && #[trigger] new_points@[k].cell() == self.points@[m].cell(),
            decreases self.points.len() - i,
        {
            let p = self.points[i];
            let ghost so_far = new_points@;
            proof {
                assert(cells(self.points@)[i as int] == p.cell());
                assert(self.points@.subrange(0, i + 1).drop_last() =~= self.points@.subrange(
                    0,
                    i as int,
                ));
                assert(self.points@.subrange(0, i + 1).last() == p);
                assert(cells(self.points@).contains(p.cell()));
                assert(occ.contains(p.cell()));
            }
            let dist: i64 = match point_map.get(&key_of(p.x(), p.y())) {
                Some(found) => *found,
                None => UNVISITED,
            };
            if dist >= 0 {
                let height = height_for(dist);
                let survivor = Point::new(p.x(), p.y(), height);
                new_points.push(survivor);
                proof {
                    lemma_occupied_push(so_far, survivor);
                    assert(!cells(so_far).contains(survivor.cell())) by {
                        if cells(so_far).contains(survivor.cell()) {
                            let k = choose|k: int|
                                0 <= k < cells(so_far).len() && cells(so_far)[k] == survivor.cell();
                            let m = choose|m: int|
                                0 <= m < i && so_far[k].cell() == self.points@[m].cell();
                            assert(cells(self.points@)[m] == cells(self.points@)[i as int]);
                        }
                    }
                    assert forall|k: int| 0 <= k < new_points@.len() implies exists|m: int|
                        0 <= m < i + 1 && #[trigger] new_points@[k].cell() == self.points@[m].cell() by {
                        if k < so_far.len() {
                            let m = choose|m: int|
                                0 <= m < i && so_far[k].cell() == self.points@[m].cell();
                            assert(new_points@[k].cell() == self.points@[m].cell());
                        } else {
                            assert(new_points@[k].cell() == self.points@[i as int].cell());
                        }
                    }
                }
            } else {
                proof {
                    assert forall|k: int| 0 <= k < new_points@.len() implies exists|m: int|
                        0 <= m < i + 1 && #[trigger] new_points@[k].cell() == self.points@[m].cell() by {
                        let m = choose|m: int|
                            0 <= m < i && so_far[k].cell() == self.points@[m].cell();
                        assert(new_points@[k].cell() == self.points@[m].cell());
                    }
                }
            }
            i = i + 1;
        }
        proof {
            assert(self.points@.subrange(0, self.points@.len() as int) =~= self.points@);
            assert forall|k: int| 0 <= k < new_points@.len() implies in_grid(
                #[trigger] new_points@[k].cell(),
                self.gsize as int,
            ) by {
                let m = choose|m: int|
                    0 <= m < self.points@.len() && new_points@[k].cell() == self.points@[m].cell();
                assert(in_grid(self.points@[m].cell(), self.gsize as int));
            }
        }
        self.points = new_points;
    }

    /// Fills the grid: every cell on which no point stands gets one with the
    /// filler value, row after row behind the points that were there. After
    /// that each cell of the grid has exactly one point.
    pub fn complete_pattern(&mut self)
        requires
            old(self).wf(),
        ensures
            final(self).wf(),
            final(self)@.points == old(self)@.points + grid_fill(
                occupied(old(self)@.points),
                old(self)@.gsize,
                old(self)@.gsize,
            ),
            final(self)@.points.len() == old(self)@.gsize * old(self)@.gsize,
            occupied(final(self)@.points) == grid(old(self)@.gsize),
            final(self)@.links == old(self)@.links,
            final(self)@.gsize == old(self)@.gsize,
            final(self)@.budget == old(self)@.budget,
    {
        let mut points: Vec<Point> = Vec::new();
        core::mem::swap(&mut self.points, &mut points);
        let points = fill_grid(points, self.gsize);
        self.points = points;
    }

    /// Projects the points to tiles, one for one and in their order: the
    /// active texture for a point higher than one unit, the base texture for
    /// the others.
    pub fn values_as_tile_vector(self) -> (tiles: Vec<Tile>)
        ensures
            tiles@.len() == self@.points.len(),
            forall|i: int| 0 <= i < tiles@.len() ==> #[trigger] tiles@[i] == tile_of(self@.points[i]),
    {
        let mut tiles: Vec<Tile> = Vec::new();
        let mut i: usize = 0;
        while i < self.points.len()
            invariant
                0 <= i <= self.points.len(),
                tiles@.len() == i,
                forall|k: int| 0 <= k < i ==> #[trigger] tiles@[k] == tile_of(self.points@[k]),
            decreases self.points.len() - i,
        {
            let p = self.points[i];
            let uv = if p.value() > ACTIVE_ABOVE {
                glow_yellow()
            } else {
                mirror_black()
            };
            tiles.push(Tile::new(p.x(), p.y(), uv.u, uv.v, p.value()));
            i = i + 1;
        }
        tiles
    }
}

} // verus!
