//! The growing cluster: points in the order they settled, the links made on
//! the way, and the set of occupied cells, kept in step.

use crate::grid::{
    adjacent, grid, in_grid, lemma_distinct_cells_bound, lemma_grid_size, lemma_touches_iff_adjacent,
    touches,
};
use crate::point::{
    cells, direction_bound, first_neighbor, lemma_first_neighbor, lemma_step_stays_in_grid, occupied,
    stepped, unit_step, Link, LinkError, Point, CONTACT, DIRECTIONS,
};
use crate::position::PositionSet;
use crate::random::random_below;
use vstd::prelude::*;

verus! {

/// A cluster in growth.
pub struct Cluster {
    points: Vec<Point>,
    links: Vec<Link>,
    cells: PositionSet,
}

/// What a cluster holds, as mathematics.
pub struct ClusterView {
    pub points: Seq<Point>,
    pub links: Seq<Link>,
    pub occupied: Set<(int, int)>,
}

impl View for Cluster {
    type V = ClusterView;

    closed spec fn view(&self) -> ClusterView {
        ClusterView { points: self.points@, links: self.links@, occupied: self.cells@ }
    }
}

/// The point that a walker becomes where it settles.
pub open spec fn landed(walker: Point) -> Point {
    Point { x: walker.x, y: walker.y, value: CONTACT }
}

/// The link from a settling point to its first occupied neighbour, probing
/// +x, -x, +y, -y in this order.
pub open spec fn link_from(occ: Set<(int, int)>, p: Point) -> Link {
    let n = first_neighbor(occ, p.cell()).unwrap();
    Link { p1: p, p2: Point { x: n.0 as i32, y: n.1 as i32, value: CONTACT } }
}

/// What becomes of a walker that is to settle where it stands: discarded on
/// an occupied cell, joined next to one, refused anywhere else.
pub open spec fn verdict(occ: Set<(int, int)>, walker: Point) -> Result<bool, LinkError> {
    if occ.contains(walker.cell()) {
        Ok(false)
    } else if touches(occ, walker.cell()) {
        Ok(true)
    } else {
        Err(LinkError::NoNeighbor)
    }
}

/// The cluster after a walker was to settle: with the walker as its last
/// point, and in linked mode with the walker's link, where it joined; as
/// before where it did not.
pub open spec fn with_walker(before: ClusterView, walker: Point, linked: bool) -> ClusterView {
    if verdict(before.occupied, walker) == Ok::<bool, LinkError>(true) {
        ClusterView {
            points: before.points.push(landed(walker)),
            links: if linked {
                before.links.push(link_from(before.occupied, landed(walker)))
            } else {
                before.links
            },
            occupied: before.occupied.insert(walker.cell()),
        }
    } else {
        before
    }
}

/// Whether a walker at `p` moves no further: it stands on an occupied cell
/// or next to one.
pub open spec fn rests(occ: Set<(int, int)>, p: Point) -> bool {
    touches(occ, p.cell()) || occ.contains(p.cell())
}

/// Whether the walker moves on from place `i` of its path: it does not rest
/// there, and the next place is one unit step away.
pub open spec fn walks_on(occ: Set<(int, int)>, path: Seq<Point>, i: int, cap: int) -> bool {
    !rests(occ, path[i]) && unit_step(path[i], path[i + 1], cap)
}

/// Whether `path` is a walk from `from` on the torus of side `cap`: it
/// starts there, and from every place but the last the walker moves on.
pub open spec fn walked(occ: Set<(int, int)>, from: Point, path: Seq<Point>, cap: int) -> bool {
    &&& path.len() >= 1
    &&& path[0] == from
    &&& forall|i: int| 0 <= i < path.len() - 1 ==> #[trigger] walks_on(occ, path, i, cap)
}

/// Whether `after` is what a walker makes of the cluster `before` on the
/// path it took, with `spent` draws: one draw for each step; settled as
/// `with_walker` says where its last place is one to rest at; and where it
/// is not, the budget `left` is empty and the cluster as before.
pub open spec fn admitted(
    before: ClusterView,
    after: ClusterView,
    path: Seq<Point>,
    spent: int,
    left: int,
    linked: bool,
) -> bool {
    &&& path.len() - 1 == spent
    &&& if rests(before.occupied, path.last()) {
        after == with_walker(before, path.last(), linked)
    } else {
        left == 0 && after == before
    }
}

/// The cluster after the walkers whose paths are `paths` came one after the
/// other: each settled as `with_walker` says where its last place was one to
/// rest at, and was dropped where it was not.
pub open spec fn after_walkers(first: ClusterView, paths: Seq<Seq<Point>>, linked: bool) -> ClusterView
    decreases paths.len(),
{
    if paths.len() == 0 {
        first
    } else {
        let before = after_walkers(first, paths.drop_last(), linked);
        let end = paths.last().last();
        if rests(before.occupied, end) {
            with_walker(before, end, linked)
        } else {
            before
        }
    }
}

/// The draws that the walkers took: one for each start and one for each
/// step.
pub open spec fn draws(paths: Seq<Seq<Point>>) -> int
    decreases paths.len(),
{
    if paths.len() == 0 {
        0
    } else {
        draws(paths.drop_last()) + paths.last().len()
    }
}

/// Whether walker `j` started on the grid of side `cap` and walked on the
/// cluster as the walkers before it had left it.
pub open spec fn sortie(
    first: ClusterView,
    paths: Seq<Seq<Point>>,
    j: int,
    cap: int,
    linked: bool,
) -> bool {
    let before = after_walkers(first, paths.subrange(0, j), linked);
    &&& paths[j].len() >= 1
    &&& in_grid(paths[j][0].cell(), cap)
    &&& walked(before.occupied, paths[j][0], paths[j], cap)
}

/// Whether `after` is what the walkers of `paths` made of the cluster
/// `first` with `spent` draws: every walker started on the grid and walked
/// as `sortie` says, the draws are theirs, and the cluster is as they left
/// it.
pub open spec fn campaign(
    first: ClusterView,
    after: ClusterView,
    paths: Seq<Seq<Point>>,
    cap: int,
    linked: bool,
    spent: int,
) -> bool {
    &&& forall|j: int| 0 <= j < paths.len() ==> #[trigger] sortie(first, paths, j, cap, linked)
    &&& after == after_walkers(first, paths, linked)
    &&& spent == draws(paths)
}

/// The cluster of the given points and links, with the cells of the points
/// occupied.
pub open spec fn standing(points: Seq<Point>, links: Seq<Link>) -> ClusterView {
    ClusterView { points, links, occupied: occupied(points) }
}

/// No walker yet: the cluster as it is, and no draw.
pub proof fn lemma_campaign_none(first: ClusterView, cap: int, linked: bool)
    ensures
        campaign(first, first, Seq::empty(), cap, linked, 0),
{
}

/// One more walker: a campaign, and then a walker that started on the grid,
/// walked on the cluster as the campaign left it and was admitted, is a
/// campaign.
pub proof fn lemma_campaign_more(
    first: ClusterView,
    before: ClusterView,
    after: ClusterView,
    paths: Seq<Seq<Point>>,
    path: Seq<Point>,
    cap: int,
    linked: bool,
    spent: int,
    left: int,
)
    requires
        campaign(first, before, paths, cap, linked, spent),
        in_grid(path[0].cell(), cap),
        walked(before.occupied, path[0], path, cap),
        admitted(before, after, path, path.len() - 1, left, linked),
    ensures
        campaign(first, after, paths.push(path), cap, linked, spent + path.len()),
{
    let more = paths.push(path);
    assert(more.drop_last() =~= paths);
    assert forall|j: int| 0 <= j < more.len() implies #[trigger] sortie(
        first,
        more,
        j,
        cap,
        linked,
    ) by {
        if j < paths.len() {
            assert(sortie(first, paths, j, cap, linked));
            assert(more.subrange(0, j) =~= paths.subrange(0, j));
            assert(more[j] == paths[j]);
        } else {
            assert(more.subrange(0, j) =~= paths);
        }
    }
}

/// A walk that starts on the grid stays on it.
pub proof fn lemma_walk_stays_in_grid(
    occ: Set<(int, int)>,
    from: Point,
    path: Seq<Point>,
    cap: int,
    i: int,
)
    requires
        walked(occ, from, path, cap),
        in_grid(from.cell(), cap),
        cap <= i32::MAX,
        0 <= i < path.len(),
    ensures
        in_grid(path[i].cell(), cap),
    decreases i,
{
    if i > 0 {
        lemma_walk_stays_in_grid(occ, from, path, cap, i - 1);
        assert(walks_on(occ, path, i - 1, cap));
        let d = choose|d: int|
            0 <= d < DIRECTIONS && path[i] == #[trigger] stepped(path[i - 1], d, cap);
        lemma_step_stays_in_grid(path[i - 1], d, cap);
    }
}

/// A walk from a place to rest at goes nowhere.
pub proof fn lemma_walk_from_rest(occ: Set<(int, int)>, from: Point, path: Seq<Point>, cap: int)
    requires
        walked(occ, from, path, cap),
        rests(occ, from),
    ensures
        path == seq![from],
{
    if path.len() > 1 {
        assert(walks_on(occ, path, 0, cap));
    }
    assert(path =~= seq![from]);
}

/// Whether the point at index `i` stands next to a point before it.
pub open spec fn has_earlier_neighbor(points: Seq<Point>, i: int) -> bool {
    exists|j: int| 0 <= j < i && adjacent(points[i].cell(), #[trigger] points[j].cell())
}

/// Whether every point from index `from` on stands next to a point before it.
pub open spec fn settles_in_contact(points: Seq<Point>, from: int) -> bool {
    forall|i: int| from <= i < points.len() ==> #[trigger] has_earlier_neighbor(points, i)
}

/// Whether a link joins two cells of the grid that share a coordinate.
pub open spec fn sound_link(link: Link, side: int) -> bool {
    &&& link.is_aligned()
    &&& in_grid(link.p1.cell(), side)
    &&& in_grid(link.p2.cell(), side)
}

/// Whether all points and links lie on the grid of the given side.
pub open spec fn inside(points: Seq<Point>, links: Seq<Link>, side: int) -> bool {
    &&& forall|i: int| 0 <= i < points.len() ==> in_grid(#[trigger] points[i].cell(), side)
    &&& forall|i: int| 0 <= i < links.len() ==> sound_link(#[trigger] links[i], side)
}

/// Whether the point at index `i` settled as a walker does: with the contact
/// value, on a free cell of the grid next to a cell taken before it.
pub open spec fn joined_at(points: Seq<Point>, i: int, side: int) -> bool {
    let before = occupied(points.subrange(0, i));
    &&& points[i].value == CONTACT
    &&& in_grid(points[i].cell(), side)
    &&& !before.contains(points[i].cell())
    &&& touches(before, points[i].cell())
}

/// Whether `points` came from `first_points` by growth alone: what was there
/// stays in front, and every later point settled as a walker does.
pub open spec fn grown_points(first_points: Seq<Point>, points: Seq<Point>, side: int) -> bool {
    let n0 = first_points.len() as int;
    &&& n0 <= points.len()
    &&& points.subrange(0, n0) == first_points
    &&& forall|i: int| n0 <= i < points.len() ==> #[trigger] joined_at(points, i, side)
}

/// Whether `points` and `links` came from `first_points` and `first_links`
/// by growth alone: what was there stays in front, every later point settled
/// as a walker does, and brought the link to its first occupied neighbour.
pub open spec fn grown(
    first_points: Seq<Point>,
    first_links: Seq<Link>,
    points: Seq<Point>,
    links: Seq<Link>,
    side: int,
) -> bool {
    let n0 = first_points.len() as int;
    let l0 = first_links.len() as int;
    &&& n0 <= points.len()
    &&& points.subrange(0, n0) == first_points
    &&& links.len() == l0 + points.len() - n0
    &&& links.subrange(0, l0) == first_links
    &&& forall|i: int|
        n0 <= i < points.len() ==> #[trigger] joined_at(points, i, side) && links[l0 + i - n0]
            == link_from(occupied(points.subrange(0, i)), points[i])
}

/// Whether cluster `b` is cluster `a` with one walker settled: one more
/// point, with the contact value, on a cell that was free and touches a cell
/// that was occupied; its link; and its cell among the occupied ones.
pub open spec fn grew_by_one(a: ClusterView, b: ClusterView) -> bool {
    let p = b.points.last();
    &&& b.points == a.points.push(p)
    &&& p.value == CONTACT
    &&& !a.occupied.contains(p.cell())
    &&& touches(a.occupied, p.cell())
    &&& b.links == a.links.push(link_from(a.occupied, p))
    &&& b.occupied == a.occupied.insert(p.cell())
}

/// Adding a point adds its cell.
pub proof fn lemma_occupied_push(points: Seq<Point>, p: Point)
    ensures
        cells(points.push(p)) == cells(points).push(p.cell()),
        occupied(points.push(p)) == occupied(points).insert(p.cell()),
{
    assert(cells(points.push(p)) =~= cells(points).push(p.cell()));
    let longer = cells(points).push(p.cell());
    assert forall|c: (int, int)| longer.to_set().contains(c) <==> cells(points).to_set().insert(
        p.cell(),
    ).contains(c) by {
        if longer.contains(c) {
            let i = choose|i: int| 0 <= i < longer.len() && longer[i] == c;
            if i < points.len() {
                assert(cells(points)[i] == c);
            }
        }
        if cells(points).contains(c) {
            let i = choose|i: int| 0 <= i < cells(points).len() && cells(points)[i] == c;
            assert(longer[i] == c);
        }
        if c == p.cell() {
            assert(longer[points.len() as int] == c);
        }
    }
    assert(longer.to_set() =~= cells(points).to_set().insert(p.cell()));
}

/// A cell that touches the occupied cells is adjacent to one of the points.
pub proof fn lemma_touching_has_neighbor(points: Seq<Point>, p: Point)
    requires
        touches(occupied(points), p.cell()),
    ensures
        has_earlier_neighbor(points.push(p), points.len() as int),
{
    lemma_touches_iff_adjacent(occupied(points), p.cell());
    let d = choose|d: (int, int)| occupied(points).contains(d) && adjacent(p.cell(), d);
    let j = choose|j: int| 0 <= j < cells(points).len() && cells(points)[j] == d;
    assert(points.push(p)[j].cell() == d);
}

/// One more walker that settles keeps growth what it is.
pub proof fn lemma_grown_points_step(
    first_points: Seq<Point>,
    points: Seq<Point>,
    walker: Point,
    side: int,
)
    requires
        grown_points(first_points, points, side),
        in_grid(walker.cell(), side),
        !occupied(points).contains(walker.cell()),
        touches(occupied(points), walker.cell()),
    ensures
        grown_points(first_points, points.push(landed(walker)), side),
{
    let n0 = first_points.len() as int;
    let longer = points.push(landed(walker));
    assert(longer.subrange(0, n0) =~= points.subrange(0, n0));
    assert forall|i: int| n0 <= i < longer.len() implies #[trigger] joined_at(longer, i, side) by {
        if i < points.len() {
            assert(longer.subrange(0, i) =~= points.subrange(0, i));
            assert(joined_at(points, i, side));
        } else {
            assert(longer.subrange(0, i) =~= points);
        }
    }
}

/// Growth by one more walker is growth.
pub proof fn lemma_grown_step(
    first_points: Seq<Point>,
    first_links: Seq<Link>,
    a: ClusterView,
    b: ClusterView,
    side: int,
)
    requires
        grown(first_points, first_links, a.points, a.links, side),
        inside(a.points, a.links, side),
        a.occupied == occupied(a.points),
        grew_by_one(a, b),
        in_grid(b.points.last().cell(), side),
    ensures
        grown(first_points, first_links, b.points, b.links, side),
        inside(b.points, b.links, side),
{
    let n0 = first_points.len() as int;
    let l0 = first_links.len() as int;
    let p = b.points.last();
    assert(b.points.subrange(0, n0) =~= a.points.subrange(0, n0));
    assert(b.links.subrange(0, l0) =~= a.links.subrange(0, l0));
    assert forall|i: int| n0 <= i < b.points.len() implies #[trigger] joined_at(b.points, i, side)
        && b.links[l0 + i - n0] == link_from(occupied(b.points.subrange(0, i)), b.points[i]) by {
        if i < a.points.len() {
            assert(b.points.subrange(0, i) =~= a.points.subrange(0, i));
            assert(joined_at(a.points, i, side));
        } else {
            assert(b.points.subrange(0, i) =~= a.points);
        }
    }
    lemma_first_neighbor(a.occupied, p.cell());
    let n = first_neighbor(a.occupied, p.cell()).unwrap();
    let j = choose|j: int| 0 <= j < cells(a.points).len() && cells(a.points)[j] == n;
    assert(in_grid(a.points[j].cell(), side));
    assert forall|i: int| 0 <= i < b.links.len() implies sound_link(#[trigger] b.links[i], side) by {
        if i < a.links.len() {
            assert(b.links[i] == a.links[i]);
        }
    }
    assert forall|i: int| 0 <= i < b.points.len() implies in_grid(
        #[trigger] b.points[i].cell(),
        side,
    ) by {
        if i < a.points.len() {
            assert(b.points[i] == a.points[i]);
        }
    }
}

/// Points that grew from a cluster each stand next to an earlier point.
pub proof fn lemma_growth_connected(first_points: Seq<Point>, points: Seq<Point>, side: int)
    requires
        grown_points(first_points, points, side),
    ensures
        settles_in_contact(points, first_points.len() as int),
{
    assert forall|i: int| first_points.len() <= i < points.len() implies #[trigger] has_earlier_neighbor(
        points,
        i,
    ) by {
        assert(joined_at(points, i, side));
        let before = points.subrange(0, i);
        lemma_touching_has_neighbor(before, points[i]);
        let j = choose|j: int|
            0 <= j < i && adjacent(
                before.push(points[i])[i].cell(),
                #[trigger] before.push(points[i])[j].cell(),
            );
        assert(before.push(points[i])[j] == points[j]);
        assert(adjacent(points[i].cell(), points[j].cell()));
    }
}

/// Distinct points on a grid are no more than its cells, and a grid whose
/// side fits 32 bits has fewer than 2^62.
pub proof fn lemma_capacity(points: Seq<Point>, side: int)
    requires
        cells(points).no_duplicates(),
        forall|i: int| 0 <= i < points.len() ==> in_grid(#[trigger] points[i].cell(), side),
        0 <= side <= i32::MAX,
    ensures
        points.len() <= side * side,
        side * side <= 0x3fff_ffff_0000_0001,
        points.len() == side * side ==> occupied(points) == grid(side),
{
    lemma_grid_size(side);
    assert forall|i: int| 0 <= i < cells(points).len() implies grid(side).contains(
        #[trigger] cells(points)[i],
    ) by {
        assert(in_grid(points[i].cell(), side));
    }
    lemma_distinct_cells_bound(cells(points), grid(side));
    assert(side * side <= 0x3fff_ffff_0000_0001) by (nonlinear_arith)
        requires
            0 <= side <= 0x7fff_ffff,
    ;
}

/// The set of the cells on which the points stand.
pub fn occupancy(points: &Vec<Point>) -> (taken: PositionSet)
    ensures
        taken@ == occupied(points@),
{
    let mut taken = PositionSet::new();
    let mut i: usize = 0;
    assert(points@.subrange(0, 0) =~= Seq::empty());
    assert(occupied(Seq::<Point>::empty()) =~= Set::empty());
    while i < points.len()
        invariant
            0 <= i <= points.len(),
            taken@ == occupied(points@.subrange(0, i as int)),
        decreases points.len() - i,
    {
        let p = points[i];
        taken.insert(p.x, p.y);
        proof {
            lemma_occupied_push(points@.subrange(0, i as int), p);
            assert(points@.subrange(0, i as int).push(p) =~= points@.subrange(0, i + 1));
        }
        i = i + 1;
    }
    assert(points@.subrange(0, points.len() as int) =~= points@);
    taken
}

impl Cluster {
    /// The set of occupied cells is that of the points, and no two points
    /// share a cell.
    pub open spec fn consistent(&self) -> bool {
        &&& self@.occupied == occupied(self@.points)
        &&& cells(self@.points).no_duplicates()
    }

    /// A cluster of one point, the seed.
    pub fn seeded(seed: Point) -> (cluster: Cluster)
        ensures
            cluster.consistent(),
            cluster@.points == seq![seed],
            cluster@.links == Seq::<Link>::empty(),
    {
        let mut points: Vec<Point> = Vec::new();
        let mut taken = PositionSet::new();
        points.push(seed);
        taken.insert(seed.x, seed.y);
        proof {
            lemma_occupied_push(Seq::empty(), seed);
            assert(Seq::<Point>::empty().push(seed) =~= points@);
            assert(cells(Seq::<Point>::empty()) =~= Seq::empty());
            assert(occupied(Seq::<Point>::empty()) =~= Set::empty());
            assert(points@ =~= seq![seed]);
        }
        Cluster { points, links: Vec::new(), cells: taken }
    }

    /// A cluster of the given points and links.
    pub fn adopt(points: Vec<Point>, links: Vec<Link>) -> (cluster: Cluster)
        requires
            cells(points@).no_duplicates(),
        ensures
            cluster.consistent(),
            cluster@.points == points@,
            cluster@.links == links@,
    {
        let taken = occupancy(&points);
        Cluster { points, links, cells: taken }
    }

    /// The number of points.
    pub fn len(&self) -> (count: usize)
        ensures
            count == self@.points.len(),
    {
        self.points.len()
    }

    /// Whether a walker at this place moves no further: it stands on an
    /// occupied cell or next to one.
    pub fn is_resting(&self, walker: &Point) -> (resting: bool)
        ensures
            resting == rests(self@.occupied, *walker),
    {
        walker.is_touching_any(&self.cells) || walker.is_in_position_set(&self.cells)
    }

    /// Lets a walker settle where it stands. On an occupied cell it is
    /// discarded. Next to the cluster it joins with the contact value, and in
    /// linked mode with a link to its first occupied neighbour. Anywhere else
    /// it is refused and the cluster stays as it was.
    pub fn settle(&mut self, walker: Point, linked: bool) -> (outcome: Result<bool, LinkError>)
        requires
            old(self).consistent(),
        ensures
            final(self).consistent(),
            outcome == verdict(old(self)@.occupied, walker),
            final(self)@ == with_walker(old(self)@, walker, linked),
    {
        if walker.is_in_position_set(&self.cells) {
            return Ok(false);
        }
        let mut joining = walker;
        joining.set_value(CONTACT);
        proof {
            lemma_first_neighbor(self.cells@, joining.cell());
        }
        if linked {
            match joining.find_link(&self.cells) {
                Ok(link) => {
                    self.links.push(link);
                },
                Err(reason) => {
                    return Err(reason);
                },
            }
        } else if !joining.is_touching_any(&self.cells) {
            return Err(LinkError::NoNeighbor);
        }
        self.points.push(joining);
        self.cells.insert(joining.x, joining.y);
        proof {
            lemma_occupied_push(old(self)@.points, joining);
            let before = cells(old(self)@.points);
            assert(!before.contains(joining.cell()));
        }
        Ok(true)
    }

    /// Walks one particle from `new_point` on the torus of side `cap` until
    /// it stands on the cluster or next to it, one unit step after the other,
    /// each in a random direction, and lets it settle there. Each step takes
    /// one draw from `budget`; a walker that finds the budget empty before it
    /// rests is dropped.
    pub fn admit_walker(
        &mut self,
        random: &mut rand::rngs::ThreadRng,
        new_point: Point,
        cap: i32,
        budget: &mut u64,
        linked: bool,
    )
        requires
            old(self).consistent(),
            cap > i32::MIN,
        ensures
            final(self).consistent(),
            *final(budget) <= *old(budget),
            exists|path: Seq<Point>|
                {
                    &&& #[trigger] walked(old(self)@.occupied, new_point, path, cap as int)
                    &&& admitted(
                        old(self)@,
                        final(self)@,
                        path,
                        *old(budget) - *final(budget),
                        *final(budget) as int,
                        linked,
                    )
                },
    {
        let ghost occ = self@.occupied;
        let ghost mut path: Seq<Point> = seq![new_point];
        let mut walker = new_point;
        let mut resting = self.is_resting(&walker);
        while !resting
            invariant
                cap > i32::MIN,
                *self == *old(self),
                self.consistent(),
                occ == self@.occupied,
                walked(occ, new_point, path, cap as int),
                path.last() == walker,
                path.len() - 1 == *old(budget) - *budget,
                *budget <= *old(budget),
                resting == rests(occ, walker),
            decreases *budget,
        {
            if *budget == 0 {
                proof {
                    assert(admitted(old(self)@, self@, path, *old(budget) - *budget, 0, linked));
                }
                return ;
            }
            *budget = *budget - 1;
            let direction = random_below(random, direction_bound());
            let ghost stood = walker;
            let ghost so_far = path;
            walker.step(direction, cap);
            proof {
                path = so_far.push(walker);
                assert(unit_step(stood, walker, cap as int));
                assert forall|i: int| 0 <= i < path.len() - 1 implies #[trigger] walks_on(
                    occ,
                    path,
                    i,
                    cap as int,
                ) by {
                    if i < so_far.len() - 1 {
                        assert(walks_on(occ, so_far, i, cap as int));
                        assert(path[i] == so_far[i] && path[i + 1] == so_far[i + 1]);
                    } else {
                        assert(path[i] == stood && path[i + 1] == walker);
                    }
                }
            }
            resting = self.is_resting(&walker);
        }
        let _ = self.settle(walker, linked);
        proof {
            assert(admitted(
                old(self)@,
                self@,
                path,
                *old(budget) - *budget,
                *budget as int,
                linked,
            ));
        }
    }

    /// The points and the links, in this order.
    pub fn into_parts(self) -> (parts: (Vec<Point>, Vec<Link>))
        ensures
            parts.0@ == self@.points,
            parts.1@ == self@.links,
    {
        (self.points, self.links)
    }
}

} // verus!
