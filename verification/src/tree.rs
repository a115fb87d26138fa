//! Links as a tree: every link but the first hangs by one end on what the
//! links before it cover, and covers new cells with the rest. Such links
//! span as many cells as they are long in all, and one more, and stay a tree
//! when they are rescaled or when a walker's link joins them.

use crate::cluster::{lemma_occupied_push, link_from, sound_link};
use crate::grid::touches;
use crate::height::{connected, lemma_connected_joined, lemma_reach_step, reach, surviving};
use crate::point::{
    cells, first_neighbor, lemma_first_neighbor, occupied, Link, Point, TRACED,
};
use crate::retrace::{covered, lemma_merged, lemma_retraced_covers, rescaled, retraced};
use vstd::prelude::*;

verus! {

/// The links with both ends at twice their coordinates, each.
pub open spec fn rescaled_all(links: Seq<Link>) -> Seq<Link> {
    Seq::new(links.len(), |i: int| rescaled(links[i]))
}

/// Whether twice both coordinates of the point fit 32 bits.
pub open spec fn doubles(p: Point) -> bool {
    i32::MIN <= 2 * p.x <= i32::MAX && i32::MIN <= 2 * p.y <= i32::MAX
}

/// Upscaling the links keeps their number and order, and puts both ends of
/// every link whose doubled coordinates fit 32 bits at twice their
/// coordinates, with the traced value.
pub proof fn lemma_rescaled_ends(links: Seq<Link>, i: int)
    requires
        0 <= i < links.len(),
        doubles(links[i].p1),
        doubles(links[i].p2),
    ensures
        rescaled_all(links).len() == links.len(),
        rescaled_all(links)[i].p1.cell() == (2 * links[i].p1.x, 2 * links[i].p1.y),
        rescaled_all(links)[i].p2.cell() == (2 * links[i].p2.x, 2 * links[i].p2.y),
        rescaled_all(links)[i].p1.value == TRACED,
        rescaled_all(links)[i].p2.value == TRACED,
{
}

/// Whether one of the first `j` links covers the cell `c`.
pub open spec fn covered_before(links: Seq<Link>, j: int, c: (int, int)) -> bool {
    exists|i: int| 0 <= i < j && (#[trigger] links[i]).segment().contains(c)
}

/// Whether link `j` meets the links before it in its second end and in no
/// other cell.
pub open spec fn hangs(links: Seq<Link>, j: int) -> bool {
    forall|c: (int, int)|
        (#[trigger] links[j].segment().contains(c) && covered_before(links, j, c)) <==> c
            == links[j].p2.cell()
}

/// Whether the links are aligned and each but the first hangs on those
/// before it.
pub open spec fn is_tree(links: Seq<Link>) -> bool {
    &&& forall|i: int| 0 <= i < links.len() ==> (#[trigger] links[i]).is_aligned()
    &&& forall|j: int| 1 <= j < links.len() ==> #[trigger] hangs(links, j)
}

/// The length of all links together, in unit steps.
pub open spec fn weight(links: Seq<Link>) -> int
    decreases links.len(),
{
    if links.len() == 0 {
        0
    } else {
        weight(links.drop_last()) + links.last().span()
    }
}

/// Whether the links are a tree that spans the points: a lone point without
/// a link, or the cells of the points are those that the links cover; and
/// the points are one more than the links are long.
pub open spec fn spanned(points: Seq<Point>, links: Seq<Link>) -> bool {
    &&& is_tree(links)
    &&& cells(points).no_duplicates()
    &&& points.len() == 1 + weight(links)
    &&& links.len() > 0 ==> forall|c: (int, int)| #[trigger]
        occupied(points).contains(c) <==> covered(links, c)
}

/// A rescaled link covers a cell exactly when the link covers both cells
/// that halving the coordinates gives, rounding down and rounding up.
pub proof fn lemma_rescaled_segment(link: Link, side: int, c: (int, int))
    requires
        sound_link(link, side),
        2 * side <= i32::MAX,
    ensures
        rescaled(link).is_aligned(),
        rescaled(link).span() == 2 * link.span(),
        rescaled(link).p2.cell() == (2 * link.p2.x, 2 * link.p2.y),
        rescaled(link).segment().contains(c) <==> link.segment().contains((c.0 / 2, c.1 / 2))
            && link.segment().contains(((c.0 + 1) / 2, (c.1 + 1) / 2)),
{
}

/// What is a tree stays one without its last link, and weighs that link's
/// length less.
pub proof fn lemma_tree_front(links: Seq<Link>)
    requires
        is_tree(links),
        links.len() > 0,
    ensures
        is_tree(links.drop_last()),
{
    let front = links.drop_last();
    assert forall|j: int| 1 <= j < front.len() implies #[trigger] hangs(front, j) by {
        assert(hangs(links, j));
        assert forall|c: (int, int)|
            (#[trigger] front[j].segment().contains(c) && covered_before(front, j, c)) <==> c
                == front[j].p2.cell() by {
            assert(front[j] == links[j]);
            assert(links[j].segment().contains(c) && covered_before(links, j, c) <==> c
                == links[j].p2.cell());
            if covered_before(front, j, c) {
                let i = choose|i: int| 0 <= i < j && (#[trigger] front[i]).segment().contains(c);
                assert(links[i].segment().contains(c));
            }
            if covered_before(links, j, c) {
                let i = choose|i: int| 0 <= i < j && (#[trigger] links[i]).segment().contains(c);
                assert(front[i].segment().contains(c));
            }
        }
    }
}

/// The cells of a traced link are those of its segment.
proof fn lemma_traced_occupies_segment(link: Link)
    requires
        link.is_aligned(),
    ensures
        occupied(link.traced()) == link.segment(),
        link.segment().finite(),
        link.segment().len() == link.span() + 1,
        link.segment().contains(link.p2.cell()),
{
    link.lemma_trace_covers_segment();
    assert(cells(link.traced()) =~= link.traced().map_values(|p: Point| p.cell()));
}

/// Retracing a tree gives one point for each unit step of its links, and one
/// more.
pub proof fn lemma_tree_count(links: Seq<Link>)
    requires
        is_tree(links),
        links.len() > 0,
    ensures
        retraced(links).len() == 1 + weight(links),
    decreases links.len(),
{
    let front = links.drop_last();
    let last = links.last();
    lemma_tree_front(links);
    lemma_retraced_covers(front);
    lemma_retraced_covers(links);
    lemma_merged(retraced(front), last.traced());
    lemma_traced_occupies_segment(last);
    let a = occupied(retraced(front));
    let b = last.segment();
    cells(retraced(links)).unique_seq_to_set();
    cells(retraced(front)).unique_seq_to_set();
    assert(occupied(retraced(links)) == a.union(b));
    if front.len() == 0 {
        assert(cells(retraced(front)) =~= Seq::empty());
        assert(a =~= Set::empty());
        assert(a.union(b) =~= b);
        assert(weight(front) == 0);
    } else {
        lemma_tree_count(front);
        let j = links.len() - 1;
        assert(hangs(links, j));
        assert(a.intersect(b) =~= set![last.p2.cell()]) by {
            assert forall|c: (int, int)| a.intersect(b).contains(c) <==> c == last.p2.cell() by {
                assert(links[j].segment().contains(c) && covered_before(links, j, c) <==> c
                    == links[j].p2.cell());
                if a.contains(c) {
                    assert(covered(front, c));
                    let i = choose|i: int|
                        0 <= i < front.len() && (#[trigger] front[i]).segment().contains(c);
                    assert(links[i].segment().contains(c));
                }
                if covered_before(links, j, c) {
                    let i = choose|i: int| 0 <= i < j && (#[trigger] links[i]).segment().contains(c);
                    assert(front[i].segment().contains(c));
                    assert(covered(front, c));
                }
            }
        }
        vstd::set_lib::lemma_set_intersect_union_lens(a, b);
    }
}

/// Rescaled links are twice as long in all.
pub proof fn lemma_weight_rescaled(links: Seq<Link>, side: int)
    requires
        forall|i: int| 0 <= i < links.len() ==> sound_link(#[trigger] links[i], side),
        2 * side <= i32::MAX,
    ensures
        weight(rescaled_all(links)) == 2 * weight(links),
    decreases links.len(),
{
    if links.len() > 0 {
        let front = links.drop_last();
        assert(rescaled_all(links).drop_last() =~= rescaled_all(front));
        lemma_weight_rescaled(front, side);
        lemma_rescaled_segment(links.last(), side, (0, 0));
        assert(rescaled_all(links).last() == rescaled(links.last()));
    }
}

/// A tree of links on a grid is a tree when all its links are rescaled.
pub proof fn lemma_tree_rescaled(links: Seq<Link>, side: int)
    requires
        is_tree(links),
        forall|i: int| 0 <= i < links.len() ==> sound_link(#[trigger] links[i], side),
        2 * side <= i32::MAX,
    ensures
        is_tree(rescaled_all(links)),
{
    let twice = rescaled_all(links);
    assert forall|i: int| 0 <= i < twice.len() implies (#[trigger] twice[i]).is_aligned() by {
        lemma_rescaled_segment(links[i], side, (0, 0));
    }
    assert forall|j: int| 1 <= j < twice.len() implies #[trigger] hangs(twice, j) by {
        assert(hangs(links, j));
        assert forall|c: (int, int)|
            (#[trigger] twice[j].segment().contains(c) && covered_before(twice, j, c)) <==> c
                == twice[j].p2.cell() by {
            let lo = (c.0 / 2, c.1 / 2);
            let hi = ((c.0 + 1) / 2, (c.1 + 1) / 2);
            lemma_rescaled_segment(links[j], side, c);
            assert(links[j].segment().contains(lo) && covered_before(links, j, lo) <==> lo
                == links[j].p2.cell());
            assert(links[j].segment().contains(hi) && covered_before(links, j, hi) <==> hi
                == links[j].p2.cell());
            if twice[j].segment().contains(c) && covered_before(twice, j, c) {
                let i = choose|i: int| 0 <= i < j && (#[trigger] twice[i]).segment().contains(c);
                lemma_rescaled_segment(links[i], side, c);
                assert(links[i].segment().contains(lo));
                assert(links[i].segment().contains(hi));
                assert(covered_before(links, j, lo));
                assert(covered_before(links, j, hi));
            }
            if c == twice[j].p2.cell() {
                let end = links[j].p2.cell();
                assert(lo == end && hi == end);
                assert(covered_before(links, j, end));
                let i = choose|i: int| 0 <= i < j && (#[trigger] links[i]).segment().contains(end);
                lemma_rescaled_segment(links[i], side, c);
                assert(twice[i].segment().contains(c));
            }
        }
    }
}

/// A lone point is spanned by no link.
pub proof fn lemma_spanned_seed(seed: Point)
    ensures
        spanned(seq![seed], Seq::empty()),
{
    assert(cells(seq![seed]) =~= seq![seed.cell()]);
}

/// Rescaling the links of a spanned cluster and retracing them gives a
/// spanned cluster again, of twice the points less one.
pub proof fn lemma_spanned_rescaled(points: Seq<Point>, links: Seq<Link>, side: int)
    requires
        spanned(points, links),
        links.len() > 0,
        forall|i: int| 0 <= i < links.len() ==> sound_link(#[trigger] links[i], side),
        2 * side <= i32::MAX,
    ensures
        spanned(retraced(rescaled_all(links)), rescaled_all(links)),
        retraced(rescaled_all(links)).len() == 2 * points.len() - 1,
{
    let twice = rescaled_all(links);
    lemma_tree_rescaled(links, side);
    lemma_weight_rescaled(links, side);
    lemma_tree_count(twice);
    lemma_retraced_covers(twice);
}

/// A walker that settles on a spanned cluster, with its link to its first
/// occupied neighbour, leaves the cluster spanned.
pub proof fn lemma_spanned_grows(points: Seq<Point>, links: Seq<Link>, q: Point)
    requires
        spanned(points, links),
        !occupied(points).contains(q.cell()),
        touches(occupied(points), q.cell()),
    ensures
        spanned(points.push(q), links.push(link_from(occupied(points), q))),
{
    let occ = occupied(points);
    let link = link_from(occ, q);
    let more = links.push(link);
    lemma_first_neighbor(occ, q.cell());
    let n = first_neighbor(occ, q.cell()).unwrap();
    let at = choose|at: int| 0 <= at < cells(points).len() && cells(points)[at] == n;
    assert(points[at].cell() == n);
    assert(link.p2.cell() == n);
    assert(link.is_aligned() && link.span() == 1);
    assert forall|c: (int, int)| link.segment().contains(c) <==> c == q.cell() || c == n by {}
    lemma_occupied_push(points, q);
    assert(!cells(points).contains(q.cell()));
    assert(more.drop_last() =~= links);
    assert forall|c: (int, int)| covered(more, c) <==> covered(links, c) || c == q.cell() || c
        == n by {
        if covered(more, c) {
            let i = choose|i: int| 0 <= i < more.len() && (#[trigger] more[i]).segment().contains(c);
            if i < links.len() {
                assert(links[i].segment().contains(c));
            }
        }
        if covered(links, c) {
            let i = choose|i: int|
                0 <= i < links.len() && (#[trigger] links[i]).segment().contains(c);
            assert(more[i].segment().contains(c));
        }
        if c == q.cell() || c == n {
            assert(more[links.len() as int].segment().contains(c));
        }
    }
    if links.len() == 0 {
        assert(weight(links) == 0);
        assert(cells(points)[0] == n) by {
            assert(at == 0);
        }
        assert forall|c: (int, int)| occ.contains(c) <==> c == n by {
            if occ.contains(c) {
                let i = choose|i: int| 0 <= i < cells(points).len() && cells(points)[i] == c;
            }
        }
    }
    assert forall|c: (int, int)| #[trigger]
        occupied(points.push(q)).contains(c) <==> covered(more, c) by {
        assert(covered(more, c) <==> covered(links, c) || c == q.cell() || c == n);
        if links.len() > 0 {
            assert(occupied(points).contains(c) <==> covered(links, c));
        } else {
            assert(!covered(links, c));
        }
    }
    assert forall|i: int| 0 <= i < more.len() implies (#[trigger] more[i]).is_aligned() by {
        if i < links.len() {
            assert(more[i] == links[i]);
        }
    }
    assert forall|j: int| 1 <= j < more.len() implies #[trigger] hangs(more, j) by {
        assert forall|c: (int, int)|
            (#[trigger] more[j].segment().contains(c) && covered_before(more, j, c)) <==> c
                == more[j].p2.cell() by {
            if j < links.len() {
                assert(hangs(links, j));
                assert(more[j] == links[j]);
                assert(links[j].segment().contains(c) && covered_before(links, j, c) <==> c
                    == links[j].p2.cell());
                if covered_before(more, j, c) {
                    let i = choose|i: int| 0 <= i < j && (#[trigger] more[i]).segment().contains(c);
                    assert(links[i].segment().contains(c));
                }
                if covered_before(links, j, c) {
                    let i = choose|i: int| 0 <= i < j && (#[trigger] links[i]).segment().contains(c);
                    assert(more[i].segment().contains(c));
                }
            } else {
                assert(occupied(points).contains(c) <==> covered(links, c));
                if covered_before(more, j, c) {
                    let i = choose|i: int| 0 <= i < j && (#[trigger] more[i]).segment().contains(c);
                    assert(links[i].segment().contains(c));
                    assert(covered(links, c));
                }
                if covered(links, c) {
                    let i = choose|i: int|
                        0 <= i < links.len() && (#[trigger] links[i]).segment().contains(c);
                    assert(more[i].segment().contains(c));
                    assert(covered_before(more, j, c));
                }
            }
        }
    }
}

/// How far a cell is from the second end of a link, in unit steps along
/// both axes.
pub open spec fn offset(link: Link, c: (int, int)) -> int {
    (if c.0 <= link.p2.x {
        link.p2.x - c.0
    } else {
        c.0 - link.p2.x
    }) + (if c.1 <= link.p2.y {
        link.p2.y - c.1
    } else {
        c.1 - link.p2.y
    })
}

/// Every cell of a link whose segment is occupied is connected to the
/// link's second end.
pub proof fn lemma_segment_connected(occ: Set<(int, int)>, link: Link, c: (int, int))
    requires
        link.is_aligned(),
        forall|d: (int, int)| link.segment().contains(d) ==> occ.contains(d),
        link.segment().contains(c),
    ensures
        connected(occ, link.p2.cell(), c),
    decreases offset(link, c),
{
    let end = link.p2.cell();
    assert(link.segment().contains(end));
    if c == end {
        assert(reach(occ, end, end, 0));
    } else {
        let d = if link.p1.x == link.p2.x {
            if c.1 < link.p2.y {
                (c.0, c.1 + 1)
            } else {
                (c.0, c.1 - 1)
            }
        } else {
            if c.0 < link.p2.x {
                (c.0 + 1, c.1)
            } else {
                (c.0 - 1, c.1)
            }
        };
        assert(link.segment().contains(d));
        lemma_segment_connected(occ, link, d);
        let steps = choose|steps: nat| reach(occ, end, d, steps);
        lemma_reach_step(occ, end, d, c, steps);
    }
}

/// In a spanned cluster every cell of every link is connected to the second
/// end of the first link.
pub proof fn lemma_tree_connected(points: Seq<Point>, links: Seq<Link>, j: int, c: (int, int))
    requires
        spanned(points, links),
        0 <= j < links.len(),
        links[j].segment().contains(c),
    ensures
        connected(occupied(points), links[0].p2.cell(), c),
    decreases j,
{
    let occ = occupied(points);
    let root = links[0].p2.cell();
    assert forall|d: (int, int)| links[j].segment().contains(d) implies occ.contains(d) by {
        assert(covered(links, d));
    }
    lemma_segment_connected(occ, links[j], c);
    if j > 0 {
        let end = links[j].p2.cell();
        assert(hangs(links, j));
        links[j].lemma_trace_covers_segment();
        assert(links[j].segment().contains(end));
        assert(covered_before(links, j, end));
        let i = choose|i: int| 0 <= i < j && (#[trigger] links[i]).segment().contains(end);
        lemma_tree_connected(points, links, i, end);
        lemma_connected_joined(occ, root, end, c);
    }
}

/// In a spanned cluster every occupied cell is connected to every other.
pub proof fn lemma_spanned_connected(
    points: Seq<Point>,
    links: Seq<Link>,
    origin: (int, int),
    c: (int, int),
)
    requires
        spanned(points, links),
        occupied(points).contains(origin),
        occupied(points).contains(c),
    ensures
        connected(occupied(points), origin, c),
{
    let occ = occupied(points);
    assert(reach(occ, origin, origin, 0));
    if links.len() == 0 {
        assert(weight(links) == 0);
        let i = choose|i: int| 0 <= i < cells(points).len() && cells(points)[i] == origin;
        let k = choose|k: int| 0 <= k < cells(points).len() && cells(points)[k] == c;
        assert(i == 0 && k == 0);
    } else {
        let root = links[0].p2.cell();
        assert(covered(links, origin));
        let i = choose|i: int|
            0 <= i < links.len() && (#[trigger] links[i]).segment().contains(origin);
        lemma_tree_connected(points, links, i, origin);
        assert(covered(links, c));
        let k = choose|k: int| 0 <= k < links.len() && (#[trigger] links[k]).segment().contains(c);
        lemma_tree_connected(points, links, k, c);
        lemma_connected_joined(occ, root, origin, origin);
        lemma_connected_joined(occ, origin, root, c);
    }
}

/// Where every point is connected to the origin, all survive, each on its
/// cell.
pub proof fn lemma_all_survive(points: Seq<Point>, occ: Set<(int, int)>, origin: (int, int))
    requires
        forall|i: int| 0 <= i < points.len() ==> connected(occ, origin, (#[trigger] points[i]).cell()),
    ensures
        surviving(points, occ, origin).len() == points.len(),
        cells(surviving(points, occ, origin)) == cells(points),
    decreases points.len(),
{
    if points.len() > 0 {
        let front = points.drop_last();
        assert forall|i: int| 0 <= i < front.len() implies connected(
            occ,
            origin,
            (#[trigger] front[i]).cell(),
        ) by {
            assert(front[i] == points[i]);
        }
        lemma_all_survive(front, occ, origin);
        assert(connected(occ, origin, points[points.len() - 1].cell()));
        assert(cells(surviving(points, occ, origin)) =~= cells(points)) by {
            assert forall|i: int| 0 <= i < points.len() implies cells(
                surviving(points, occ, origin),
            )[i] == cells(points)[i] by {
                if i < front.len() {
                    assert(cells(surviving(front, occ, origin))[i] == cells(front)[i]);
                }
            }
        }
    } else {
        assert(cells(surviving(points, occ, origin)) =~= cells(points));
    }
}

/// Height evaluation from an occupied cell of a spanned cluster drops no
/// point and leaves the cluster spanned.
pub proof fn lemma_spanned_survives(points: Seq<Point>, links: Seq<Link>, origin: (int, int))
    requires
        spanned(points, links),
        occupied(points).contains(origin),
    ensures
        surviving(points, occupied(points), origin).len() == points.len(),
        spanned(surviving(points, occupied(points), origin), links),
{
    let occ = occupied(points);
    assert forall|i: int| 0 <= i < points.len() implies connected(
        occ,
        origin,
        (#[trigger] points[i]).cell(),
    ) by {
        assert(cells(points)[i] == points[i].cell());
        lemma_spanned_connected(points, links, origin, points[i].cell());
    }
    lemma_all_survive(points, occ, origin);
}

} // verus!
