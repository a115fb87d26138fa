//! Doubling the resolution: links rescaled and traced again.

use crate::cluster::lemma_occupied_push;
use crate::point::{cells, occupied, Link, Point, TRACED};
use vstd::prelude::*;

verus! {

/// A point at twice its coordinates, with the traced value.
pub open spec fn doubled(p: Point) -> Point {
    Point { x: (2 * p.x) as i32, y: (2 * p.y) as i32, value: TRACED }
}

/// A link with both ends at twice their coordinates.
pub open spec fn rescaled(link: Link) -> Link {
    Link { p1: doubled(link.p1), p2: doubled(link.p2) }
}

/// A link rescaled `k` times.
pub open spec fn rescaled_times(link: Link, k: nat) -> Link
    decreases k,
{
    if k == 0 {
        link
    } else {
        rescaled(rescaled_times(link, (k - 1) as nat))
    }
}

/// `acc`, followed by those of `more` whose cell was not taken before them,
/// in their order.
pub open spec fn merged(acc: Seq<Point>, more: Seq<Point>) -> Seq<Point>
    decreases more.len(),
{
    if more.len() == 0 {
        acc
    } else {
        let so_far = merged(acc, more.drop_last());
        if occupied(so_far).contains(more.last().cell()) {
            so_far
        } else {
            so_far.push(more.last())
        }
    }
}

/// The points that tracing the links one after the other gives, each cell
/// kept where it first came up.
pub open spec fn retraced(links: Seq<Link>) -> Seq<Point>
    decreases links.len(),
{
    if links.len() == 0 {
        Seq::empty()
    } else {
        merged(retraced(links.drop_last()), links.last().traced())
    }
}

/// Merging keeps distinct cells distinct and takes up exactly the cells of
/// what is merged in.
pub proof fn lemma_merged(acc: Seq<Point>, more: Seq<Point>)
    requires
        cells(acc).no_duplicates(),
    ensures
        cells(merged(acc, more)).no_duplicates(),
        occupied(merged(acc, more)) == occupied(acc).union(occupied(more)),
    decreases more.len(),
{
    if more.len() == 0 {
        assert(cells(more) =~= Seq::empty());
        assert(occupied(acc).union(occupied(more)) =~= occupied(acc));
    } else {
        let front = more.drop_last();
        let so_far = merged(acc, front);
        lemma_merged(acc, front);
        lemma_occupied_push(front, more.last());
        assert(front.push(more.last()) =~= more);
        if !occupied(so_far).contains(more.last().cell()) {
            lemma_occupied_push(so_far, more.last());
        }
        assert(occupied(merged(acc, more)) =~= occupied(acc).union(occupied(more)));
    }
}

/// Whether the cell `c` lies on the segment of one of the links.
pub open spec fn covered(links: Seq<Link>, c: (int, int)) -> bool {
    exists|i: int| 0 <= i < links.len() && (#[trigger] links[i]).segment().contains(c)
}

/// Retracing aligned links gives each cell of their segments once, and no
/// other cell.
pub proof fn lemma_retraced_covers(links: Seq<Link>)
    requires
        forall|i: int| 0 <= i < links.len() ==> (#[trigger] links[i]).is_aligned(),
    ensures
        cells(retraced(links)).no_duplicates(),
        forall|c: (int, int)| #[trigger] occupied(retraced(links)).contains(c) <==> covered(links, c),
    decreases links.len(),
{
    if links.len() == 0 {
        assert(cells(retraced(links)) =~= Seq::empty());
    } else {
        let front = links.drop_last();
        let last = links.last();
        lemma_retraced_covers(front);
        lemma_merged(retraced(front), last.traced());
        last.lemma_trace_covers_segment();
        assert(occupied(last.traced()) =~= last.traced_cells()) by {
            assert(cells(last.traced()) =~= last.traced().map_values(|p: Point| p.cell()));
        }
        assert forall|c: (int, int)| #[trigger]
            occupied(retraced(links)).contains(c) <==> covered(links, c) by {
            if covered(links, c) {
                let i = choose|i: int|
                    0 <= i < links.len() && (#[trigger] links[i]).segment().contains(c);
                if i < front.len() {
                    assert(front[i].segment().contains(c));
                    assert(covered(front, c));
                }
            }
            if occupied(retraced(front)).contains(c) {
                assert(covered(front, c));
                let i = choose|i: int|
                    0 <= i < front.len() && (#[trigger] front[i]).segment().contains(c);
                assert(links[i].segment().contains(c));
            }
            if last.segment().contains(c) {
                assert(links[links.len() - 1].segment().contains(c));
            }
        }
    }
}

/// Whether a point stands on each end of the link.
pub open spec fn holds_ends(points: Seq<Point>, link: Link) -> bool {
    occupied(points).contains(link.p1.cell()) && occupied(points).contains(link.p2.cell())
}

/// Retraced aligned links have a point on both ends of each of them.
pub proof fn lemma_ends_retraced(links: Seq<Link>)
    requires
        forall|i: int| 0 <= i < links.len() ==> (#[trigger] links[i]).is_aligned(),
    ensures
        forall|i: int| 0 <= i < links.len() ==> #[trigger] holds_ends(retraced(links), links[i]),
{
    lemma_retraced_covers(links);
    assert forall|i: int| 0 <= i < links.len() implies #[trigger] holds_ends(
        retraced(links),
        links[i],
    ) by {
        links[i].lemma_trace_covers_segment();
        assert(links[i].segment().contains(links[i].p1.cell()));
        assert(links[i].segment().contains(links[i].p2.cell()));
        assert(covered(links, links[i].p1.cell()));
        assert(covered(links, links[i].p2.cell()));
    }
}

} // verus!
