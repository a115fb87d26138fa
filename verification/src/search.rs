//! Breadth-first search over the occupied cells.

use crate::grid::lemma_distinct_cells_bound;
use crate::height::{connected, distance, lemma_distance_unique, reach};
use crate::point::{cells, occupied, Point};
use crate::position::{cell_key, is_storable, key_cell, key_of, lemma_key_round_trip};
use std::collections::{HashMap, VecDeque};
use vstd::prelude::*;

verus! {

/// The mark of a cell that the search has not reached.
pub const UNVISITED: i64 = -1;

/// The `k`-th neighbour of a cell, in the order +x, -x, +y, -y.
spec fn neighbor(c: (int, int), k: int) -> (int, int) {
    if k == 0 {
        (c.0 + 1, c.1)
    } else if k == 1 {
        (c.0 - 1, c.1)
    } else if k == 2 {
        (c.0, c.1 + 1)
    } else {
        (c.0, c.1 - 1)
    }
}

/// The mark that the distance map holds for a cell.
spec fn depth_of(dist: Map<u64, i64>, c: (int, int)) -> int {
    dist[cell_key(c.0, c.1) as u64] as int
}

/// The `k`-th neighbour of `c`, if occupied, is marked, and at most one step
/// further than `c`.
spec fn settled(occ: Set<(int, int)>, dist: Map<u64, i64>, c: (int, int), k: int) -> bool {
    let n = neighbor(c, k);
    occ.contains(n) ==> 0 <= depth_of(dist, n) <= depth_of(dist, c) + 1
}

/// The distance map has an entry for each occupied cell and for no other.
spec fn indexed(occ: Set<(int, int)>, dist: Map<u64, i64>) -> bool {
    &&& forall|c: (int, int)| #[trigger]
        occ.contains(c) ==> is_storable(c) && dist.contains_key(cell_key(c.0, c.1) as u64)
            && depth_of(dist, c) >= -1
    &&& forall|k: u64| #[trigger] dist.contains_key(k) ==> occ.contains(key_cell(k))
}

/// The state of the search: `order` lists the marked cells as they were
/// found, and the first `head` of them have had their neighbours looked at.
spec fn searching(
    occ: Set<(int, int)>,
    origin: (int, int),
    dist: Map<u64, i64>,
    order: Seq<(int, int)>,
    head: int,
) -> bool {
    &&& indexed(occ, dist)
    &&& 0 <= head <= order.len()
    &&& order.no_duplicates()
    &&& forall|c: (int, int)| #[trigger]
        occ.contains(c) ==> (depth_of(dist, c) >= 0 <==> order.contains(c))
    &&& forall|i: int|
        0 <= i < order.len() ==> occ.contains(#[trigger] order[i]) && 0 <= depth_of(dist, order[i])
            <= i && reach(occ, origin, order[i], depth_of(dist, order[i]) as nat)
    &&& forall|i: int, j: int|
        0 <= i <= j < order.len() ==> depth_of(dist, #[trigger] order[i]) <= depth_of(
            dist,
            #[trigger] order[j],
        )
    &&& order.len() > 0 ==> order[0] == origin
    &&& occ.contains(origin) ==> order.len() > 0
    &&& forall|i: int, k: int|
        0 <= i < head && 0 <= k < 4 ==> #[trigger] settled(occ, dist, order[i], k)
    &&& head < order.len() ==> depth_of(dist, order.last()) <= depth_of(dist, order[head]) + 1
}

/// The marked cells are no more than the points.
proof fn lemma_order_bounded(points: Seq<Point>, order: Seq<(int, int)>)
    requires
        order.no_duplicates(),
        forall|i: int| 0 <= i < order.len() ==> occupied(points).contains(#[trigger] order[i]),
    ensures
        order.len() <= points.len(),
{
    cells(points).lemma_cardinality_of_set();
    lemma_distinct_cells_bound(order, occupied(points));
}

/// Marking an unvisited neighbour of the cell at the head keeps the search
/// state, and settles that neighbour.
proof fn lemma_mark(
    occ: Set<(int, int)>,
    origin: (int, int),
    dist: Map<u64, i64>,
    order: Seq<(int, int)>,
    head: int,
    k: int,
)
    requires
        searching(occ, origin, dist, order, head),
        head < order.len(),
        order.len() <= i64::MAX,
        0 <= k < 4,
        occ.contains(neighbor(order[head], k)),
        depth_of(dist, neighbor(order[head], k)) == -1,
        forall|j: int| 0 <= j < k ==> #[trigger] settled(occ, dist, order[head], j),
    ensures
        ({
            let n = neighbor(order[head], k);
            let marked = dist.insert(
                cell_key(n.0, n.1) as u64,
                (depth_of(dist, order[head]) + 1) as i64,
            );
            &&& searching(occ, origin, marked, order.push(n), head)
            &&& forall|j: int| 0 <= j <= k ==> #[trigger] settled(occ, marked, order[head], j)
        }),
{
    let cur = order[head];
    let n = neighbor(cur, k);
    let d = depth_of(dist, cur) + 1;
    let nk = cell_key(n.0, n.1) as u64;
    let marked = dist.insert(nk, d as i64);
    let longer = order.push(n);
    assert(occ.contains(cur));
    assert(!order.contains(n));
    // marks of other cells stay as they are
    assert forall|c: (int, int)| occ.contains(c) && c != n implies depth_of(marked, c)
        == depth_of(dist, c) by {
        lemma_key_round_trip(c);
        lemma_key_round_trip(n);
    }
    assert(depth_of(marked, n) == d);
    assert forall|i: int| 0 <= i < order.len() implies longer[i] == order[i] && order[i] != n by {
        assert(order.contains(order[i]));
    }
    assert(indexed(occ, marked)) by {
        assert forall|c: (int, int)| #[trigger] occ.contains(c) implies is_storable(c)
            && marked.contains_key(cell_key(c.0, c.1) as u64) && depth_of(marked, c) >= -1 by {
            if c != n {
                assert(depth_of(marked, c) == depth_of(dist, c));
            }
        }
    }
    assert(longer.no_duplicates());
    assert forall|c: (int, int)| #[trigger] occ.contains(c) implies (depth_of(marked, c) >= 0
        <==> longer.contains(c)) by {
        if c == n {
            assert(longer[order.len() as int] == n);
        } else {
            assert(depth_of(marked, c) == depth_of(dist, c));
            if order.contains(c) {
                let i = choose|i: int| 0 <= i < order.len() && order[i] == c;
                assert(longer[i] == c);
            }
            if longer.contains(c) {
                let i = choose|i: int| 0 <= i < longer.len() && longer[i] == c;
                assert(order[i] == c);
            }
        }
    }
    // the cell at the head brings its neighbour within one more step
    assert(reach(occ, origin, n, d as nat)) by {
        assert(reach(occ, origin, cur, (d - 1) as nat));
        assert(cur == (n.0 + 1, n.1) || cur == (n.0 - 1, n.1) || cur == (n.0, n.1 + 1) || cur == (
            n.0,
            n.1 - 1,
        ));
    }
    assert forall|i: int| 0 <= i < longer.len() implies occ.contains(#[trigger] longer[i]) && 0
        <= depth_of(marked, longer[i]) <= i && reach(
        occ,
        origin,
        longer[i],
        depth_of(marked, longer[i]) as nat,
    ) by {
        if i < order.len() {
            assert(longer[i] == order[i]);
            assert(depth_of(marked, order[i]) == depth_of(dist, order[i]));
        }
    }
    assert forall|i: int, j: int| 0 <= i <= j < longer.len() implies depth_of(
        marked,
        #[trigger] longer[i],
    ) <= depth_of(marked, #[trigger] longer[j]) by {
        if i < order.len() {
            assert(depth_of(marked, order[i]) == depth_of(dist, order[i]));
            if j < order.len() {
                assert(depth_of(marked, order[j]) == depth_of(dist, order[j]));
            } else {
                assert(depth_of(dist, order[i]) <= depth_of(dist, order.last()));
            }
        }
    }
    assert forall|i: int, j: int| 0 <= i < head && 0 <= j < 4 implies #[trigger] settled(
        occ,
        marked,
        longer[i],
        j,
    ) by {
        assert(settled(occ, dist, order[i], j));
        let m = neighbor(order[i], j);
        if occ.contains(m) {
            assert(m != n);
            assert(depth_of(marked, m) == depth_of(dist, m));
        }
        assert(depth_of(marked, order[i]) == depth_of(dist, order[i]));
    }
    assert forall|j: int| 0 <= j <= k implies #[trigger] settled(occ, marked, order[head], j) by {
        assert(depth_of(marked, cur) == depth_of(dist, cur));
        if j < k {
            assert(settled(occ, dist, order[head], j));
            let m = neighbor(cur, j);
            if occ.contains(m) {
                assert(m != n);
                assert(depth_of(marked, m) == depth_of(dist, m));
            }
        }
    }
    assert(depth_of(marked, longer.last()) <= depth_of(marked, longer[head]) + 1) by {
        assert(longer[head] == cur);
        assert(depth_of(marked, cur) == depth_of(dist, cur));
    }
}

/// A neighbour that is free, or marked already, is settled as it is.
proof fn lemma_seen(
    occ: Set<(int, int)>,
    origin: (int, int),
    dist: Map<u64, i64>,
    order: Seq<(int, int)>,
    head: int,
    k: int,
)
    requires
        searching(occ, origin, dist, order, head),
        head < order.len(),
        0 <= k < 4,
        occ.contains(neighbor(order[head], k)) ==> depth_of(dist, neighbor(order[head], k)) >= 0,
    ensures
        settled(occ, dist, order[head], k),
{
    let n = neighbor(order[head], k);
    if occ.contains(n) {
        assert(order.contains(n));
        let i = choose|i: int| 0 <= i < order.len() && order[i] == n;
        assert(depth_of(dist, order[i]) <= depth_of(dist, order.last()));
    }
}

/// Once every marked cell has had its neighbours looked at, whatever can be
/// reached in `steps` moves is marked with no more than `steps`.
proof fn lemma_search_complete(
    occ: Set<(int, int)>,
    origin: (int, int),
    dist: Map<u64, i64>,
    order: Seq<(int, int)>,
    c: (int, int),
    steps: nat,
)
    requires
        searching(occ, origin, dist, order, order.len() as int),
        reach(occ, origin, c, steps),
    ensures
        0 <= depth_of(dist, c) <= steps,
    decreases steps,
{
    if steps == 0 {
        assert(order[0] == origin);
    } else {
        let fewer = (steps - 1) as nat;
        if reach(occ, origin, c, fewer) {
            lemma_search_complete(occ, origin, dist, order, c, fewer);
        } else {
            let k: int = if reach(occ, origin, (c.0 + 1, c.1), fewer) {
                1
            } else if reach(occ, origin, (c.0 - 1, c.1), fewer) {
                0
            } else if reach(occ, origin, (c.0, c.1 + 1), fewer) {
                3
            } else {
                2
            };
            let q = if k == 1 {
                (c.0 + 1, c.1)
            } else if k == 0 {
                (c.0 - 1, c.1)
            } else if k == 3 {
                (c.0, c.1 + 1)
            } else {
                (c.0, c.1 - 1)
            };
            assert(reach(occ, origin, q, fewer));
            lemma_search_complete(occ, origin, dist, order, q, fewer);
            assert(order.contains(q));
            let i = choose|i: int| 0 <= i < order.len() && order[i] == q;
            assert(settled(occ, dist, order[i], k));
            assert(neighbor(q, k) == c);
        }
    }
}

/// At the end of the search each occupied cell is marked with its distance
/// if it is connected to the origin, and is left unvisited if not.
proof fn lemma_search_result(
    occ: Set<(int, int)>,
    origin: (int, int),
    dist: Map<u64, i64>,
    order: Seq<(int, int)>,
    c: (int, int),
)
    requires
        searching(occ, origin, dist, order, order.len() as int),
        occ.contains(c),
    ensures
        depth_of(dist, c) == if connected(occ, origin, c) {
            distance(occ, origin, c) as int
        } else {
            -1
        },
{
    let d = depth_of(dist, c);
    if d >= 0 {
        assert(order.contains(c));
        let i = choose|i: int| 0 <= i < order.len() && order[i] == c;
        assert(reach(occ, origin, order[i], d as nat));
        if d > 0 && reach(occ, origin, c, (d - 1) as nat) {
            lemma_search_complete(occ, origin, dist, order, c, (d - 1) as nat);
        }
        lemma_distance_unique(occ, origin, c, d as nat);
    } else {
        if connected(occ, origin, c) {
            let steps = choose|steps: nat| reach(occ, origin, c, steps);
            lemma_search_complete(occ, origin, dist, order, c, steps);
        }
    }
}

/// For every cell on which a point stands, its graph distance from `center`
/// over the unit-step neighbourhood of the occupied cells, or `UNVISITED`
/// where no path leads to it. Nothing is reached from a free centre.
pub fn graph_distances(points: &Vec<Point>, center: (i32, i32)) -> (dist: HashMap<u64, i64>)
    requires
        points.len() <= i64::MAX,
    ensures
        forall|k: u64| #[trigger] dist@.contains_key(k) ==> occupied(points@).contains(key_cell(k)),
        forall|c: (int, int)| #[trigger]
            occupied(points@).contains(c) ==> {
                let k = cell_key(c.0, c.1) as u64;
                let origin = (center.0 as int, center.1 as int);
                &&& is_storable(c)
                &&& dist@.contains_key(k)
                &&& dist@[k] == if connected(occupied(points@), origin, c) {
                    distance(occupied(points@), origin, c) as int
                } else {
                    UNVISITED as int
                }
            },
{
    let ghost occ = occupied(points@);
    let ghost origin = (center.0 as int, center.1 as int);
    let mut dist: HashMap<u64, i64> = HashMap::new();
    let mut i: usize = 0;
    while i < points.len()
        invariant
            0 <= i <= points.len(),
            occ == occupied(points@),
            forall|j: int|
                0 <= j < i ==> dist@.contains_key(
                    cell_key(#[trigger] points[j].x as int, points[j].y as int) as u64,
                ),
            forall|k: u64| #[trigger]
                dist@.contains_key(k) ==> dist@[k] == UNVISITED && occ.contains(key_cell(k)),
        decreases points.len() - i,
    {
        let p = points[i];
        let k = key_of(p.x, p.y);
        dist.insert(k, UNVISITED);
        proof {
            lemma_key_round_trip(p.cell());
            assert(cells(points@)[i as int] == p.cell());
        }
        i = i + 1;
    }
    let ghost mut order: Seq<(int, int)> = Seq::empty();
    let ghost mut head: int = 0;
    let mut queue: VecDeque<(i32, i32)> = VecDeque::new();
    proof {
        assert forall|c: (int, int)| #[trigger] occ.contains(c) implies is_storable(c)
            && dist@.contains_key(cell_key(c.0, c.1) as u64) && depth_of(dist@, c) == -1 by {
            let j = choose|j: int| 0 <= j < cells(points@).len() && cells(points@)[j] == c;
            assert(points[j].cell() == c);
        }
    }
    let center_key = key_of(center.0, center.1);
    if dist.contains_key(&center_key) {
        dist.insert(center_key, 0);
        queue.push_back(center);
        proof {
            lemma_key_round_trip(origin);
            order = seq![origin];
            assert forall|c: (int, int)| occ.contains(c) && c != origin implies depth_of(dist@, c)
                == -1 by {
                lemma_key_round_trip(c);
            }
            assert(depth_of(dist@, origin) == 0);
            assert(reach(occ, origin, origin, 0));
            assert forall|c: (int, int)| #[trigger] occ.contains(c) implies (depth_of(dist@, c)
                >= 0 <==> order.contains(c)) by {
                if c == origin {
                    assert(order[0] == c);
                }
            }
        }
    } else {
        proof {
            if occ.contains(origin) {
                assert(dist@.contains_key(cell_key(origin.0, origin.1) as u64));
            }
        }
    }
    assert(searching(occ, origin, dist@, order, head));
    while queue.len() > 0
        invariant
            points.len() <= i64::MAX,
            occ == occupied(points@),
            searching(occ, origin, dist@, order, head),
            queue@.len() == order.len() - head,
            forall|j: int|
                0 <= j < queue@.len() ==> (#[trigger] queue@[j].0 as int, queue@[j].1 as int)
                    == order[head + j],
        decreases 2 * points.len() - order.len() - head,
    {
        proof {
            lemma_order_bounded(points@, order);
        }
        let (x, y) = queue.pop_front().unwrap();
        let ghost cur = order[head];
        assert(cur == (x as int, y as int));
        assert(occ.contains(cur));
        let current: i64 = match dist.get(&key_of(x, y)) {
            Some(found) => *found,
            None => 0,
        };
        assert(current == depth_of(dist@, cur));
        let ghost found_before = order.len();
        let mut k: u8 = 0;
        while k < 4
            invariant
                0 <= k <= 4,
                order.len() >= found_before,
                points.len() <= i64::MAX,
                occ == occupied(points@),
                searching(occ, origin, dist@, order, head),
                head < order.len(),
                cur == order[head],
                cur == (x as int, y as int),
                current == depth_of(dist@, cur),
                forall|j: int| 0 <= j < k ==> #[trigger] settled(occ, dist@, order[head], j),
                queue@.len() == order.len() - head - 1,
                forall|j: int|
                    0 <= j < queue@.len() ==> (#[trigger] queue@[j].0 as int, queue@[j].1 as int)
                        == order[head + 1 + j],
            decreases 4 - k,
        {
            let (nx, ny): (i64, i64) = if k == 0 {
                (x as i64 + 1, y as i64)
            } else if k == 1 {
                (x as i64 - 1, y as i64)
            } else if k == 2 {
                (x as i64, y as i64 + 1)
            } else {
                (x as i64, y as i64 - 1)
            };
            let ghost n = neighbor(cur, k as int);
            assert(n == (nx as int, ny as int));
            let mut unseen = false;
            if i32::MIN as i64 <= nx && nx <= i32::MAX as i64 && i32::MIN as i64 <= ny && ny
                <= i32::MAX as i64 {
                let nk = key_of(nx as i32, ny as i32);
                unseen =
                match dist.get(&nk) {
                    Some(found) => *found == UNVISITED,
                    None => false,
                };
                proof {
                    lemma_key_round_trip(n);
                    if dist@.contains_key(nk) {
                        assert(occ.contains(key_cell(nk)));
                    }
                }
                if unseen {
                    proof {
                        lemma_order_bounded(points@, order);
                        lemma_mark(occ, origin, dist@, order, head, k as int);
                    }
                    dist.insert(nk, current + 1);
                    queue.push_back((nx as i32, ny as i32));
                    proof {
                        order = order.push(n);
                    }
                }
            }
            proof {
                if !unseen {
                    lemma_seen(occ, origin, dist@, order, head, k as int);
                }
            }
            k = k + 1;
        }
        proof {
            assert forall|i: int, j: int| 0 <= i < head + 1 && 0 <= j < 4 implies #[trigger] settled(
                occ,
                dist@,
                order[i],
                j,
            ) by {}
            if head + 1 < order.len() {
                assert(depth_of(dist@, order[head]) <= depth_of(dist@, order[head + 1]));
            }
            lemma_order_bounded(points@, order);
            head = head + 1;
        }
    }
    proof {
        assert forall|c: (int, int)| #[trigger] occ.contains(c) implies ({
            let k = cell_key(c.0, c.1) as u64;
            &&& is_storable(c)
            &&& dist@.contains_key(k)
            &&& dist@[k] == if connected(occ, origin, c) {
                distance(occ, origin, c) as int
            } else {
                UNVISITED as int
            }
        }) by {
            lemma_search_result(occ, origin, dist@, order, c);
        }
    }
    dist
}

} // verus!
