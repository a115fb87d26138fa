use dla_terrain::cluster::Cluster;
use dla_terrain::point::{direction_bound, Link, LinkError, Point, CONTACT, DIRECTIONS};
use dla_terrain::terrain::{GrowthError, Terrain, INITIAL_POINTS, SIZE_FACTOR};

const PLENTY: u64 = 50_000_000;

fn adjacent(a: &Point, b: &Point) -> bool {
    (a.x() - b.x()).abs() + (a.y() - b.y()).abs() == 1
}

fn grown_terrain() -> Terrain {
    let mut terrain = Terrain::new(2);
    terrain.set_budget(PLENTY);
    assert_eq!(terrain.init(), Ok(()));
    terrain
}

fn first_neighbor(earlier: &[Point], p: &Point) -> Option<(i32, i32)> {
    let taken = |x: i32, y: i32| earlier.iter().any(|q| q.x() == x && q.y() == y);
    let probes = [(p.x() + 1, p.y()), (p.x() - 1, p.y()), (p.x(), p.y() + 1), (p.x(), p.y() - 1)];
    probes.iter().copied().find(|&(x, y)| taken(x, y))
}

#[test]
fn new_terrain_is_empty_and_eight_cells_a_unit_wide() {
    let terrain = Terrain::new(2);
    assert_eq!(terrain.gsize(), 16);
    assert_eq!(terrain.gsize(), 2 * SIZE_FACTOR);
    assert!(terrain.points().is_empty());
    assert!(terrain.links().is_empty());
    assert_eq!(terrain.budget(), u64::MAX);
}

#[test]
fn init_grows_sixteen_points_from_the_centre() {
    let terrain = grown_terrain();
    assert_eq!(terrain.points().len() as u64, INITIAL_POINTS);
    assert_eq!(terrain.points().len(), 16);
    assert_eq!(terrain.links().len(), 15);
    assert_eq!(terrain.points()[0], Point::new(8, 8, CONTACT));
    assert_eq!(terrain.gsize(), 16);
}

#[test]
fn every_point_after_the_seed_touches_an_earlier_one() {
    for _ in 0..20 {
        let terrain = grown_terrain();
        let points = terrain.points();
        for i in 1..points.len() {
            assert!(points[..i].iter().any(|q| adjacent(&points[i], q)), "point {} stands alone", i);
        }
    }
}

#[test]
fn grown_points_are_distinct_on_the_grid_and_carry_the_contact_value() {
    let terrain = grown_terrain();
    let points = terrain.points();
    for (i, p) in points.iter().enumerate() {
        assert!(0 <= p.x() && p.x() < 16 && 0 <= p.y() && p.y() < 16);
        assert_eq!(p.value(), CONTACT);
        assert_eq!(p.value() as f32 / 8.0, 2.0);
        assert!(points[..i].iter().all(|q| (q.x(), q.y()) != (p.x(), p.y())));
    }
}

#[test]
fn each_link_joins_a_point_to_its_first_neighbour_in_probe_order() {
    for _ in 0..20 {
        let terrain = grown_terrain();
        let points = terrain.points();
        let links = terrain.links();
        for i in 1..points.len() {
            let link = links[i - 1];
            assert_eq!(link.p1(), points[i]);
            let (x, y) = first_neighbor(&points[..i], &points[i]).unwrap();
            assert_eq!(link.p2(), Point::new(x, y, CONTACT));
        }
    }
}

#[test]
fn init_without_budget_keeps_the_seed_and_fails() {
    let mut terrain = Terrain::new(2);
    terrain.set_budget(0);
    assert_eq!(terrain.init(), Err(GrowthError::OutOfSteps));
    assert_eq!(terrain.points(), &vec![Point::new(8, 8, CONTACT)]);
    assert!(terrain.links().is_empty());
    assert_eq!(terrain.budget(), 0);
}

#[test]
fn init_on_a_short_budget_fails_with_a_connected_part() {
    let mut terrain = Terrain::new(4);
    terrain.set_budget(40);
    let outcome = terrain.init();
    let points = terrain.points();
    assert_eq!(outcome.is_ok(), points.len() == 16);
    if outcome.is_err() {
        assert_eq!(terrain.budget(), 0);
    }
    assert!(terrain.budget() <= 40);
    for i in 1..points.len() {
        assert!(points[..i].iter().any(|q| adjacent(&points[i], q)));
    }
    assert_eq!(terrain.links().len() + 1, points.len());
}

#[test]
fn init_starts_over_on_a_grown_terrain() {
    let mut terrain = grown_terrain();
    terrain.set_budget(PLENTY);
    assert_eq!(terrain.init(), Ok(()));
    assert_eq!(terrain.points().len(), 16);
    assert_eq!(terrain.links().len(), 15);
    assert_eq!(terrain.points()[0], Point::new(8, 8, CONTACT));
}

#[test]
fn a_walker_that_starts_beside_the_cluster_settles_there() {
    let mut terrain = Terrain::new(2);
    let mut random = rand::rng();
    let mut cluster = Cluster::seeded(Point::new(8, 8, CONTACT));
    terrain.dla_pixel_move(&mut random, &mut cluster, Point::new(8, 9, 3));
    let (points, links) = cluster.into_parts();
    assert_eq!(points, vec![Point::new(8, 8, CONTACT), Point::new(8, 9, CONTACT)]);
    assert_eq!(links, vec![Link::new(Point::new(8, 9, CONTACT), Point::new(8, 8, CONTACT))]);
    assert_eq!(terrain.budget(), u64::MAX);
}

#[test]
fn a_walker_that_starts_on_the_cluster_is_discarded() {
    let mut terrain = Terrain::new(2);
    let mut random = rand::rng();
    let mut cluster = Cluster::seeded(Point::new(8, 8, CONTACT));
    terrain.dla_pixel_move(&mut random, &mut cluster, Point::new(8, 8, 3));
    let (points, links) = cluster.into_parts();
    assert_eq!(points, vec![Point::new(8, 8, CONTACT)]);
    assert!(links.is_empty());
}

#[test]
fn a_walker_without_budget_is_dropped_where_it_starts() {
    let mut terrain = Terrain::new(2);
    terrain.set_budget(0);
    let mut random = rand::rng();
    let mut cluster = Cluster::seeded(Point::new(8, 8, CONTACT));
    terrain.dla_pixel_move(&mut random, &mut cluster, Point::new(0, 0, 3));
    assert_eq!(cluster.len(), 1);
    assert_eq!(terrain.budget(), 0);
    assert_eq!(terrain.gsize(), 16);
    let (points, links) = cluster.into_parts();
    assert_eq!(points, vec![Point::new(8, 8, CONTACT)]);
    assert!(links.is_empty());
}

#[test]
fn a_walker_may_start_off_the_grid() {
    let mut terrain = Terrain::new(1);
    let mut random = rand::rng();
    let mut cluster = Cluster::seeded(Point::new(0, 3, CONTACT));
    terrain.dla_pixel_move(&mut random, &mut cluster, Point::new(-1, 3, 5));
    let (points, links) = cluster.into_parts();
    assert_eq!(points, vec![Point::new(0, 3, CONTACT), Point::new(-1, 3, CONTACT)]);
    assert_eq!(links, vec![Link::new(Point::new(-1, 3, CONTACT), Point::new(0, 3, CONTACT))]);
    let mut far = Cluster::seeded(Point::new(4, 4, CONTACT));
    terrain.set_budget(100_000);
    terrain.dla_pixel_move(&mut random, &mut far, Point::new(-20, 30, 5));
    let (points, _) = far.into_parts();
    if points.len() == 2 {
        assert!(adjacent(&points[1], &points[0]));
    } else {
        assert_eq!(terrain.budget(), 0);
    }
}

#[test]
fn walkers_of_the_first_growth_settle_all_over_the_grid() {
    let mut beyond = false;
    for _ in 0..200 {
        let mut terrain = Terrain::new(4);
        terrain.set_budget(PLENTY);
        assert_eq!(terrain.init(), Ok(()));
        assert_eq!(terrain.points()[0], Point::new(16, 16, CONTACT));
        for q in terrain.points() {
            assert!(0 <= q.x() && q.x() < 32 && 0 <= q.y() && q.y() < 32);
        }
        beyond = beyond || terrain.points().iter().any(|q| q.x() > 16 || q.y() > 16);
    }
    assert!(beyond);
}

#[test]
fn a_far_walker_ends_beside_the_cluster_or_runs_out() {
    for _ in 0..50 {
        let mut terrain = Terrain::new(1);
        terrain.set_budget(100_000);
        let mut random = rand::rng();
        let mut cluster = Cluster::seeded(Point::new(4, 4, CONTACT));
        terrain.dla_pixel_move(&mut random, &mut cluster, Point::new(0, 0, 3));
        let (points, links) = cluster.into_parts();
        if points.len() == 2 {
            assert!(adjacent(&points[1], &points[0]));
            assert!(0 <= points[1].x() && points[1].x() < 8 && 0 <= points[1].y() && points[1].y() < 8);
            assert_eq!(links, vec![Link::new(points[1], points[0])]);
        } else {
            assert_eq!(points.len(), 1);
            assert_eq!(terrain.budget(), 0);
        }
    }
}

#[test]
fn settling_on_an_occupied_cell_changes_nothing() {
    let mut cluster = Cluster::seeded(Point::new(8, 8, CONTACT));
    assert_eq!(cluster.settle(Point::new(8, 8, 1), true), Ok(false));
    assert_eq!(cluster.len(), 1);
}

#[test]
fn settling_beside_the_cluster_adds_point_and_link() {
    let mut cluster = Cluster::seeded(Point::new(8, 8, CONTACT));
    assert_eq!(cluster.settle(Point::new(7, 8, 1), true), Ok(true));
    assert_eq!(cluster.settle(Point::new(7, 7, 1), true), Ok(true));
    let (points, links) = cluster.into_parts();
    assert_eq!(
        points,
        vec![Point::new(8, 8, CONTACT), Point::new(7, 8, CONTACT), Point::new(7, 7, CONTACT)]
    );
    assert_eq!(
        links,
        vec![
            Link::new(Point::new(7, 8, CONTACT), Point::new(8, 8, CONTACT)),
            Link::new(Point::new(7, 7, CONTACT), Point::new(7, 8, CONTACT)),
        ]
    );
}

#[test]
fn settling_between_two_neighbours_links_to_plus_x() {
    let mut cluster = Cluster::seeded(Point::new(8, 8, CONTACT));
    assert_eq!(cluster.settle(Point::new(7, 8, 1), true), Ok(true));
    assert_eq!(cluster.settle(Point::new(6, 8, 1), true), Ok(true));
    assert_eq!(cluster.settle(Point::new(6, 7, 1), true), Ok(true));
    assert_eq!(cluster.settle(Point::new(7, 7, 1), true), Ok(true));
    let (_, links) = cluster.into_parts();
    assert_eq!(links[3], Link::new(Point::new(7, 7, CONTACT), Point::new(6, 7, CONTACT)));
}

#[test]
fn settling_away_from_the_cluster_is_refused() {
    let mut cluster = Cluster::seeded(Point::new(8, 8, CONTACT));
    assert_eq!(cluster.settle(Point::new(10, 8, 1), true), Err(LinkError::NoNeighbor));
    assert_eq!(cluster.settle(Point::new(9, 9, 1), false), Err(LinkError::NoNeighbor));
    assert_eq!(cluster.len(), 1);
}

#[test]
fn settling_without_links_adds_the_point_alone() {
    let mut cluster = Cluster::seeded(Point::new(8, 8, CONTACT));
    assert_eq!(cluster.settle(Point::new(8, 7, 1), false), Ok(true));
    let (points, links) = cluster.into_parts();
    assert_eq!(points.len(), 2);
    assert!(links.is_empty());
}

#[test]
fn resting_means_on_the_cluster_or_beside_it() {
    let cluster = Cluster::seeded(Point::new(8, 8, CONTACT));
    assert!(cluster.is_resting(&Point::new(8, 8, 0)));
    assert!(cluster.is_resting(&Point::new(9, 8, 0)));
    assert!(!cluster.is_resting(&Point::new(9, 9, 0)));
}

#[test]
fn adopted_points_are_all_occupied() {
    let points = vec![Point::new(1, 1, CONTACT), Point::new(3, 1, CONTACT)];
    let mut cluster = Cluster::adopt(points, Vec::new());
    assert_eq!(cluster.settle(Point::new(3, 1, 0), true), Ok(false));
    assert_eq!(cluster.settle(Point::new(2, 1, 0), true), Ok(true));
    let (points, links) = cluster.into_parts();
    assert_eq!(points.len(), 3);
    assert_eq!(links, vec![Link::new(Point::new(2, 1, CONTACT), Point::new(3, 1, CONTACT))]);
}

#[test]
fn an_empty_budget_is_told_in_words() {
    assert_eq!(
        GrowthError::OutOfSteps.message(),
        "The budget of random draws ran out before the target was reached"
    );
}

fn one_step_towards(start: (i32, i32), lands: (i32, i32)) -> (u32, u32) {
    let mut random = rand::rng();
    let (mut settled, mut dropped) = (0, 0);
    for _ in 0..400 {
        let mut cluster = Cluster::seeded(Point::new(4, 4, CONTACT));
        let mut budget: u64 = 1;
        cluster.admit_walker(&mut random, Point::new(start.0, start.1, 3), 8, &mut budget, true);
        assert_eq!(budget, 0);
        let (points, links) = cluster.into_parts();
        if points.len() == 2 {
            assert_eq!(points[1], Point::new(lands.0, lands.1, CONTACT));
            assert_eq!(links, vec![Link::new(points[1], points[0])]);
            settled += 1;
        } else {
            assert_eq!(points, vec![Point::new(4, 4, CONTACT)]);
            dropped += 1;
        }
    }
    (settled, dropped)
}

#[test]
fn a_walker_is_drawn_one_of_four_directions() {
    assert_eq!(direction_bound(), 4);
    assert_eq!(direction_bound(), DIRECTIONS);
    for (start, lands) in [((2, 4), (3, 4)), ((6, 4), (5, 4)), ((4, 2), (4, 3)), ((4, 6), (4, 5))] {
        let (settled, dropped) = one_step_towards(start, lands);
        assert!(settled > 0, "no walker went from {:?} to {:?}", start, lands);
        assert!(dropped > 0);
    }
}

#[test]
fn a_walker_pays_one_draw_for_each_step() {
    let mut random = rand::rng();
    for _ in 0..50 {
        let mut cluster = Cluster::seeded(Point::new(4, 4, CONTACT));
        let mut budget: u64 = 1_000_000;
        cluster.admit_walker(&mut random, Point::new(0, 0, 3), 8, &mut budget, false);
        let spent = 1_000_000 - budget;
        let (points, links) = cluster.into_parts();
        assert!(links.is_empty());
        assert_eq!(points.len(), 2);
        assert!(adjacent(&points[1], &points[0]));
        assert!(spent >= 7, "a walker eight cells away rested after {} steps", spent);
        assert_eq!(spent % 2, 1);
    }
}

#[test]
fn a_walker_at_rest_takes_no_draw() {
    let mut random = rand::rng();
    let mut cluster = Cluster::seeded(Point::new(4, 4, CONTACT));
    let mut budget: u64 = 10;
    cluster.admit_walker(&mut random, Point::new(4, 5, 3), 8, &mut budget, true);
    assert_eq!(budget, 10);
    cluster.admit_walker(&mut random, Point::new(4, 4, 3), 8, &mut budget, true);
    assert_eq!(budget, 10);
    let (points, links) = cluster.into_parts();
    assert_eq!(points, vec![Point::new(4, 4, CONTACT), Point::new(4, 5, CONTACT)]);
    assert_eq!(links.len(), 1);
}

#[test]
fn a_walker_that_finds_the_budget_empty_is_dropped() {
    let mut random = rand::rng();
    let mut cluster = Cluster::seeded(Point::new(4, 4, CONTACT));
    let mut budget: u64 = 0;
    cluster.admit_walker(&mut random, Point::new(0, 0, 3), 8, &mut budget, true);
    assert_eq!(budget, 0);
    assert_eq!(cluster.len(), 1);
    let mut budget: u64 = 3;
    cluster.admit_walker(&mut random, Point::new(0, 0, 3), 8, &mut budget, true);
    assert_eq!(budget, 0);
    assert_eq!(cluster.len(), 1);
}

#[test]
fn walkers_start_below_the_side_of_the_grid() {
    let terrain = Terrain::new(3);
    assert_eq!(terrain.spawn_bound(), 24);
    assert_eq!(terrain.spawn_bound(), terrain.gsize());
}
