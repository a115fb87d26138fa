use dla_terrain::fill::{fill_grid, FILLER};
use dla_terrain::height::{height_for, FLOOR, PEAK};
use dla_terrain::search::{graph_distances, UNVISITED};
use dla_terrain::point::{Link, Point, CONTACT, TRACED};
use dla_terrain::position::key_of;
use dla_terrain::terrain::{GrowthError, Terrain};
use dla_terrain::tile::Tile;
use dla_terrain::uvs::{base_black, glow_yellow, mirror_black, UV};
use dla_terrain::writer::{encode_all, encode_tile, RawTile, RECORD_BYTES};

const PLENTY: u64 = 50_000_000;

fn p(x: i32, y: i32) -> Point {
    Point::new(x, y, CONTACT)
}

fn cells_of(points: &[Point]) -> Vec<(i32, i32)> {
    points.iter().map(|q| (q.x(), q.y())).collect()
}

fn raw(tile: &Tile) -> RawTile {
    RawTile {
        posx: tile.posx(),
        posy: tile.posy(),
        u: (tile.u() as f32 / 1_000_000.0).to_bits(),
        v: (tile.v() as f32 / 1_000_000.0).to_bits(),
        height: (tile.height() as f32 / 8.0).to_bits(),
    }
}

fn snake(side: i32) -> Vec<Point> {
    let mut points = Vec::new();
    for x in 0..side {
        for k in 0..side {
            let y = if x % 2 == 0 { k } else { side - 1 - k };
            points.push(p(x, y));
        }
    }
    points
}

fn corridor(side: i32) -> Vec<Point> {
    let mut points = Vec::new();
    let mut x = 0;
    while x < side {
        let upwards = (x / 2) % 2 == 0;
        for k in 0..side {
            points.push(p(x, if upwards { k } else { side - 1 - k }));
        }
        if x + 2 < side {
            points.push(p(x + 1, if upwards { side - 1 } else { 0 }));
        }
        x += 2;
    }
    points
}

#[test]
fn from_parts_takes_well_formed_parts() {
    let points = vec![p(1, 1), p(2, 1)];
    let links = vec![Link::new(p(2, 1), p(1, 1))];
    let terrain = Terrain::from_parts(8, points.clone(), links.clone()).unwrap();
    assert_eq!(terrain.gsize(), 8);
    assert_eq!(terrain.points(), &points);
    assert_eq!(terrain.links(), &links);
    assert_eq!(terrain.budget(), u64::MAX);
}

#[test]
fn from_parts_refuses_what_is_not_well_formed() {
    assert!(Terrain::from_parts(0, vec![], vec![]).is_none());
    assert!(Terrain::from_parts(-4, vec![], vec![]).is_none());
    assert!(Terrain::from_parts(1, vec![p(0, 0)], vec![]).is_some());
    assert!(Terrain::from_parts(7, vec![], vec![]).is_some());
    assert!(Terrain::from_parts(8, vec![p(1, 1), p(1, 1)], vec![]).is_none());
    assert!(Terrain::from_parts(8, vec![p(8, 1)], vec![]).is_none());
    assert!(Terrain::from_parts(8, vec![p(1, -1)], vec![]).is_none());
    assert!(Terrain::from_parts(8, vec![], vec![Link::new(p(1, 1), p(2, 2))]).is_none());
    assert!(Terrain::from_parts(8, vec![], vec![Link::new(p(1, 1), p(1, 8))]).is_none());
    assert!(Terrain::from_parts(8, vec![], vec![Link::new(p(1, 1), p(1, 7))]).is_some());
}

#[test]
fn upscale_doubles_the_grid_and_every_link_end() {
    let links = vec![Link::new(p(5, 4), p(4, 4)), Link::new(p(5, 5), p(5, 4)), Link::new(p(3, 4), p(4, 4))];
    let points = vec![p(4, 4), p(5, 4), p(5, 5), p(3, 4)];
    let mut terrain = Terrain::from_parts(8, points, links.clone()).unwrap();
    terrain.upscale();
    assert_eq!(terrain.gsize(), 16);
    assert_eq!(terrain.links().len(), links.len());
    for (old, new) in links.iter().zip(terrain.links()) {
        assert_eq!(new.p1(), Point::new(2 * old.p1().x(), 2 * old.p1().y(), TRACED));
        assert_eq!(new.p2(), Point::new(2 * old.p2().x(), 2 * old.p2().y(), TRACED));
    }
}

#[test]
fn upscale_traces_each_cell_once_in_the_order_it_comes_up() {
    let links = vec![Link::new(p(5, 4), p(4, 4)), Link::new(p(5, 5), p(5, 4)), Link::new(p(3, 4), p(4, 4))];
    let points = vec![p(4, 4), p(5, 4), p(5, 5), p(3, 4)];
    let mut terrain = Terrain::from_parts(8, points, links).unwrap();
    terrain.upscale();
    assert_eq!(
        cells_of(terrain.points()),
        vec![(10, 8), (8, 8), (9, 8), (10, 10), (10, 9), (6, 8), (7, 8)]
    );
    assert!(terrain.points().iter().all(|q| q.value() == TRACED));
    assert!(terrain.points().iter().all(|q| q.value() as f32 / 8.0 == 2.0));
}

#[test]
fn upscale_on_a_small_grid_traces_both_links() {
    let links = vec![Link::new(p(1, 1), p(1, 0)), Link::new(p(2, 1), p(1, 1))];
    let mut terrain = Terrain::from_parts(4, vec![], links).unwrap();
    terrain.upscale();
    assert_eq!(terrain.gsize(), 8);
    assert_eq!(terrain.links().len(), 2);
    assert_eq!(terrain.points().len(), 5);
    let mut cells = cells_of(terrain.points());
    cells.sort();
    assert_eq!(cells, vec![(2, 0), (2, 1), (2, 2), (3, 2), (4, 2)]);
}

#[test]
fn upscale_resets_the_value_of_link_ends() {
    let links = vec![Link::new(Point::new(1, 1, 56), Point::new(1, 0, 72))];
    let mut terrain = Terrain::from_parts(4, vec![], links).unwrap();
    terrain.upscale();
    assert_eq!(terrain.links()[0], Link::new(Point::new(2, 2, TRACED), Point::new(2, 0, TRACED)));
    assert!(terrain.points().iter().all(|q| q.value() == TRACED));
}

#[test]
fn upscale_without_links_leaves_no_points() {
    let mut terrain = Terrain::from_parts(8, vec![p(4, 4)], vec![]).unwrap();
    terrain.upscale();
    assert_eq!(terrain.gsize(), 16);
    assert!(terrain.points().is_empty());
}

#[test]
fn crisp_layer_grows_to_twice_the_points_and_two() {
    let links = vec![Link::new(p(10, 8), p(8, 8))];
    let points = vec![p(10, 8), p(8, 8), p(9, 8)];
    let mut terrain = Terrain::from_parts(16, points.clone(), links.clone()).unwrap();
    terrain.set_budget(PLENTY);
    assert!(terrain.add_crisp_layer());
    assert_eq!(terrain.points().len(), (3 + 1) * 2);
    assert_eq!(terrain.links().len(), 1 + 5);
    assert_eq!(&terrain.points()[..3], &points[..]);
    assert_eq!(&terrain.links()[..1], &links[..]);
    let all = terrain.points();
    for i in 3..all.len() {
        assert!(all[..i].iter().any(|q| (q.x() - all[i].x()).abs() + (q.y() - all[i].y()).abs() == 1));
        assert_eq!(terrain.links()[i - 2].p1(), all[i]);
    }
    assert_eq!(terrain.gsize(), 16);
}

#[test]
fn crisp_layer_without_budget_changes_nothing() {
    let points = vec![p(10, 8), p(8, 8), p(9, 8)];
    let mut terrain = Terrain::from_parts(16, points.clone(), vec![]).unwrap();
    terrain.set_budget(0);
    assert!(!terrain.add_crisp_layer());
    assert_eq!(terrain.points(), &points);
}

#[test]
fn one_cycle_doubles_the_grid_and_regrows() {
    let mut terrain = Terrain::new(2);
    terrain.set_budget(PLENTY);
    assert_eq!(terrain.init(), Ok(()));
    assert_eq!(terrain.upscale_n(1), Ok(()));
    assert_eq!(terrain.gsize(), 32);
    let points = terrain.points();
    assert_eq!(points.len(), 64);
    assert_eq!(terrain.links().len(), 48);
    assert!(points.iter().any(|q| (q.x(), q.y()) == (16, 16)));
    for (i, q) in points.iter().enumerate() {
        assert!(0 <= q.x() && q.x() < 32 && 0 <= q.y() && q.y() < 32);
        assert!(points[..i].iter().all(|r| (r.x(), r.y()) != (q.x(), q.y())));
    }
}

#[test]
fn three_cycles_give_eight_times_the_side() {
    let mut terrain = Terrain::new(1);
    terrain.set_budget(PLENTY);
    assert_eq!(terrain.init(), Ok(()));
    assert_eq!(terrain.upscale_n(3), Ok(()));
    assert_eq!(terrain.gsize(), 64);
    assert_eq!(terrain.points().len(), 16 * 4 * 4 * 4);
    assert_eq!(terrain.links().len(), 15 + (64 - 31) + (256 - 127) + (1024 - 511));
    let before = terrain.points().len();
    terrain.evaluate_height((32, 32));
    assert_eq!(terrain.points().len(), before);
}

#[test]
fn no_cycle_changes_nothing() {
    let points = vec![p(4, 4), p(5, 4)];
    let links = vec![Link::new(p(5, 4), p(4, 4))];
    let mut terrain = Terrain::from_parts(8, points.clone(), links.clone()).unwrap();
    assert_eq!(terrain.upscale_n(0), Ok(()));
    assert_eq!(terrain.upscale_n(-3), Ok(()));
    assert_eq!(terrain.gsize(), 8);
    assert_eq!(terrain.points(), &points);
    assert_eq!(terrain.links(), &links);
}

#[test]
fn cycles_without_budget_still_double_the_side() {
    let points = vec![p(4, 4), p(5, 4)];
    let links = vec![Link::new(p(5, 4), p(4, 4))];
    let mut terrain = Terrain::from_parts(8, points.clone(), links.clone()).unwrap();
    terrain.set_budget(0);
    assert_eq!(terrain.upscale_n(1), Err(GrowthError::OutOfSteps));
    assert_eq!(terrain.gsize(), 16);
    assert_eq!(cells_of(terrain.points()), vec![(10, 8), (8, 8), (9, 8)]);
    let mut terrain = Terrain::from_parts(8, points, links).unwrap();
    terrain.set_budget(0);
    assert_eq!(terrain.upscale_n(2), Err(GrowthError::OutOfSteps));
    assert_eq!(terrain.gsize(), 32);
    assert_eq!(
        cells_of(terrain.points()),
        vec![(20, 16), (16, 16), (17, 16), (18, 16), (19, 16)]
    );
    assert_eq!(terrain.links(), &vec![Link::new(Point::new(20, 16, TRACED), Point::new(16, 16, TRACED))]);
    assert_eq!(terrain.budget(), 0);
}

#[test]
fn the_side_after_n_cycles_is_the_side_times_two_to_the_n() {
    for n in 0..6 {
        let mut terrain = Terrain::from_parts(3, vec![p(1, 1)], vec![]).unwrap();
        terrain.set_budget(0);
        let outcome = terrain.upscale_n(n);
        assert_eq!(outcome.is_ok(), n == 0);
        assert_eq!(terrain.gsize(), 3 * (1 << n));
    }
}

#[test]
fn height_is_thirty_two_units_at_the_origin_and_an_eighth_less_per_step() {
    let points = vec![p(4, 4), p(5, 4), p(6, 4), p(6, 5), p(1, 1)];
    let mut terrain = Terrain::from_parts(8, points, vec![]).unwrap();
    terrain.evaluate_height((4, 4));
    assert_eq!(
        terrain.points(),
        &vec![
            Point::new(4, 4, 256),
            Point::new(5, 4, 255),
            Point::new(6, 4, 254),
            Point::new(6, 5, 253),
        ]
    );
    let heights: Vec<f32> = terrain.points().iter().map(|q| q.value() as f32 / 8.0).collect();
    assert_eq!(heights, vec![32.0, 31.875, 31.75, 31.625]);
}

#[test]
fn heights_on_a_small_grid_drop_the_point_that_stands_apart() {
    let points = vec![p(0, 0), p(1, 0), p(3, 0), p(1, 1)];
    let mut terrain = Terrain::from_parts(4, points, vec![]).unwrap();
    terrain.evaluate_height((0, 0));
    assert_eq!(
        terrain.points(),
        &vec![Point::new(0, 0, 256), Point::new(1, 0, 255), Point::new(1, 1, 254)]
    );
    let heights: Vec<f32> = terrain.points().iter().map(|q| q.value() as f32 / 8.0).collect();
    assert_eq!(heights, vec![32.0, 31.875, 31.75]);
}

#[test]
fn heights_round_a_ring_go_both_ways() {
    let ring = vec![p(0, 0), p(1, 0), p(2, 0), p(2, 1), p(2, 2), p(1, 2), p(0, 2), p(0, 1)];
    let mut terrain = Terrain::from_parts(4, ring, vec![]).unwrap();
    terrain.evaluate_height((0, 0));
    let values: Vec<i32> = terrain.points().iter().map(|q| q.value()).collect();
    assert_eq!(values, vec![256, 255, 254, 253, 252, 253, 254, 255]);
    let far = terrain.points().iter().find(|q| (q.x(), q.y()) == (2, 2)).unwrap();
    assert_eq!(far.value() as f32 / 8.0, 31.5);
}

#[test]
fn a_free_centre_on_a_small_grid_leaves_no_point() {
    let mut terrain = Terrain::from_parts(4, vec![p(0, 0), p(1, 0)], vec![]).unwrap();
    terrain.evaluate_height((3, 3));
    assert!(terrain.points().is_empty());
}

#[test]
fn completion_of_the_smallest_grids() {
    let mut terrain = Terrain::from_parts(2, vec![Point::new(1, 0, 256)], vec![]).unwrap();
    terrain.complete_pattern();
    assert_eq!(
        terrain.points(),
        &vec![
            Point::new(1, 0, 256),
            Point::new(0, 0, FILLER),
            Point::new(0, 1, FILLER),
            Point::new(1, 1, FILLER),
        ]
    );
    assert_eq!(terrain.gsize(), 2);
    let mut one = Terrain::from_parts(1, vec![], vec![]).unwrap();
    one.complete_pattern();
    assert_eq!(one.points(), &vec![Point::new(0, 0, FILLER)]);
}

#[test]
fn height_goes_by_the_shortest_path() {
    let ring = vec![p(1, 1), p(2, 1), p(3, 1), p(3, 2), p(3, 3), p(2, 3), p(1, 3), p(1, 2)];
    let mut terrain = Terrain::from_parts(8, ring, vec![]).unwrap();
    terrain.evaluate_height((1, 1));
    let values: Vec<i32> = terrain.points().iter().map(|q| q.value()).collect();
    assert_eq!(values, vec![256, 255, 254, 253, 252, 253, 254, 255]);
}

#[test]
fn points_that_no_path_reaches_are_dropped() {
    let points = vec![p(0, 0), p(2, 2), p(2, 3), p(1, 1), p(7, 7)];
    let mut terrain = Terrain::from_parts(8, points, vec![Link::new(p(2, 3), p(2, 2))]).unwrap();
    terrain.evaluate_height((2, 2));
    assert_eq!(terrain.points(), &vec![Point::new(2, 2, 256), Point::new(2, 3, 255)]);
    assert_eq!(terrain.links().len(), 1);
    assert_eq!(terrain.gsize(), 8);
}

#[test]
fn nothing_is_reached_from_a_free_centre() {
    let mut terrain = Terrain::from_parts(8, vec![p(0, 0), p(0, 1)], vec![]).unwrap();
    terrain.evaluate_height((3, 3));
    assert!(terrain.points().is_empty());
}

#[test]
fn height_never_rises_with_distance_and_stops_at_one_unit() {
    let mut terrain = Terrain::from_parts(32, corridor(32), vec![]).unwrap();
    terrain.evaluate_height((0, 0));
    let points = terrain.points();
    assert_eq!(points.len(), 16 * 32 + 15);
    for (d, q) in points.iter().enumerate() {
        assert_eq!(q.value(), std::cmp::max(8, 256 - d as i32));
        let expected = (32.0f32 - d as f32 / 8.0).max(1.0);
        assert_eq!(q.value() as f32 / 8.0, expected);
    }
    for pair in points.windows(2) {
        assert!(pair[0].value() >= pair[1].value());
    }
    assert_eq!(points[247].value(), 9);
    assert_eq!(points[248].value(), 8);
    assert_eq!(points[526].value(), 8);
}

#[test]
fn on_a_full_grid_distance_is_the_sum_of_both_offsets() {
    let mut terrain = Terrain::from_parts(16, snake(16), vec![]).unwrap();
    terrain.evaluate_height((8, 8));
    assert_eq!(terrain.points().len(), 256);
    for q in terrain.points() {
        assert_eq!(q.value(), 256 - (q.x() - 8).abs() - (q.y() - 8).abs());
    }
}

#[test]
fn height_formula_at_chosen_distances() {
    assert_eq!(height_for(0), PEAK);
    assert_eq!(height_for(0), 256);
    assert_eq!(height_for(1), 255);
    assert_eq!(height_for(8), 248);
    assert_eq!(height_for(247), 9);
    assert_eq!(height_for(248), FLOOR);
    assert_eq!(height_for(249), 8);
    assert_eq!(height_for(i64::MAX), 8);
}

#[test]
fn distances_mark_what_is_connected_and_leave_the_rest_unvisited() {
    let points = vec![p(0, 0), p(1, 0), p(1, 1), p(5, 5)];
    let dist = graph_distances(&points, (0, 0));
    assert_eq!(dist.len(), 4);
    assert_eq!(dist[&key_of(0, 0)], 0);
    assert_eq!(dist[&key_of(1, 0)], 1);
    assert_eq!(dist[&key_of(1, 1)], 2);
    assert_eq!(dist[&key_of(5, 5)], UNVISITED);
    let none = graph_distances(&points, (9, 9));
    assert!(none.values().all(|&d| d == UNVISITED));
}

#[test]
fn completion_puts_one_point_on_every_cell() {
    let points = vec![Point::new(4, 4, 256), Point::new(0, 1, 255)];
    let mut terrain = Terrain::from_parts(8, points.clone(), vec![]).unwrap();
    terrain.complete_pattern();
    let all = terrain.points();
    assert_eq!(all.len(), 8 * 8);
    assert_eq!(&all[..2], &points[..]);
    let mut cells = cells_of(all);
    cells.sort();
    cells.dedup();
    assert_eq!(cells.len(), 64);
    assert!(all[2..].iter().all(|q| q.value() == FILLER));
    assert!(all[2..].iter().all(|q| q.value() as f32 / 8.0 == 1.0));
    assert_eq!((all[2].x(), all[2].y()), (0, 0));
    assert_eq!((all[3].x(), all[3].y()), (0, 2));
    assert_eq!((all[63].x(), all[63].y()), (7, 7));
    for pair in all[2..].windows(2) {
        assert!((pair[0].x(), pair[0].y()) < (pair[1].x(), pair[1].y()));
    }
}

#[test]
fn completing_a_full_grid_adds_nothing() {
    let mut terrain = Terrain::from_parts(8, snake(8), vec![]).unwrap();
    terrain.complete_pattern();
    assert_eq!(terrain.points(), &snake(8));
}

#[test]
fn fill_grid_goes_row_after_row() {
    let filled = fill_grid(vec![p(1, 0)], 2);
    assert_eq!(
        filled,
        vec![p(1, 0), Point::new(0, 0, FILLER), Point::new(0, 1, FILLER), Point::new(1, 1, FILLER)]
    );
    assert_eq!(fill_grid(vec![p(1, 0)], 0), vec![p(1, 0)]);
    assert_eq!(fill_grid(vec![], -3), vec![]);
}

#[test]
fn tiles_take_the_active_texture_above_one_unit() {
    let points = vec![Point::new(1, 2, 256), Point::new(3, 4, 9), Point::new(5, 6, 8), Point::new(7, 7, 0)];
    let terrain = Terrain::from_parts(8, points, vec![]).unwrap();
    let tiles = terrain.values_as_tile_vector();
    assert_eq!(
        tiles,
        vec![
            Tile::new(1, 2, 523438, 367188, 256),
            Tile::new(3, 4, 523438, 367188, 9),
            Tile::new(5, 6, 804688, 734375, 8),
            Tile::new(7, 7, 804688, 734375, 0),
        ]
    );
    assert_eq!(tiles[0].u() as f32 / 1_000_000.0, 0.523438);
    assert_eq!(tiles[0].v() as f32 / 1_000_000.0, 0.367188);
    assert_eq!(tiles[2].u() as f32 / 1_000_000.0, 0.804688);
    assert_eq!(tiles[2].v() as f32 / 1_000_000.0, 0.734375);
    assert_eq!(tiles[0].height() as f32 / 8.0, 32.0);
}

#[test]
fn tile_hands_back_its_fields() {
    let tile = Tile::new(1, -2, 3, 4, 5);
    assert_eq!((tile.posx(), tile.posy(), tile.u(), tile.v(), tile.height()), (1, -2, 3, 4, 5));
}

#[test]
fn palette_holds_three_pairs() {
    assert_eq!(glow_yellow(), UV { u: 523438, v: 367188 });
    assert_eq!(base_black(), UV { u: 367188, v: 23438 });
    assert_eq!(mirror_black(), UV { u: 804688, v: 734375 });
    assert_eq!(base_black().v as f32 / 1_000_000.0, 0.023438);
}

#[test]
fn a_record_is_five_little_endian_words() {
    let tile = RawTile { posx: 1, posy: -2, u: 0.5f32.to_bits(), v: 0x0102_0304, height: 32.0f32.to_bits() };
    let bytes = encode_tile(&tile);
    assert_eq!(bytes.len(), RECORD_BYTES);
    assert_eq!(
        bytes,
        vec![
            0x01, 0x00, 0x00, 0x00, 0xfe, 0xff, 0xff, 0xff, 0x00, 0x00, 0x00, 0x3f, 0x04, 0x03, 0x02,
            0x01, 0x00, 0x00, 0x00, 0x42,
        ]
    );
    let mut expected = Vec::new();
    expected.extend_from_slice(&1i32.to_le_bytes());
    expected.extend_from_slice(&(-2i32).to_le_bytes());
    expected.extend_from_slice(&0.5f32.to_le_bytes());
    expected.extend_from_slice(&0x0102_0304u32.to_le_bytes());
    expected.extend_from_slice(&32.0f32.to_le_bytes());
    assert_eq!(bytes, expected);
}

#[test]
fn records_follow_each_other_without_header() {
    let a = RawTile { posx: i32::MIN, posy: i32::MAX, u: 0, v: u32::MAX, height: 7 };
    let b = RawTile { posx: 3, posy: 4, u: 5, v: 6, height: 7 };
    let bytes = encode_all(&vec![a, b]);
    assert_eq!(bytes.len(), 40);
    assert_eq!(&bytes[..20], &encode_tile(&a)[..]);
    assert_eq!(&bytes[20..], &encode_tile(&b)[..]);
    assert_eq!(&bytes[..4], &[0x00, 0x00, 0x00, 0x80]);
    assert_eq!(&bytes[4..8], &[0xff, 0xff, 0xff, 0x7f]);
    assert!(encode_all(&vec![]).is_empty());
}

#[test]
fn the_whole_pipeline_gives_one_tile_for_each_cell() {
    let mut terrain = Terrain::new(2);
    terrain.set_budget(PLENTY);
    assert_eq!(terrain.gsize(), 16);
    assert_eq!(terrain.init(), Ok(()));
    assert_eq!(terrain.points().len(), 16);
    assert_eq!(terrain.upscale_n(1), Ok(()));
    assert_eq!(terrain.gsize(), 32);
    let center = (terrain.gsize() / 2, terrain.gsize() / 2);
    terrain.evaluate_height(center);
    assert!(terrain.points().iter().any(|q| (q.x(), q.y(), q.value()) == (16, 16, 256)));
    terrain.complete_pattern();
    let tiles = terrain.values_as_tile_vector();
    assert_eq!(tiles.len(), 32 * 32);
    assert_eq!(tiles.len(), 1024);
    let records: Vec<RawTile> = tiles.iter().map(raw).collect();
    let bytes = encode_all(&records);
    assert_eq!(bytes.len(), 1024 * 20);
    assert_eq!(bytes.len(), 20480);
    assert_eq!(bytes.len() / RECORD_BYTES, tiles.len());
}

#[test]
fn after_growth_and_upscale_every_point_is_connected_to_the_centre() {
    let mut terrain = Terrain::new(2);
    terrain.set_budget(PLENTY);
    assert_eq!(terrain.init(), Ok(()));
    assert_eq!(terrain.upscale_n(1), Ok(()));
    let before = terrain.points().len();
    terrain.evaluate_height((16, 16));
    assert_eq!(terrain.points().len(), before);
    assert!(terrain.points().iter().all(|q| 8 <= q.value() && q.value() <= 256));
}
