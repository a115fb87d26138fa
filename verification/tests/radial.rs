use dla_terrain::generation::{Terrain, PROVISIONAL, SUMMIT};
use dla_terrain::point::Point;
use dla_terrain::tile::Tile;

#[test]
fn radial_terrain_keeps_the_side_it_was_made_with() {
    let terrain = Terrain::new(12);
    assert_eq!(terrain.gsize(), 12);
    assert!(terrain.points().is_empty());
    assert_eq!(terrain.budget(), u64::MAX);
}

#[test]
fn radial_growth_gives_the_seed_and_then_connected_walkers() {
    for _ in 0..10 {
        let mut terrain = Terrain::new(12);
        terrain.set_budget(50_000_000);
        let cluster = terrain.dla(20);
        assert!(terrain.points().is_empty());
        assert_eq!(cluster.gsize(), 12);
        let points = cluster.points();
        assert_eq!(points.len(), 20);
        assert_eq!(points[0], Point::new(6, 6, SUMMIT));
        assert_eq!(points[0].value() as f32 / 8.0, 50.0);
        for i in 1..points.len() {
            assert_eq!(points[i].value(), PROVISIONAL);
            assert_eq!(points[i].value() as f32 / 8.0, 100.0);
            assert!(0 <= points[i].x() && points[i].x() < 12 && 0 <= points[i].y() && points[i].y() < 12);
            assert!(points[..i]
                .iter()
                .any(|q| (q.x() - points[i].x()).abs() + (q.y() - points[i].y()).abs() == 1));
            assert!(points[..i].iter().all(|q| (q.x(), q.y()) != (points[i].x(), points[i].y())));
        }
        assert_eq!(cluster.budget(), terrain.budget());
    }
}

#[test]
fn radial_growth_of_nothing_still_has_the_seed() {
    let mut terrain = Terrain::new(5);
    let cluster = terrain.dla(0);
    assert_eq!(cluster.points(), &vec![Point::new(2, 2, SUMMIT)]);
    assert_eq!(terrain.budget(), u64::MAX);
}

#[test]
fn radial_growth_without_budget_stays_short() {
    let mut terrain = Terrain::new(8);
    terrain.set_budget(0);
    let cluster = terrain.dla(5);
    assert_eq!(cluster.points(), &vec![Point::new(4, 4, SUMMIT)]);
    assert_eq!(terrain.budget(), 0);
}

#[test]
fn radial_completion_covers_the_grid_and_keeps_its_source() {
    let mut terrain = Terrain::new(6);
    terrain.set_budget(50_000_000);
    let mut cluster = terrain.dla(4);
    let completed = cluster.complete_pattern();
    assert_eq!(cluster.points().len(), 4);
    assert_eq!(completed.points().len(), 36);
    assert_eq!(&completed.points()[..4], &cluster.points()[..]);
    assert!(completed.points()[4..].iter().all(|q| q.value() == 8));
    let mut cells: Vec<(i32, i32)> = completed.points().iter().map(|q| (q.x(), q.y())).collect();
    cells.sort();
    cells.dedup();
    assert_eq!(cells.len(), 36);
}

#[test]
fn radial_tiles_have_no_texture() {
    let mut terrain = Terrain::new(4);
    let cluster = terrain.dla(1);
    let tiles = cluster.values_as_tile_vector();
    assert_eq!(tiles, vec![Tile::new(2, 2, 0, 0, SUMMIT)]);
}

#[test]
fn radial_walkers_start_below_the_side_of_the_grid() {
    let terrain = Terrain::new(12);
    assert_eq!(terrain.spawn_bound(), 12);
}

#[test]
fn radial_walkers_settle_all_over_the_grid() {
    let (mut low, mut high) = (false, false);
    for _ in 0..100 {
        let mut terrain = Terrain::new(12);
        terrain.set_budget(50_000_000);
        let cluster = terrain.dla(12);
        assert_eq!(cluster.points().len(), 12);
        low = low || cluster.points().iter().any(|q| q.x() < 6 || q.y() < 6);
        high = high || cluster.points().iter().any(|q| q.x() > 6 || q.y() > 6);
    }
    assert!(low && high);
}
