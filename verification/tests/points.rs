use dla_terrain::point::{Link, LinkError, Point, CONTACT, TRACED};
use dla_terrain::position::PositionSet;

fn set_of(cells: &[(i32, i32)]) -> PositionSet {
    let mut set = PositionSet::new();
    for &(x, y) in cells {
        set.insert(x, y);
    }
    set
}

#[test]
fn point_keeps_what_it_was_made_with() {
    let mut p = Point::new(3, -4, 16);
    assert_eq!((p.x(), p.y(), p.value()), (3, -4, 16));
    p.set_value(8);
    assert_eq!((p.x(), p.y(), p.value()), (3, -4, 8));
}

#[test]
fn stepping_up_at_the_last_column_wraps_to_zero() {
    let mut p = Point::new(15, 7, CONTACT);
    p.add_x(1, 16);
    assert_eq!((p.x(), p.y()), (0, 7));
}

#[test]
fn stepping_down_at_column_zero_wraps_to_the_last() {
    let mut p = Point::new(0, 7, CONTACT);
    p.add_x(-1, 16);
    assert_eq!((p.x(), p.y()), (15, 7));
}

#[test]
fn stepping_along_y_wraps_at_both_ends() {
    let mut p = Point::new(5, 15, CONTACT);
    p.add_y(1, 16);
    assert_eq!((p.x(), p.y()), (5, 0));
    p.add_y(-1, 16);
    assert_eq!((p.x(), p.y()), (5, 15));
}

#[test]
fn stepping_inside_the_ring_just_moves() {
    let mut p = Point::new(5, 5, CONTACT);
    p.add_x(1, 16);
    p.add_y(-1, 16);
    assert_eq!((p.x(), p.y()), (6, 4));
}

#[test]
fn unit_steps_never_leave_the_ring() {
    for cap in 1..6 {
        for x in 0..cap {
            for y in 0..cap {
                for direction in 0..4 {
                    let mut p = Point::new(x, y, CONTACT);
                    p.step(direction, cap);
                    assert!(0 <= p.x() && p.x() < cap && 0 <= p.y() && p.y() < cap);
                }
            }
        }
    }
}

#[test]
fn step_directions_are_plus_x_minus_x_plus_y_minus_y() {
    let at = |direction: i32| {
        let mut p = Point::new(4, 4, CONTACT);
        p.step(direction, 16);
        (p.x(), p.y())
    };
    assert_eq!(at(0), (5, 4));
    assert_eq!(at(1), (3, 4));
    assert_eq!(at(2), (4, 5));
    assert_eq!(at(3), (4, 3));
}

#[test]
fn adding_past_the_integer_range_still_wraps() {
    let mut p = Point::new(i32::MAX, 0, CONTACT);
    p.add_x(1, 16);
    assert_eq!(p.x(), 0);
    let mut q = Point::new(i32::MIN, 0, CONTACT);
    q.add_x(-1, 16);
    assert_eq!(q.x(), 15);
}

#[test]
fn membership_goes_by_the_cell_alone() {
    let set = set_of(&[(2, 3)]);
    assert!(Point::new(2, 3, 99).is_in_position_set(&set));
    assert!(!Point::new(3, 2, 99).is_in_position_set(&set));
    assert!(!Point::new(-2, 3, 99).is_in_position_set(&set));
}

#[test]
fn position_set_insert_reports_fresh_cells() {
    let mut set = PositionSet::new();
    assert!(set.insert(1, 2));
    assert!(!set.insert(1, 2));
    assert!(set.insert(2, 1));
    assert!(set.insert(-1, -2));
    assert!(set.contains(1, 2) && set.contains(2, 1) && set.contains(-1, -2));
    assert!(!set.contains(-1, 2));
    assert!(set.insert(i32::MIN, i32::MAX));
    assert!(set.contains(i32::MIN, i32::MAX));
    assert!(!set.contains(i32::MAX, i32::MIN));
}

#[test]
fn touching_means_a_neighbour_along_one_axis() {
    let set = set_of(&[(5, 5)]);
    assert!(Point::new(4, 5, 0).is_touching_any(&set));
    assert!(Point::new(6, 5, 0).is_touching_any(&set));
    assert!(Point::new(5, 4, 0).is_touching_any(&set));
    assert!(Point::new(5, 6, 0).is_touching_any(&set));
    assert!(!Point::new(5, 5, 0).is_touching_any(&set));
    assert!(!Point::new(6, 6, 0).is_touching_any(&set));
    assert!(!Point::new(7, 5, 0).is_touching_any(&set));
}

#[test]
fn touching_at_the_edge_of_the_integer_range_is_no_overflow() {
    let set = set_of(&[(i32::MAX, 0)]);
    assert!(!Point::new(i32::MAX, 0, 0).is_touching_any(&set));
    assert!(Point::new(i32::MAX - 1, 0, 0).is_touching_any(&set));
    assert_eq!(Point::new(i32::MIN, i32::MIN, 0).find_link(&set), Err(LinkError::NoNeighbor));
}

#[test]
fn find_link_probes_plus_x_first() {
    let set = set_of(&[(6, 5), (4, 5), (5, 6), (5, 4)]);
    let p = Point::new(5, 5, 7);
    let link = p.find_link(&set).unwrap();
    assert_eq!(link.p1(), p);
    assert_eq!(link.p2(), Point::new(6, 5, CONTACT));
}

#[test]
fn find_link_probes_minus_x_then_plus_y_then_minus_y() {
    let p = Point::new(5, 5, 7);
    let link = p.find_link(&set_of(&[(4, 5), (5, 6), (5, 4)])).unwrap();
    assert_eq!(link.p2(), Point::new(4, 5, CONTACT));
    let link = p.find_link(&set_of(&[(5, 6), (5, 4)])).unwrap();
    assert_eq!(link.p2(), Point::new(5, 6, CONTACT));
    let link = p.find_link(&set_of(&[(5, 4)])).unwrap();
    assert_eq!(link.p2(), Point::new(5, 4, CONTACT));
}

#[test]
fn find_link_fails_without_a_neighbour() {
    let p = Point::new(5, 5, 7);
    assert_eq!(p.find_link(&set_of(&[(6, 6), (5, 5), (3, 5)])), Err(LinkError::NoNeighbor));
    assert_eq!(p.find_link(&PositionSet::new()), Err(LinkError::NoNeighbor));
}

#[test]
fn link_hands_back_its_ends() {
    let a = Point::new(1, 2, 3);
    let b = Point::new(4, 5, 6);
    let link = Link::new(a, b);
    assert_eq!(link.p1(), a);
    assert_eq!(link.p2(), b);
}

#[test]
fn tracing_a_column_downwards_covers_four_distinct_cells() {
    let link = Link::new(Point::new(3, 5, TRACED), Point::new(3, 2, TRACED));
    let traced = link.trace();
    let mut cells: Vec<(i32, i32)> = traced.iter().map(|p| (p.x(), p.y())).collect();
    cells.sort();
    cells.dedup();
    assert_eq!(cells, vec![(3, 2), (3, 3), (3, 4), (3, 5)]);
    assert_eq!(cells.len() as i32, (5i32 - 2).abs() + 1);
}

#[test]
fn tracing_lists_both_ends_and_then_the_run_in_ascending_order() {
    let a = Point::new(3, 5, 40);
    let b = Point::new(3, 2, 50);
    let traced = Link::new(a, b).trace();
    assert_eq!(
        traced,
        vec![
            Point::new(3, 5, TRACED),
            Point::new(3, 2, TRACED),
            Point::new(3, 2, TRACED),
            Point::new(3, 3, TRACED),
            Point::new(3, 4, TRACED),
            Point::new(3, 5, TRACED),
        ]
    );
}

#[test]
fn tracing_a_row_runs_along_x() {
    let a = Point::new(-1, 7, TRACED);
    let b = Point::new(1, 7, TRACED);
    let traced = Link::new(a, b).trace();
    assert_eq!(
        traced,
        vec![a, b, Point::new(-1, 7, TRACED), Point::new(0, 7, TRACED), Point::new(1, 7, TRACED)]
    );
}

#[test]
fn tracing_a_single_cell_gives_it_once_more() {
    let a = Point::new(2, 2, TRACED);
    assert_eq!(Link::new(a, a).trace(), vec![a, a, a]);
}

#[test]
fn tracing_ends_that_share_no_coordinate_gives_the_ends_alone() {
    let a = Point::new(0, 0, TRACED);
    let b = Point::new(2, 3, TRACED);
    assert_eq!(Link::new(a, b).trace(), vec![a, b]);
}

#[test]
fn a_missing_neighbour_is_told_in_words() {
    assert_eq!(LinkError::NoNeighbor.message(), "Can't find a valid point to create a Link");
}

#[test]
fn every_traced_point_has_the_placeholder_value() {
    let link = Link::new(Point::new(3, 5, 56), Point::new(3, 2, 72));
    let traced = link.trace();
    assert_eq!(traced.len(), 6);
    assert!(traced.iter().all(|p| p.value() == TRACED));
    assert!(traced.iter().all(|p| p.value() as f32 / 8.0 == 2.0));
    let skew = Link::new(Point::new(0, 0, 56), Point::new(2, 3, 72)).trace();
    assert_eq!(skew, vec![Point::new(0, 0, TRACED), Point::new(2, 3, TRACED)]);
}
