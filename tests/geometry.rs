use gridsight::angle::{degrees_apart, degrees_left, degrees_right};
use gridsight::geometry;
use gridsight::geometry::{circle, compass_degrees, sector_facing, Direction, GridPos};
use gridsight::grid::Bounds;
use std::collections::HashSet;

fn p(x: i32, y: i32) -> GridPos {
    GridPos::new(x, y, 0)
}

#[test]
fn line_stops_short_of_the_far_end() {
    assert_eq!(geometry::line(p(0, 0), p(3, 0)), vec![p(0, 0), p(1, 0), p(2, 0)]);
}

#[test]
fn line_interpolates_and_truncates() {
    assert_eq!(geometry::line(p(0, 0), p(2, 4)), vec![p(0, 0), p(0, 1), p(1, 2), p(1, 3)]);
    assert_eq!(geometry::line(p(0, 0), p(-3, -1)), vec![p(0, 0), p(-1, 0), p(-2, 0)]);
    assert_eq!(
        geometry::line(GridPos::new(1, 1, 0), GridPos::new(1, 3, 4)),
        vec![GridPos::new(1, 1, 0), GridPos::new(1, 2, 2)]
    );
}

#[test]
fn line_of_zero_length_is_empty() {
    assert!(geometry::line(p(4, 4), p(4, 4)).is_empty());
}

#[test]
fn circle_of_radius_one() {
    let b = Bounds { max_x: 20, max_y: 20 };
    let c: HashSet<GridPos> = circle(p(5, 5), 1, &b).into_iter().collect();
    let want: HashSet<GridPos> = vec![p(4, 5), p(5, 5)].into_iter().collect();
    assert_eq!(c, want);
}

#[test]
fn circle_of_radius_two() {
    let b = Bounds { max_x: 20, max_y: 20 };
    let c = circle(p(5, 5), 2, &b);
    let got: HashSet<GridPos> = c.iter().cloned().collect();
    assert_eq!(got.len(), c.len());
    let want: HashSet<GridPos> = vec![
        p(4, 4), p(5, 4),
        p(3, 5), p(4, 5), p(5, 5), p(6, 5),
        p(4, 6), p(5, 6),
    ]
    .into_iter()
    .collect();
    assert_eq!(got, want);
}

#[test]
fn circle_is_clipped_to_the_board() {
    let b = Bounds { max_x: 20, max_y: 20 };
    let c = circle(p(0, 0), 2, &b);
    assert!(c.iter().all(|q| q.x >= 0 && q.y >= 0));
    let got: HashSet<GridPos> = c.into_iter().collect();
    let want: HashSet<GridPos> = vec![p(0, 0), p(1, 0), p(0, 1)].into_iter().collect();
    assert_eq!(got, want);
}

#[test]
fn circle_of_radius_zero_is_its_centre() {
    let b = Bounds { max_x: 20, max_y: 20 };
    assert_eq!(circle(p(5, 5), 0, &b), vec![p(5, 5)]);
    assert_eq!(circle(p(0, 20), 0, &b), vec![p(0, 20)]);
    assert!(circle(p(21, 5), 0, &b).is_empty());
    assert!(circle(p(-1, 5), 0, &b).is_empty());
}

#[test]
fn circle_of_negative_radius_is_empty() {
    let b = Bounds { max_x: 20, max_y: 20 };
    assert!(circle(p(5, 5), -3, &b).is_empty());
    assert!(circle(p(5, 5), -1, &b).is_empty());
}

#[test]
fn circle_grows_with_radius() {
    let b = Bounds { max_x: 30, max_y: 30 };
    for r1 in 0..6 {
        for r2 in r1..7 {
            let small: HashSet<GridPos> = circle(p(10, 12), r1, &b).into_iter().collect();
            let large: HashSet<GridPos> = circle(p(10, 12), r2, &b).into_iter().collect();
            assert!(small.is_subset(&large));
        }
    }
}

#[test]
fn sector_is_a_subset_of_its_region() {
    let b = Bounds { max_x: 30, max_y: 30 };
    let c = p(10, 10);
    let region = circle(c, 5, &b);
    let all: HashSet<GridPos> = region.iter().cloned().collect();
    for d in [
        Direction::North,
        Direction::NorthEast,
        Direction::East,
        Direction::SouthEast,
        Direction::South,
        Direction::SouthWest,
        Direction::West,
        Direction::NorthWest,
    ] {
        let s = sector_facing(d, &c, region.clone());
        assert!(!s.is_empty());
        assert!(s.iter().all(|q| all.contains(q)));
    }
}

#[test]
fn sector_facing_east_keeps_the_east_wedge() {
    let c = p(0, 0);
    let region = vec![p(1, 0), p(2, 2), p(2, -2), p(1, 2), p(-1, 0), p(0, 0), p(0, 3)];
    assert_eq!(sector_facing(Direction::East, &c, region), vec![p(1, 0), p(2, 2), p(2, -2)]);
}

#[test]
fn sector_facing_north_does_not_wrap_past_zero() {
    let c = p(0, 0);
    // bearing of (-1, 10) is about 354 degrees: within 45 of North, yet left out
    let region = vec![p(-1, 10), p(1, 10), p(0, 5)];
    assert_eq!(sector_facing(Direction::North, &c, region.clone()), vec![p(1, 10), p(0, 5)]);
    assert_eq!(sector_facing(Direction::NorthWest, &c, region), vec![p(-1, 10)]);
}

#[test]
fn compass_headings() {
    assert_eq!(compass_degrees(Direction::North), 0);
    assert_eq!(compass_degrees(Direction::East), 90);
    assert_eq!(compass_degrees(Direction::South), 180);
    assert_eq!(compass_degrees(Direction::West), 270);
    assert_eq!(compass_degrees(Direction::NorthWest), 315);
}

#[test]
fn degree_wraparound() {
    assert_eq!(degrees_left(350, 10), 20);
    assert_eq!(degrees_right(350, 10), 340);
    assert_eq!(degrees_apart(350, 10), 20);
    assert_eq!(degrees_apart(10, 350), 20);
    assert_eq!(degrees_left(0, -90), 270);
    assert_eq!(degrees_right(0, -90), 90);
    assert_eq!(degrees_left(10, 10), 0);
    assert_eq!(degrees_apart(0, 180), 180);
    assert_eq!(degrees_left(0, 720), 0);
}
