use gridsight::grid::Bounds;
use gridsight::shadowcast::{compute_fov_2d_recursive, Cardinal, Quadrant, VIEW_DEPTH};
use std::collections::{HashMap, HashSet};

fn fov(origin: [i32; 2], walls: &Vec<[i32; 2]>, bounds: &Bounds) -> HashSet<[i32; 2]> {
    compute_fov_2d_recursive(origin, walls, bounds).into_iter().collect()
}

#[test]
fn fov_is_symmetric_around_a_corner_wall() {
    let bounds = Bounds { max_x: 24, max_y: 24 };
    let walls = vec![[12, 12], [13, 12], [14, 12], [12, 13], [12, 14]];
    let blocked: HashSet<[i32; 2]> = walls.iter().cloned().collect();
    let mut seen_from: HashMap<[i32; 2], HashSet<[i32; 2]>> = HashMap::new();
    for x in 0..=24 {
        for y in 0..=24 {
            if !blocked.contains(&[x, y]) {
                seen_from.insert([x, y], fov([x, y], &walls, &bounds));
            }
        }
    }
    for (a, seen) in seen_from.iter() {
        for b in seen.iter() {
            if let Some(back) = seen_from.get(b) {
                assert!(back.contains(a), "{:?} sees {:?} but not the reverse", a, b);
            }
        }
    }
}

#[test]
fn fov_contains_origin_even_on_a_wall() {
    let bounds = Bounds { max_x: 10, max_y: 10 };
    let walls = vec![[5, 5], [5, 4], [4, 5]];
    let v = compute_fov_2d_recursive([5, 5], &walls, &bounds);
    assert_eq!(v[0], [5, 5]);
    let distinct: HashSet<[i32; 2]> = v.iter().cloned().collect();
    assert_eq!(distinct.len(), v.len());
    let empty = compute_fov_2d_recursive([0, 0], &vec![], &bounds);
    assert_eq!(empty[0], [0, 0]);
}

#[test]
fn fov_open_grid_is_bounded_by_view_depth() {
    let bounds = Bounds { max_x: 50, max_y: 50 };
    let v = compute_fov_2d_recursive([25, 25], &vec![], &bounds);
    assert_eq!(v.len(), 961);
    let distinct: HashSet<[i32; 2]> = v.iter().cloned().collect();
    assert_eq!(distinct.len(), 961);
    for c in v.iter() {
        let d = i32::max((c[0] - 25).abs(), (c[1] - 25).abs());
        assert!(d <= VIEW_DEPTH);
    }
}

#[test]
fn fov_wall_hides_the_cell_behind_it() {
    let bounds = Bounds { max_x: 10, max_y: 10 };
    let walls = vec![[5, 4]];
    let seen = fov([5, 5], &walls, &bounds);
    assert!(seen.contains(&[5, 4]));
    assert!(!seen.contains(&[5, 3]));
    assert!(!seen.contains(&[5, 0]));
    assert!(seen.contains(&[4, 3]));
    assert!(seen.contains(&[6, 3]));
    for dx in -1..=1 {
        for dy in -1..=1 {
            assert!(seen.contains(&[5 + dx, 5 + dy]));
        }
    }
}

#[test]
fn fov_reaches_off_board_walls() {
    let bounds = Bounds { max_x: 4, max_y: 4 };
    let seen = fov([0, 0], &vec![], &bounds);
    assert!(seen.contains(&[-1, 0]));
    assert!(seen.contains(&[4, 4]));
}

#[test]
fn quadrant_transform_maps_each_cardinal() {
    let o = [10, 20];
    assert_eq!(Quadrant::new(Cardinal::North, &o).transform(&[2, 1]), (11, 18));
    assert_eq!(Quadrant::new(Cardinal::South, &o).transform(&[2, 1]), (11, 22));
    assert_eq!(Quadrant::new(Cardinal::East, &o).transform(&[2, 1]), (12, 21));
    assert_eq!(Quadrant::new(Cardinal::West, &o).transform(&[2, 1]), (8, 21));
    let q = Quadrant::new(Cardinal::West, &o);
    assert_eq!((q.ox, q.oy), (10, 20));
}

#[test]
fn fov_near_the_edge_stays_within_view_depth() {
    let bounds = Bounds { max_x: 50, max_y: 50 };
    let v = compute_fov_2d_recursive([0, 20], &vec![[0, 19]], &bounds);
    assert!(!v.contains(&[-16, 11]));
    for c in v.iter() {
        assert!(i32::max(c[0].abs(), (c[1] - 20).abs()) <= VIEW_DEPTH);
    }
    for x in 0..50 {
        for y in 0..50 {
            let w = compute_fov_2d_recursive([x, y], &vec![[10, 10], [11, 10], [10, 11]], &bounds);
            assert!(w.len() <= 961);
            assert!(w.iter().all(|c| i32::max((c[0] - x).abs(), (c[1] - y).abs()) <= VIEW_DEPTH));
        }
    }
}

#[test]
fn fov_is_symmetric_among_scattered_walls() {
    let bounds = Bounds { max_x: 19, max_y: 19 };
    let mut walls = vec![];
    for x in 0..20 {
        for y in 0..20 {
            if (x * 7 + y * 13) % 11 == 0 {
                walls.push([x, y]);
            }
        }
    }
    let blocked: HashSet<[i32; 2]> = walls.iter().cloned().collect();
    let mut seen_from: HashMap<[i32; 2], HashSet<[i32; 2]>> = HashMap::new();
    for x in 0..20 {
        for y in 0..20 {
            if !blocked.contains(&[x, y]) {
                seen_from.insert([x, y], fov([x, y], &walls, &bounds));
            }
        }
    }
    for (a, seen) in seen_from.iter() {
        for b in seen.iter() {
            if let Some(back) = seen_from.get(b) {
                assert!(back.contains(a), "{:?} sees {:?} but not the reverse", a, b);
            }
        }
    }
}
