use aoc23::day17::{dir_name, HeatMap, Vec2, LEFT, RIGHT, STRAIGHT};
use aoc23::day17_search::parse_heat_map;
use std::cmp::Ordering;

fn city() -> HeatMap {
    HeatMap { map: vec![vec![2, 4, 1], vec![3, 2, 1], vec![3, 2, 5]], fin: Vec2 { x: 2, y: 2 } }
}

#[test]
fn turn_names() {
    assert_eq!(dir_name(STRAIGHT), "STRAIGHT");
    assert_eq!(dir_name(LEFT), "LEFT");
    assert_eq!(dir_name(RIGHT), "RIGHT");
}

#[test]
fn turns_relative_to_heading() {
    let p = Vec2 { x: 1, y: 0 };
    let last = Vec2 { x: 0, y: 0 };
    assert_eq!(HeatMap::direction_dx(p, last, STRAIGHT), Vec2 { x: 1, y: 0 });
    assert_eq!(HeatMap::direction_dx(p, last, LEFT), Vec2 { x: 0, y: -1 });
    assert_eq!(HeatMap::direction_dx(p, last, RIGHT), Vec2 { x: 0, y: 1 });
    assert_eq!(p.go(Vec2 { x: 0, y: 1 }), Vec2 { x: 1, y: 1 });
}

#[test]
fn heat_and_distances() {
    let m = city();
    assert_eq!(m.heat_at(Vec2 { x: 1, y: 0 }), 4);
    assert_eq!(m.dist_to_end(Vec2 { x: 0, y: 0 }), 4);
    assert_eq!(m.approx_to_end(Vec2 { x: 1, y: 1 }), Some(2 + 1 + 2 + 5));
    assert!(m.in_range(Vec2 { x: 2, y: 2 }));
    assert!(!m.in_range(Vec2 { x: 3, y: 0 }));
}

#[test]
fn tie_breaking_order() {
    let m = city();
    // different distances to the end: ordered by position
    assert_eq!(m.always_sorted(&Vec2 { x: 0, y: 0 }, &Vec2 { x: 1, y: 1 }), Ordering::Less);
    // same distance: the cooler block first
    assert_eq!(m.always_sorted(&Vec2 { x: 1, y: 0 }, &Vec2 { x: 0, y: 1 }), Ordering::Greater);
}

#[test]
fn path_back_to_origin() {
    let mut came: Vec<Vec<Option<Vec2>>> = vec![vec![None; 3]; 3];
    came[0][1] = Some(Vec2 { x: 0, y: 0 });
    came[1][1] = Some(Vec2 { x: 1, y: 0 });
    let path = HeatMap::reconstruct_path(&came, Vec2 { x: 1, y: 1 }, 10).unwrap();
    assert_eq!(path, vec![Vec2 { x: 0, y: 0 }, Vec2 { x: 1, y: 0 }, Vec2 { x: 1, y: 1 }]);
}

#[test]
fn search_finds_only_its_start() {
    let m = parse_heat_map("241\n321\n325\n").unwrap();
    assert_eq!(m.fin, Vec2 { x: 2, y: 2 });
    assert_eq!(m.map[1], vec![3, 2, 1]);
    let origin = Vec2 { x: 0, y: 0 };
    assert_eq!(m.a_star(origin, origin, 5), Some(vec![Vec2 { x: -1, y: 0 }, origin]));
    // looking back past the sentinel ends the search
    assert_eq!(m.a_star(origin, Vec2 { x: 2, y: 2 }, 100), None);
    assert_eq!(m.a_star(origin, origin, 0), None);
    assert_eq!(parse_heat_map("7\n").unwrap().fin, Vec2 { x: 0, y: 0 });
}

#[test]
fn heat_to_the_corner_is_owed() {
    let m = city();
    assert_eq!(m.approx_to_end(Vec2 { x: 0, y: 0 }), Some(2 + 4 + 1 + 3 + 2 + 1 + 3 + 2 + 5));
    let ragged = HeatMap { map: vec![vec![1, 1], vec![1]], fin: Vec2 { x: 1, y: 1 } };
    assert_eq!(ragged.approx_to_end(Vec2 { x: 0, y: 0 }), None);
    let huge = HeatMap { map: vec![vec![i64::MAX, 1]], fin: Vec2 { x: 1, y: 0 } };
    assert_eq!(huge.approx_to_end(Vec2 { x: 0, y: 0 }), None);
}
