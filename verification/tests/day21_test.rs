use aoc23::day21::{plots_total, Direction, GardenMap};

#[test]
fn garden_counts_open_neighbours() {
    let m = GardenMap::from_string("...\n.S#\n...");
    assert_eq!(m.start, (1, 1));
    assert_eq!((m.width, m.height), (3, 3));
    assert_eq!(m.map[1][2], 0);
    assert_eq!(m.map[1][1], 3);
    assert_eq!(m.map[0][0], 4);
}

#[test]
fn steps_wrap_around() {
    assert_eq!(GardenMap::go_static((0, 0), Direction::North, 3, 4), (0, 3));
    assert_eq!(GardenMap::go_static((2, 1), Direction::East, 3, 4), (0, 1));
    assert_eq!(GardenMap::go_static((1, 3), Direction::South, 3, 4), (1, 0));
    assert_eq!(GardenMap::go_static((0, 1), Direction::West, 3, 4), (2, 1));
    assert_eq!(GardenMap::go_static((1, 1), Direction::West, 3, 4), (0, 1));
}

#[test]
fn walkers_multiply_counts() {
    // every plot of an open garden borders four open plots
    assert_eq!(plots_total("S.\n..", 0), Some(1));
    assert_eq!(plots_total("S.\n..", 1), Some(8));
    assert_eq!(plots_total("S.\n..", 2), Some(32));
}

#[test]
fn garden_errors() {
    let m = GardenMap::from_string("S..\n.#..");
    assert_eq!((m.width, m.height), (3, 2));
    assert_eq!(plots_total("", 1), None);
}
