use aoc23::day10::{direction_from_bits, farthest_loop, Direction, MapTile, PipeMap};

const SQUARE: &str = ".....\n.S-7.\n.|.|.\n.L-J.\n.....\n";
const COMPLEX: &str = "..F7.\n.FJ|.\nSJ.L7\n|F--J\nLJ...\n";

#[test]
fn loop_steps_square() {
    assert_eq!(farthest_loop(SQUARE), Some(7));
}

#[test]
fn loop_steps_complex() {
    assert_eq!(farthest_loop(COMPLEX), Some(15));
}

#[test]
fn direction_bits() {
    assert!(matches!(direction_from_bits(0b1000), Ok(Direction::North)));
    assert!(matches!(direction_from_bits(0b0001), Ok(Direction::West)));
    assert!(direction_from_bits(0b0011).is_err());
    assert!(matches!(Direction::North.flip(), Direction::South));
    assert!(matches!(Direction::East.flip(), Direction::West));
}

#[test]
fn pipe_ends() {
    assert!(matches!(MapTile::EastAndSouth.other_direction(Direction::East), Direction::South));
    assert!(matches!(MapTile::NorthAndSouth.other_direction(Direction::South), Direction::North));
    assert!(MapTile::EastAndWest.bitand(Direction::West));
    assert!(!MapTile::EastAndWest.bitand(Direction::North));
    assert!(!MapTile::Start.bitand(Direction::North));
    assert!(!MapTile::Ground.bitand(Direction::East));
}

#[test]
fn maze_reading() {
    let m = PipeMap::from_str(SQUARE);
    assert_eq!(m.start, (1, 1));
    assert_eq!((m.width, m.height), (5, 5));
    assert!(matches!(m.get((2, 1)), MapTile::EastAndWest));
    assert!(m.start_joined());
    assert!(matches!(m.pick_start_dir(), Direction::East));
    let lone = PipeMap::from_str("S.\n..\n");
    assert!(!lone.start_joined());
}

#[test]
fn loop_closes_after_even_steps() {
    for maze in [SQUARE, COMPLEX] {
        let after_first = farthest_loop(maze).unwrap();
        assert_eq!(after_first % 2, 1);
        assert_eq!((after_first as f64 / 2.0).round() as i64, (after_first + 1) / 2);
    }
}

#[test]
fn longer_rows_read_to_the_first_width() {
    assert_eq!(farthest_loop(".....\n.S-7.\n.|.|...\n.L-J.\n......\n"), Some(7));
    assert_eq!(farthest_loop(".....\n.S-7.\n.|.\n.L-J.\n.....\n"), None);
}
