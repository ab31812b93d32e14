use aoc23::day08::{ghost_steps, parse_node, Direction, Item};

const GHOSTS: &str = "LR\n\n11A = (11B, XXX)\n11B = (XXX, 11Z)\n11Z = (11B, XXX)\n22A = (22B, XXX)\n22B = (22C, 22C)\n22C = (22Z, 22Z)\n22Z = (22B, 22B)\nXXX = (XXX, XXX)\n";

#[test]
fn ghosts_sample() {
    assert_eq!(ghost_steps(GHOSTS, 1000), Some(6));
}

#[test]
fn ghosts_fuel_too_small() {
    assert_eq!(ghost_steps(GHOSTS, 5), None);
    assert_eq!(ghost_steps(GHOSTS, 6), Some(6));
}

#[test]
fn single_ghost_path() {
    let data = "LLR\n\nAAA = (BBB, BBB)\nBBB = (AAA, ZZZ)\nZZZ = (ZZZ, ZZZ)\n";
    assert_eq!(ghost_steps(data, 100), Some(6));
}

#[test]
fn node_line_parts() {
    let line: Vec<char> = "AAA = (BBB, CCC)".chars().collect();
    let (a, b, c) = parse_node(&line).unwrap();
    assert_eq!(a, vec!['A', 'A', 'A']);
    assert_eq!(b, vec!['B', 'B', 'B']);
    assert_eq!(c, vec!['C', 'C', 'C']);
    let bad: Vec<char> = "AAA = BBB, CCC".chars().collect();
    assert!(parse_node(&bad).is_none());
}

#[test]
fn turns_and_exits() {
    assert!(matches!(Direction::from_char('L'), Some(Direction::Left)));
    assert!(matches!(Direction::from_char('R'), Some(Direction::Right)));
    assert!(Direction::from_char('X').is_none());
    let it = Item { left: Some(3), right: None, is_end: false };
    assert_eq!(it.go(Direction::Left), Some(3));
    assert_eq!(it.go(Direction::Right), None);
}

#[test]
fn bad_turn_or_missing_node_is_refused() {
    assert!(Direction::from_char('X').is_none());
    // the ghost walks onto a name that no line defines
    assert_eq!(ghost_steps("L\n\nAAA = (BBB, BBB)\n", 10), None);
}

#[test]
fn node_found_anywhere_in_the_line() {
    let line: Vec<char> = "xx AAA = (BBB, CCC) and more".chars().collect();
    let (a, b, c) = parse_node(&line).unwrap();
    assert_eq!(a, vec!['A', 'A', 'A']);
    assert_eq!(b, vec!['B', 'B', 'B']);
    assert_eq!(c, vec!['C', 'C', 'C']);
}
