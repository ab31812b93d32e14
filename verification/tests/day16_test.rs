use aoc23::day16::{count_energized, most_energized, same_dir, Beam, TileMap};

const SAMPLE: &str = ".|...\\....\n|.-.\\.....\n.....|-...\n........|.\n..........\n.........\\\n..../.\\\\..\n.-.-/..|..\n.|....-|.\\\n..//.|....\n";

#[test]
fn most_energized_sample() {
    assert_eq!(most_energized(SAMPLE), Some(51));
}

#[test]
fn energized_from_top_left() {
    let map = TileMap { map: SAMPLE.lines().map(|l| l.chars().collect()).collect() };
    let beam = Beam { pos: (-1, 0), dir: (1, 0) };
    assert_eq!(count_energized(beam, &map), 46);
}

#[test]
fn beam_steps_and_directions() {
    let mut b = Beam { pos: (2, 3), dir: (0, -1) };
    b.step();
    assert_eq!(b.pos, (2, 2));
    assert!(same_dir((1, 0), (1, 0)));
    assert!(!same_dir((1, 0), (0, 1)));
}

#[test]
fn longer_rows_are_read_to_the_first_width() {
    assert_eq!(most_energized("..\n...\n"), Some(2));
    assert_eq!(most_energized(".|\n....\n"), Some(3));
}
