use aoc23::day14::{spun_load, Direction, Item, Platform};

const SAMPLE: &str = "O....#....\nO.OO#....#\n.....##...\nOO.#O....O\n.O.....O#.\nO.#..O.#.#\n..O..#O..O\n.......O..\n#....###..\n#OO..#....\n";

fn grid(s: &str) -> Vec<Vec<Item>> {
    s.lines().map(|l| l.chars().map(Item::from_char).collect()).collect()
}

#[test]
fn spun_load_sample() {
    assert_eq!(spun_load(SAMPLE), Some(64));
}

#[test]
fn north_tilt_load_sample() {
    let mut p = Platform::from_vec(grid(SAMPLE));
    p.tilt(Direction::North);
    assert_eq!(p.count_load_north(), Some(136));
}

#[test]
fn tilt_rolls_rocks_to_stops() {
    let mut p = Platform::from_vec(grid("O.#.O\n"));
    p.tilt(Direction::East);
    assert_eq!(p.hashkey(), vec!['.', 'O', '#', '.', 'O']);
    p.tilt(Direction::West);
    assert_eq!(p.hashkey(), vec!['O', '.', '#', 'O', '.']);
}

#[test]
fn tilt_twice_is_tilt_once() {
    let mut p = Platform::from_vec(grid(SAMPLE));
    p.tilt(Direction::South);
    let once = p.hashkey();
    p.tilt(Direction::South);
    assert_eq!(p.hashkey(), once);
}

#[test]
fn ragged_platform_is_refused() {
    assert_eq!(spun_load("O..\n.\n"), None);
}

#[test]
fn tilt_keeps_cube_rocks_and_counts() {
    let before = grid(SAMPLE);
    let mut p = Platform::from_vec(grid(SAMPLE));
    p.tilt(Direction::North);
    for y in 0..before.len() {
        for x in 0..before[0].len() {
            assert_eq!(before[y][x] == Item::Fixed, p.data[y][x] == Item::Fixed);
        }
    }
    for x in 0..before[0].len() {
        let was = before.iter().filter(|r| r[x] == Item::Moving).count();
        let now = p.data.iter().filter(|r| r[x] == Item::Moving).count();
        assert_eq!(was, now);
    }
}

#[test]
fn longer_rows_tilt_and_weigh_within_the_first_width() {
    let mut p = Platform::from_vec(grid(".O\nO.O\n#.O\n"));
    p.tilt(Direction::North);
    assert_eq!(p.hashkey(), vec!['O', 'O', '.', '.', 'O', '#', '.', 'O']);
    assert_eq!(p.count_load_north(), Some(3 + 3));
    p.tilt(Direction::East);
    assert_eq!(p.hashkey(), vec!['O', 'O', '.', '.', 'O', '#', '.', 'O']);
    let longer = SAMPLE.replacen(".....##...\n", ".....##...O#O\n", 1);
    assert_eq!(spun_load(&longer), Some(64));
    assert_eq!(spun_load("O.\n.\n"), None);
}
