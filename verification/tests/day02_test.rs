use aoc23::day02::{parse_game, possible_games_total, Game};

const SAMPLE: &str = "Game 1: 3 blue, 4 red; 1 red, 2 green, 6 blue; 2 green\n\
Game 2: 1 blue, 2 green; 3 green, 4 blue, 1 red; 1 green, 1 blue\n\
Game 3: 8 green, 6 blue, 20 red; 5 blue, 4 red, 13 green; 5 green, 1 red\n\
Game 4: 1 green, 3 red, 6 blue; 3 green, 6 red; 3 green, 15 blue, 14 red\n\
Game 5: 6 red, 1 blue, 3 green; 2 blue, 1 red, 2 green\n";

#[test]
fn possible_games_sample() {
    assert_eq!(possible_games_total(SAMPLE), Some(8));
}

#[test]
fn game_keeps_largest_draws() {
    let line: Vec<char> = "Game 1: 3 blue, 4 red; 1 red, 2 green, 6 blue; 2 green".chars().collect();
    let g = parse_game(&line).unwrap();
    assert_eq!((g.red, g.green, g.blue), (4, 2, 6));
    assert!(g.is_possible(12, 13, 14));
    assert!(!g.is_possible(3, 13, 14));
}

#[test]
fn record_draw_takes_maximum() {
    let mut g = Game::new();
    g.record_draw(1, 5, 2);
    g.record_draw(3, 2, 2);
    assert_eq!((g.red, g.green, g.blue), (3, 5, 2));
}

#[test]
fn game_without_colon_is_refused() {
    let line: Vec<char> = "Game 1 3 blue".chars().collect();
    assert!(parse_game(&line).is_none());
}
