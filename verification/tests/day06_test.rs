use aoc23::day06::{dist_for_time, parse_race, race_result};

#[test]
fn distance_formula() {
    assert_eq!(dist_for_time(3, 7), 12);
    assert_eq!(dist_for_time(0, 7), 0);
    assert_eq!(dist_for_time(7, 7), 0);
}

#[test]
fn race_sample_joined() {
    let data = "Time:      7  15   30\nDistance:  9  40  200\n";
    assert_eq!(parse_race(data), Some((71530, 940200)));
    assert_eq!(race_result(71530, 940200), 71503);
}

#[test]
fn race_small() {
    assert_eq!(race_result(7, 9), 4);
    assert_eq!(race_result(30, 200), 9);
}

#[test]
fn race_without_wins_gives_one() {
    assert_eq!(race_result(3, 100), 1);
}
