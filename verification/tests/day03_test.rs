use aoc23::day03::{gear_stars, part_sum};

const SAMPLE: &str = "467..114..\n...*......\n..35..633.\n......#...\n617*......\n.....+.58.\n..592.....\n......755.\n...$.*....\n.664.598..\n";

#[test]
fn part_numbers_sample() {
    assert_eq!(part_sum(SAMPLE), Some(4361));
}

#[test]
fn gears_sample() {
    assert_eq!(gear_stars(SAMPLE), Some(vec![(3, 1), (5, 8)]));
}

#[test]
fn number_without_symbol_does_not_count() {
    assert_eq!(part_sum("12..\n....\n"), Some(0));
    assert_eq!(part_sum("12#.\n....\n"), Some(12));
    assert_eq!(part_sum("..\n.7\n*.\n"), Some(7));
}

#[test]
fn empty_schematic_is_refused() {
    assert_eq!(part_sum(""), None);
    assert_eq!(gear_stars(""), None);
}

#[test]
fn number_too_large_for_i32_is_refused() {
    assert_eq!(part_sum("99999999999*\n"), None);
}

#[test]
fn search_past_short_row_is_refused() {
    assert_eq!(part_sum("1.\n\n"), None);
}
