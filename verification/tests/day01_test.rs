use aoc23::day01::{calibration_total, calibration_value, mapnum};

fn chars(s: &str) -> Vec<char> {
    s.chars().collect()
}

#[test]
fn calibration_digits_only() {
    let data = "1abc2\npqr3stu8vwx\na1b2c3d4e5f\ntreb7uchet\n";
    assert_eq!(calibration_total(data), Some(142));
}

#[test]
fn calibration_spelled_digits() {
    let data = "two1nine\neightwothree\nabcone2threexyz\nxtwone3four\n4nineeightseven2\nzoneight234\n7pqrstsixteen\n";
    assert_eq!(calibration_total(data), Some(281));
}

#[test]
fn calibration_shared_letters_count_twice() {
    assert_eq!(calibration_value(&chars("twone")), Some(21));
    assert_eq!(calibration_value(&chars("eighthree")), Some(83));
}

#[test]
fn calibration_single_digit_line() {
    assert_eq!(calibration_value(&chars("treb7uchet")), Some(77));
}

#[test]
fn calibration_line_without_digit() {
    assert_eq!(calibration_value(&chars("abcdef")), None);
    assert_eq!(calibration_total("1abc2\nx7y\n"), Some(12 + 77));
}

#[test]
fn mapnum_reads_one_character() {
    let (d, rest) = mapnum(&chars("seven2"));
    assert_eq!(d, 7);
    assert_eq!(rest, chars("even2"));
    let (d, rest) = mapnum(&chars("x9"));
    assert_eq!(d, -1);
    assert_eq!(rest, chars("9"));
    let (d, _) = mapnum(&chars("4a"));
    assert_eq!(d, 4);
}
