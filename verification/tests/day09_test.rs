use aoc23::day09::{extrapolate, prediction_total};

#[test]
fn prediction_sample() {
    let data = "0 3 6 9 12 15\n1 3 6 10 15 21\n10 13 16 21 30 45\n";
    assert_eq!(prediction_total(data), Some(114));
}

#[test]
fn extrapolate_single_sequences() {
    assert_eq!(extrapolate(&vec![0, 3, 6, 9, 12, 15]), Some(18));
    assert_eq!(extrapolate(&vec![10, 13, 16, 21, 30, 45]), Some(68));
    assert_eq!(extrapolate(&vec![5, 5, 5]), Some(5));
}

#[test]
fn extrapolate_arithmetic_law() {
    // an arithmetic sequence continues with its step
    assert_eq!(extrapolate(&vec![-4, -1, 2, 5]), Some(8));
}

#[test]
fn unreadable_number_is_refused() {
    assert_eq!(prediction_total("0 9223372036854775807\n"), None);
}
