use aoc23::day04::{count_matches, parse_card, scratchcards_total, total_scratchcards};

const SAMPLE: &str = "Card 1: 41 48 83 86 17 | 83 86  6 31 17  9 48 53\n\
Card 2: 13 32 20 16 61 | 61 30 68 82 17 32 24 19\n\
Card 3:  1 21 53 59 44 | 69 82 63 72 16 21 14  1\n\
Card 4: 41 92 73 84 69 | 59 84 76 51 58  5 54 83\n\
Card 5: 87 83 26 28 32 | 88 30 70 12 93 22 82 36\n\
Card 6: 31 18 13 56 72 | 74 77 10 23 35 67 36 11\n";

#[test]
fn scratchcards_sample() {
    assert_eq!(scratchcards_total(SAMPLE), Some(30));
}

#[test]
fn matches_of_first_card() {
    let line: Vec<char> = "Card 1: 41 48 83 86 17 | 83 86  6 31 17  9 48 53".chars().collect();
    let (card, winning) = parse_card(&line).unwrap();
    assert_eq!(card, vec![41, 48, 83, 86, 17]);
    assert_eq!(count_matches(&card, &winning), 4);
}

#[test]
fn copies_cascade() {
    assert_eq!(total_scratchcards(&vec![4, 2, 2, 1, 0, 0]), Some(30));
    assert_eq!(total_scratchcards(&vec![]), Some(0));
    assert_eq!(total_scratchcards(&vec![5]), Some(1));
}

#[test]
fn card_without_bar_is_refused() {
    let line: Vec<char> = "Card 1: 1 2 3".chars().collect();
    assert!(parse_card(&line).is_none());
}
