use aoc23::day07::{sort_hands, total_winnings, Card, HandType};

const SAMPLE: &str = "32T3K 765\nT55J5 684\nKK677 28\nKTJJT 220\nQQQJA 483\n";

fn hand(s: &str) -> Vec<Card> {
    s.chars().map(Card::from_char).collect()
}

#[test]
fn winnings_sample() {
    assert_eq!(total_winnings(SAMPLE), Some(5905));
}

#[test]
fn jokers_take_the_best_type() {
    assert!(matches!(HandType::from_hand(&hand("32T3K")), HandType::OnePair));
    assert!(matches!(HandType::from_hand(&hand("T55J5")), HandType::FourOfAKind));
    assert!(matches!(HandType::from_hand(&hand("KK677")), HandType::TwoPair));
    assert!(matches!(HandType::from_hand(&hand("KTJJT")), HandType::FourOfAKind));
    assert!(matches!(HandType::from_hand(&hand("JJJJJ")), HandType::FiveOfAKind));
    assert!(matches!(HandType::from_hand(&hand("23456")), HandType::HighCard));
    assert!(matches!(HandType::from_hand(&hand("2345J")), HandType::OnePair));
    assert!(matches!(HandType::from_hand(&hand("2233J")), HandType::FullHouse));
}

#[test]
fn card_indices_round_trip() {
    assert_eq!(Card::num_cards(), 13);
    assert_eq!(Card::to_index(Card::J), 0);
    assert_eq!(Card::to_index(Card::A), 12);
    for i in 0..13 {
        assert_eq!(Card::to_index(Card::from_index(i)), i);
    }
}

#[test]
fn hands_sorted_strongest_first() {
    let hs = vec![
        (hand("32T3K"), 765, HandType::from_hand(&hand("32T3K"))),
        (hand("QQQJA"), 483, HandType::from_hand(&hand("QQQJA"))),
        (hand("KTJJT"), 220, HandType::from_hand(&hand("KTJJT"))),
    ];
    let order = sort_hands(&hs);
    let bids: Vec<i64> = order.iter().map(|&i| hs[i].1).collect();
    assert_eq!(bids, vec![220, 483, 765]);
}

#[test]
fn identical_hands_cannot_be_ordered() {
    assert_eq!(total_winnings("AAAAA 1\nAAAAA 2\n"), None);
}

#[test]
fn every_hand_ranked_once_in_order() {
    let hs: Vec<(Vec<Card>, i64, HandType)> = SAMPLE
        .lines()
        .map(|l| {
            let (h, b) = l.split_once(' ').unwrap();
            (hand(h), b.parse::<i64>().unwrap(), HandType::from_hand(&hand(h)))
        })
        .collect();
    let order = sort_hands(&hs);
    let bids: Vec<i64> = order.iter().map(|&i| hs[i].1).collect();
    assert_eq!(bids, vec![220, 483, 684, 28, 765]);
}
