//! Camel cards: the type of each hand, jokers standing in for whatever card
//! makes the hand strongest, and the winnings of hands ranked by type and
//! then card by card.
use vstd::prelude::*;
use crate::text::{chars_of, i64_literal, lines, lines_spec, parse_i64, rows, trim, trim_spec, words, words_spec};

verus! {

/// A card; the joker ranks lowest.
#[derive(Debug, PartialEq, PartialOrd, Ord, Eq, Hash, Copy, Clone, Structural)]
pub enum Card {
    J,
    Two,
    Three,
    Four,
    Five,
    Six,
    Seven,
    Eight,
    Nine,
    T,
    Q,
    K,
    A,
}

/// The strength of a card: 0 for the joker up to 12 for the ace.
pub open spec fn card_index(c: Card) -> int {
    match c {
        Card::J => 0,
        Card::Two => 1,
        Card::Three => 2,
        Card::Four => 3,
        Card::Five => 4,
        Card::Six => 5,
        Card::Seven => 6,
        Card::Eight => 7,
        Card::Nine => 8,
        Card::T => 9,
        Card::Q => 10,
        Card::K => 11,
        Card::A => 12,
    }
}

/// Card strengths go both ways: each card's strength gives the card back,
/// and each strength below 13 is the strength of the card it gives.
pub proof fn lemma_card_round_trip(c: Card, i: int)
    ensures
        card_at(card_index(c)) == c,
        0 <= card_index(c) < 13,
        0 <= i < 13 ==> card_index(card_at(i)) == i,
{
}

/// The card of a strength.
pub open spec fn card_at(i: int) -> Card {
    if i == 0 {
        Card::J
    } else if i == 1 {
        Card::Two
    } else if i == 2 {
        Card::Three
    } else if i == 3 {
        Card::Four
    } else if i == 4 {
        Card::Five
    } else if i == 5 {
        Card::Six
    } else if i == 6 {
        Card::Seven
    } else if i == 7 {
        Card::Eight
    } else if i == 8 {
        Card::Nine
    } else if i == 9 {
        Card::T
    } else if i == 10 {
        Card::Q
    } else if i == 11 {
        Card::K
    } else {
        Card::A
    }
}

/// The card a character names, if any.
pub open spec fn card_of_char(c: char) -> Option<Card> {
    if c == 'A' {
        Some(Card::A)
    } else if c == 'K' {
        Some(Card::K)
    } else if c == 'Q' {
        Some(Card::Q)
    } else if c == 'J' {
        Some(Card::J)
    } else if c == 'T' {
        Some(Card::T)
    } else if c == '9' {
        Some(Card::Nine)
    } else if c == '8' {
        Some(Card::Eight)
    } else if c == '7' {
        Some(Card::Seven)
    } else if c == '6' {
        Some(Card::Six)
    } else if c == '5' {
        Some(Card::Five)
    } else if c == '4' {
        Some(Card::Four)
    } else if c == '3' {
        Some(Card::Three)
    } else if c == '2' {
        Some(Card::Two)
    } else {
        None
    }
}

impl Card {
    /// How many kinds of card there are.
    pub fn num_cards() -> (n: usize)
        ensures
            n == 13,
    {
        13
    }

    /// The strength of a card.
    pub fn to_index(card: Card) -> (i: usize)
        ensures
            i == card_index(card),
    {
        match card {
            Card::J => 0,
            Card::Two => 1,
            Card::Three => 2,
            Card::Four => 3,
            Card::Five => 4,
            Card::Six => 5,
            Card::Seven => 6,
            Card::Eight => 7,
            Card::Nine => 8,
            Card::T => 9,
            Card::Q => 10,
            Card::K => 11,
            Card::A => 12,
        }
    }

    /// The card of a strength below 13.
    pub fn from_index(idx: usize) -> (c: Card)
        requires
            idx < 13,
        ensures
            c == card_at(idx as int),
            card_index(c) == idx,
    {
        match idx {
            0 => Card::J,
            1 => Card::Two,
            2 => Card::Three,
            3 => Card::Four,
            4 => Card::Five,
            5 => Card::Six,
            6 => Card::Seven,
            7 => Card::Eight,
            8 => Card::Nine,
            9 => Card::T,
            10 => Card::Q,
            11 => Card::K,
            _ => Card::A,
        }
    }

    /// The card a character names.
    pub fn from_char(card: char) -> (c: Card)
        requires
            card_of_char(card) is Some,
        ensures
            card_of_char(card) == Some(c),
    {
        match card {
            'A' => Card::A,
            'K' => Card::K,
            'Q' => Card::Q,
            'J' => Card::J,
            'T' => Card::T,
            '9' => Card::Nine,
            '8' => Card::Eight,
            '7' => Card::Seven,
            '6' => Card::Six,
            '5' => Card::Five,
            '4' => Card::Four,
            '3' => Card::Three,
            _ => Card::Two,
        }
    }
}

/// The type of a hand, weakest first.
#[derive(Debug, PartialEq, PartialOrd, Ord, Eq, Copy, Clone, Structural)]
pub enum HandType {
    HighCard,
    OnePair,
    TwoPair,
    ThreeOfAKind,
    FullHouse,
    FourOfAKind,
    FiveOfAKind,
}

/// The strength of a hand type: 0 for a high card up to 6 for five of a kind.
pub open spec fn type_rank(t: HandType) -> int {
    match t {
        HandType::HighCard => 0,
        HandType::OnePair => 1,
        HandType::TwoPair => 2,
        HandType::ThreeOfAKind => 3,
        HandType::FullHouse => 4,
        HandType::FourOfAKind => 5,
        HandType::FiveOfAKind => 6,
    }
}

/// A hand of cards.
pub type Hand = Vec<Card>;

/// How many times the card occurs in the hand.
pub open spec fn count_in(hand: Seq<Card>, c: Card) -> nat
    decreases hand.len(),
{
    if hand.len() == 0 {
        0
    } else {
        count_in(hand.drop_last(), c) + if hand.last() == c {
            1nat
        } else {
            0nat
        }
    }
}

/// How many kinds of card occur exactly `k` times in the hand.
pub open spec fn kinds_with(hand: Seq<Card>, k: nat) -> nat {
    kinds_with_upto(hand, k, 13)
}

/// How many of the first `i` kinds of card occur exactly `k` times.
pub open spec fn kinds_with_upto(hand: Seq<Card>, k: nat, i: int) -> nat
    decreases i,
{
    if i <= 0 {
        0
    } else {
        kinds_with_upto(hand, k, i - 1) + if count_in(hand, card_at(i - 1)) == k {
            1nat
        } else {
            0nat
        }
    }
}

/// The type of a hand without jokers: five of a kind where a card occurs
/// five times, else four of a kind where one occurs four times, else a full
/// house for a card three times and another twice, three of a kind, two
/// pair, one pair, or high card.
pub open spec fn plain_type(hand: Seq<Card>) -> HandType {
    if kinds_with(hand, 5) > 0 {
        HandType::FiveOfAKind
    } else if kinds_with(hand, 4) > 0 {
        HandType::FourOfAKind
    } else if kinds_with(hand, 3) > 0 {
        if kinds_with(hand, 2) > 0 {
            HandType::FullHouse
        } else {
            HandType::ThreeOfAKind
        }
    } else if kinds_with(hand, 2) >= 2 {
        HandType::TwoPair
    } else if kinds_with(hand, 2) == 1 {
        HandType::OnePair
    } else {
        HandType::HighCard
    }
}

/// The position of the first joker (the hand's length when there is none).
pub open spec fn first_joker(hand: Seq<Card>) -> int
    decreases hand.len(),
{
    if hand.len() == 0 {
        0
    } else if hand[0] == Card::J {
        0
    } else {
        1 + first_joker(hand.skip(1))
    }
}

/// The stronger of two hand types.
pub open spec fn stronger(a: HandType, b: HandType) -> HandType {
    if type_rank(a) >= type_rank(b) {
        a
    } else {
        b
    }
}

/// The strongest type among the hands with the first joker replaced by each
/// card of strength `1` to `i - 1`.
pub open spec fn best_replacement(hand: Seq<Card>, i: int) -> HandType
    decreases count_in(hand, Card::J), 0int, i,
{
    if i <= 1 {
        HandType::HighCard
    } else {
        let f = first_joker(hand);
        if 0 <= f < hand.len() && hand[f] == Card::J {
            proof {
                lemma_count_set(hand, f, card_at(i - 1));
            }
            stronger(best_replacement(hand, i - 1), hand_type(hand.update(f, card_at(i - 1))))
        } else {
            HandType::HighCard
        }
    }
}

/// The type of a hand: a hand with a joker takes the strongest type it
/// reaches when the first joker becomes another card.
pub open spec fn hand_type(hand: Seq<Card>) -> HandType
    decreases count_in(hand, Card::J), 1int, 0int,
{
    if count_in(hand, Card::J) > 0 {
        best_replacement(hand, 13)
    } else {
        plain_type(hand)
    }
}

/// Replacing a joker by another card leaves one joker fewer.
pub proof fn lemma_count_set(hand: Seq<Card>, f: int, c: Card)
    requires
        0 <= f < hand.len(),
        hand[f] == Card::J,
        c != Card::J,
    ensures
        count_in(hand.update(f, c), Card::J) + 1 == count_in(hand, Card::J),
    decreases hand.len(),
{
    let u = hand.update(f, c);
    if f < hand.len() - 1 {
        assert(u.drop_last() =~= hand.drop_last().update(f, c));
        lemma_count_set(hand.drop_last(), f, c);
    } else {
        assert(u.drop_last() =~= hand.drop_last());
    }
}

proof fn lemma_card_at_index(c: Card)
    ensures
        card_at(card_index(c)) == c,
        0 <= card_index(c) < 13,
{
}

proof fn lemma_count_bound(hand: Seq<Card>, c: Card)
    ensures
        count_in(hand, c) <= hand.len(),
    decreases hand.len(),
{
    if hand.len() > 0 {
        lemma_count_bound(hand.drop_last(), c);
    }
}

fn rank_of(t: HandType) -> (r: u8)
    ensures
        r == type_rank(t),
{
    match t {
        HandType::HighCard => 0,
        HandType::OnePair => 1,
        HandType::TwoPair => 2,
        HandType::ThreeOfAKind => 3,
        HandType::FullHouse => 4,
        HandType::FourOfAKind => 5,
        HandType::FiveOfAKind => 6,
    }
}

fn first_joker_at(hand: &Vec<Card>) -> (f: usize)
    ensures
        f == first_joker(hand@),
        f <= hand@.len(),
        f < hand@.len() ==> hand@[f as int] == Card::J,
        forall|k: int| 0 <= k < f ==> hand@[k] != Card::J,
{
    proof {
        lemma_first_joker(hand@);
    }
    let mut i: usize = 0;
    while i < hand.len() && hand[i] != Card::J
        invariant
            i <= hand@.len(),
            forall|k: int| 0 <= k < i ==> hand@[k] != Card::J,
            0 <= first_joker(hand@) <= hand@.len(),
            first_joker(hand@) < hand@.len() ==> hand@[first_joker(hand@)] == Card::J,
            forall|k: int| 0 <= k < first_joker(hand@) ==> hand@[k] != Card::J,
        decreases hand@.len() - i,
    {
        i = i + 1;
    }
    i
}

proof fn lemma_first_joker(hand: Seq<Card>)
    ensures
        0 <= first_joker(hand) <= hand.len(),
        first_joker(hand) < hand.len() ==> hand[first_joker(hand)] == Card::J,
        forall|k: int| 0 <= k < first_joker(hand) ==> hand[k] != Card::J,
    decreases hand.len(),
{
    if hand.len() > 0 && hand[0] != Card::J {
        lemma_first_joker(hand.skip(1));
        assert forall|k: int| 0 <= k < first_joker(hand) implies hand[k] != Card::J by {
            if k > 0 {
                assert(hand[k] == hand.skip(1)[k - 1]);
            }
        }
        if first_joker(hand) < hand.len() {
            assert(hand[first_joker(hand)] == hand.skip(1)[first_joker(hand) - 1]);
        }
    }
}

proof fn lemma_no_joker(hand: Seq<Card>)
    requires
        count_in(hand, Card::J) > 0,
    ensures
        first_joker(hand) < hand.len(),
    decreases hand.len(),
{
    lemma_first_joker(hand);
    if first_joker(hand) >= hand.len() {
        lemma_count_zero(hand);
    }
}

proof fn lemma_count_zero(hand: Seq<Card>)
    requires
        forall|k: int| 0 <= k < hand.len() ==> hand[k] != Card::J,
    ensures
        count_in(hand, Card::J) == 0,
    decreases hand.len(),
{
    if hand.len() > 0 {
        lemma_count_zero(hand.drop_last());
    }
}

impl HandType {
    /// The type of a hand (see `hand_type`).
    pub fn from_hand(hand: &Hand) -> (t: HandType)
        ensures
            t == hand_type(hand@),
        decreases count_in(hand@, Card::J),
    {
        let mut counts: Vec<u64> = Vec::new();
        while counts.len() < 13
            invariant
                counts@.len() <= 13,
                forall|k: int| 0 <= k < counts@.len() ==> counts@[k] == 0,
            decreases 13 - counts@.len(),
        {
            counts.push(0);
        }
        let mut i: usize = 0;
        while i < hand.len()
            invariant
                i <= hand@.len(),
                counts@.len() == 13,
                forall|k: int| 0 <= k < 13 ==> #[trigger] counts@[k] == count_in(hand@.take(i as int), card_at(k)),
            decreases hand@.len() - i,
        {
            let idx = Card::to_index(hand[i]);
            proof {
                lemma_card_at_index(hand@[i as int]);
                lemma_count_bound(hand@.take(i as int), hand@[i as int]);
                assert(hand@.take(i + 1).drop_last() =~= hand@.take(i as int));
            }
            let c = counts[idx];
            counts.set(idx, c + 1);
            assert forall|k: int| 0 <= k < 13 implies #[trigger] counts@[k] == count_in(hand@.take(i + 1), card_at(k)) by {
                if k != idx {
                    assert(card_at(k) != hand@[i as int]) by {
                        if card_at(k) == hand@[i as int] {
                            assert(card_index(card_at(k)) == k);
                        }
                    }
                }
            }
            i = i + 1;
        }
        assert(hand@.take(i as int) =~= hand@);
        let num_jokers = counts[0];
        if num_jokers > 0 {
            let first = first_joker_at(hand);
            proof {
                lemma_no_joker(hand@);
            }
            let mut best = HandType::HighCard;
            let mut k: usize = 1;
            while k < Card::num_cards()
                invariant
                    1 <= k <= 13,
                    first == first_joker(hand@),
                    first < hand@.len(),
                    hand@[first as int] == Card::J,
                    count_in(hand@, Card::J) > 0,
                    best == best_replacement(hand@, k as int),
                decreases 13 - k,
            {
                let mut hand_copy = hand.clone();
                assert(hand_copy@ == hand@);
                let c = Card::from_index(k);
                hand_copy.set(first, c);
                proof {
                    lemma_count_set(hand@, first as int, c);
                }
                let t = HandType::from_hand(&hand_copy);
                if rank_of(t) > rank_of(best) {
                    best = t;
                }
                k = k + 1;
            }
            return best;
        }
        let mut n2: u64 = 0;
        let mut n3: u64 = 0;
        let mut n4: u64 = 0;
        let mut n5: u64 = 0;
        let mut k: usize = 0;
        while k < 13
            invariant
                k <= 13,
                counts@.len() == 13,
                forall|j: int| 0 <= j < 13 ==> #[trigger] counts@[j] == count_in(hand@, card_at(j)),
                n2 == kinds_with_upto(hand@, 2, k as int),
                n3 == kinds_with_upto(hand@, 3, k as int),
                n4 == kinds_with_upto(hand@, 4, k as int),
                n5 == kinds_with_upto(hand@, 5, k as int),
                n2 <= k && n3 <= k && n4 <= k && n5 <= k,
            decreases 13 - k,
        {
            let c = counts[k];
            if c == 2 {
                n2 = n2 + 1;
            } else if c == 3 {
                n3 = n3 + 1;
            } else if c == 4 {
                n4 = n4 + 1;
            } else if c == 5 {
                n5 = n5 + 1;
            }
            k = k + 1;
        }
        assert(count_in(hand@, Card::J) == 0) by {
            assert(counts@[0] == count_in(hand@, card_at(0)));
        }
        if n5 > 0 {
            HandType::FiveOfAKind
        } else if n4 > 0 {
            HandType::FourOfAKind
        } else if n3 > 0 {
            if n2 > 0 {
                HandType::FullHouse
            } else {
                HandType::ThreeOfAKind
            }
        } else if n2 >= 2 {
            HandType::TwoPair
        } else if n2 == 1 {
            HandType::OnePair
        } else {
            HandType::HighCard
        }
    }
}

/// Whether hand `a` sorts before hand `b` (the stronger first), comparing
/// from card `i` on: at the first position where they differ, the stronger
/// card; `None` when `a` runs out first or no position differs.
pub open spec fn cards_before(a: Seq<Card>, b: Seq<Card>, i: int) -> Option<bool>
    decreases a.len() - i,
{
    if i < 0 || i >= a.len() || i >= b.len() {
        None
    } else if a[i] != b[i] {
        Some(card_index(a[i]) > card_index(b[i]))
    } else {
        cards_before(a, b, i + 1)
    }
}

/// Whether hand `a` of type `ta` sorts before hand `b` of type `tb`: the
/// stronger type first, hands of one type card by card.
pub open spec fn sorts_before(a: Seq<Card>, ta: HandType, b: Seq<Card>, tb: HandType) -> Option<bool> {
    if ta != tb {
        Some(type_rank(ta) > type_rank(tb))
    } else {
        cards_before(a, b, 0)
    }
}

/// One hand with its bid, as plain values.
pub open spec fn entry_view(e: (Vec<Card>, i64, HandType)) -> (Seq<Card>, i64, HandType) {
    (e.0@, e.1, e.2)
}

/// The hands as plain values.
pub open spec fn entries(v: Seq<(Vec<Card>, i64, HandType)>) -> Seq<(Seq<Card>, i64, HandType)> {
    v.map_values(|e: (Vec<Card>, i64, HandType)| entry_view(e))
}

/// Whether hand `i` sorts before hand `j` of the list.
pub open spec fn before_at(hs: Seq<(Seq<Card>, i64, HandType)>, i: int, j: int) -> Option<bool> {
    sorts_before(hs[i].0, hs[i].2, hs[j].0, hs[j].2)
}

/// Index `x` put into `s` after the last index, from the back, that `x`
/// does not sort before.
pub open spec fn insert_hand(hs: Seq<(Seq<Card>, i64, HandType)>, s: Seq<usize>, x: usize) -> Seq<usize>
    decreases s.len(),
{
    if s.len() == 0 || before_at(hs, x as int, s.last() as int) != Some(true) {
        s.push(x)
    } else {
        insert_hand(hs, s.drop_last(), x).push(s.last())
    }
}

/// The indices of the first `k` hands in sorted order, by insertion.
pub open spec fn sorted_hands(hs: Seq<(Seq<Card>, i64, HandType)>, k: int) -> Seq<usize>
    decreases k,
{
    if k <= 0 {
        Seq::empty()
    } else {
        insert_hand(hs, sorted_hands(hs, k - 1), (k - 1) as usize)
    }
}

/// Every two different hands can be ordered.
pub open spec fn all_comparable(hs: Seq<(Seq<Card>, i64, HandType)>) -> bool {
    forall|i: int, j: int| 0 <= i < hs.len() && 0 <= j < hs.len() && i != j ==> (#[trigger] before_at(hs, i, j)) is Some
}

/// The winnings of the first `k` hands in sorted order: each bid times its
/// rank, the strongest hand ranking highest.
pub open spec fn winnings_upto(hs: Seq<(Seq<Card>, i64, HandType)>, order: Seq<usize>, k: int) -> int
    decreases k,
{
    if k <= 0 {
        0
    } else {
        winnings_upto(hs, order, k - 1) + hs[order[k - 1] as int].1 * (hs.len() - (k - 1))
    }
}

/// No hand of `order` sorts before a hand that comes earlier in it.
pub open spec fn hands_sorted(hs: Seq<(Seq<Card>, i64, HandType)>, order: Seq<usize>) -> bool {
    forall|a: int, b: int| 0 <= a < b < order.len() ==> before_at(hs, #[trigger] order[b] as int, #[trigger] order[a] as int) != Some(true)
}

/// The indices `0` to `k - 1`, in order.
pub open spec fn first_indices(k: int) -> Seq<usize> {
    Seq::new(k as nat, |i: int| i as usize)
}

proof fn lemma_card_index_differs(c: Card, d: Card)
    requires
        c != d,
    ensures
        card_index(c) != card_index(d),
{
}

proof fn lemma_type_rank_differs(t: HandType, u: HandType)
    requires
        t != u,
    ensures
        type_rank(t) != type_rank(u),
{
}

proof fn lemma_cards_flip(a: Seq<Card>, b: Seq<Card>, i: int)
    ensures
        cards_before(a, b, i) matches Some(v) ==> cards_before(b, a, i) == Some(!v),
    decreases a.len() - i,
{
    if 0 <= i < a.len() && i < b.len() {
        if a[i] != b[i] {
            lemma_card_index_differs(a[i], b[i]);
        } else {
            lemma_cards_flip(a, b, i + 1);
        }
    }
}

proof fn lemma_cards_chain(a: Seq<Card>, b: Seq<Card>, c: Seq<Card>, i: int)
    requires
        cards_before(a, b, i) == Some(true),
        cards_before(b, c, i) == Some(true),
    ensures
        cards_before(a, c, i) == Some(true),
    decreases a.len() - i,
{
    if a[i] == b[i] && b[i] == c[i] {
        lemma_cards_chain(a, b, c, i + 1);
    } else if a[i] == c[i] {
        lemma_card_index_differs(a[i], b[i]);
    }
}

/// Whether hand `j` sorts before hand `i` is the opposite of whether `i`
/// sorts before `j`, where the two can be ordered.
proof fn lemma_before_flip(hs: Seq<(Seq<Card>, i64, HandType)>, i: int, j: int)
    ensures
        before_at(hs, i, j) matches Some(v) ==> before_at(hs, j, i) == Some(!v),
{
    if hs[i].2 != hs[j].2 {
        lemma_type_rank_differs(hs[i].2, hs[j].2);
    } else {
        lemma_cards_flip(hs[i].0, hs[j].0, 0);
    }
}

proof fn lemma_before_chain(hs: Seq<(Seq<Card>, i64, HandType)>, i: int, j: int, k: int)
    requires
        before_at(hs, i, j) == Some(true),
        before_at(hs, j, k) == Some(true),
    ensures
        before_at(hs, i, k) == Some(true),
{
    if hs[i].2 == hs[j].2 && hs[j].2 == hs[k].2 {
        lemma_cards_chain(hs[i].0, hs[j].0, hs[k].0, 0);
    } else if hs[i].2 == hs[k].2 {
        lemma_type_rank_differs(hs[i].2, hs[j].2);
    }
}

proof fn lemma_insert_hand_ordered(hs: Seq<(Seq<Card>, i64, HandType)>, s: Seq<usize>, x: usize)
    requires
        all_comparable(hs),
        x < hs.len(),
        forall|a: int| 0 <= a < s.len() ==> #[trigger] s[a] < x,
        hands_sorted(hs, s),
    ensures
        hands_sorted(hs, insert_hand(hs, s, x)),
        insert_hand(hs, s, x).to_multiset() == s.to_multiset().insert(x),
        insert_hand(hs, s, x).len() == s.len() + 1,
        forall|k: int| 0 <= k < insert_hand(hs, s, x).len() ==> #[trigger] insert_hand(hs, s, x)[k] == x || s.contains(insert_hand(hs, s, x)[k]),
    decreases s.len(),
{
    broadcast use vstd::multiset::group_multiset_axioms, vstd::seq_lib::group_to_multiset_ensures;
    if s.len() == 0 || before_at(hs, x as int, s.last() as int) != Some(true) {
        let u = s.push(x);
        assert forall|k: int| 0 <= k < u.len() implies #[trigger] u[k] == x || s.contains(u[k]) by {
            if k < s.len() {
                assert(s[k] == u[k]);
            }
        }
        assert forall|a: int, b: int| 0 <= a < b < u.len() implies before_at(hs, #[trigger] u[b] as int, #[trigger] u[a] as int) != Some(true) by {
            if b < s.len() {
                assert(u[a] == s[a]);
                assert(u[b] == s[b]);
            } else {
                let l = s.last();
                assert(u[a] == s[a]);
                if before_at(hs, x as int, s[a] as int) == Some(true) && s[a] != l {
                    assert(s[s.len() - 1] == l);
                    assert(before_at(hs, l as int, s[a] as int) != Some(true));
                    assert(before_at(hs, s[a] as int, l as int) is Some);
                    lemma_before_flip(hs, s[a] as int, l as int);
                    lemma_before_chain(hs, x as int, s[a] as int, l as int);
                }
            }
        }
    } else {
        let t = s.drop_last();
        let l = s.last();
        assert(s[s.len() - 1] == l);
        assert(hands_sorted(hs, t)) by {
            assert forall|a: int, b: int| 0 <= a < b < t.len() implies before_at(hs, #[trigger] t[b] as int, #[trigger] t[a] as int) != Some(true) by {
                assert(t[a] == s[a]);
                assert(t[b] == s[b]);
            }
        }
        assert forall|a: int| 0 <= a < t.len() implies #[trigger] t[a] < x by {
            assert(t[a] == s[a]);
        }
        lemma_insert_hand_ordered(hs, t, x);
        let u = insert_hand(hs, t, x);
        assert(s =~= t.push(l));
        assert forall|k: int| 0 <= k < u.len() implies before_at(hs, l as int, #[trigger] u[k] as int) != Some(true) by {
            if u[k] == x {
                lemma_before_flip(hs, x as int, l as int);
            } else {
                let m = choose|m: int| 0 <= m < t.len() && t[m] == u[k];
                assert(s[m] == t[m]);
            }
        }
        let w = u.push(l);
        assert forall|k: int| 0 <= k < w.len() implies #[trigger] w[k] == x || s.contains(w[k]) by {
            if k == u.len() {
                assert(s[s.len() - 1] == w[k]);
            } else {
                assert(w[k] == u[k]);
                if u[k] != x {
                    let m = choose|m: int| 0 <= m < t.len() && t[m] == u[k];
                    assert(s[m] == t[m]);
                }
            }
        }
        assert forall|a: int, b: int| 0 <= a < b < w.len() implies before_at(hs, #[trigger] w[b] as int, #[trigger] w[a] as int) != Some(true) by {
            assert(w[a] == u[a]);
            if b < u.len() {
                assert(w[b] == u[b]);
            }
        }
    }
}

/// Sorting the first `k` hands orders each of them once, no hand after one
/// that it sorts before (where every two hands can be ordered).
pub proof fn lemma_sorted_hands(hs: Seq<(Seq<Card>, i64, HandType)>, k: int)
    requires
        all_comparable(hs),
        0 <= k <= hs.len(),
        hs.len() <= usize::MAX,
    ensures
        hands_sorted(hs, sorted_hands(hs, k)),
        sorted_hands(hs, k).to_multiset() == first_indices(k).to_multiset(),
        sorted_hands(hs, k).len() == k,
    decreases k,
{
    broadcast use vstd::multiset::group_multiset_axioms, vstd::seq_lib::group_to_multiset_ensures;
    if k == 0 {
        assert(first_indices(0) =~= Seq::<usize>::empty());
    } else {
        lemma_sorted_hands(hs, k - 1);
        let s = sorted_hands(hs, k - 1);
        lemma_sorted_len(hs, k - 1);
        lemma_insert_hand_ordered(hs, s, (k - 1) as usize);
        assert(first_indices(k) =~= first_indices(k - 1).push((k - 1) as usize));
    }
}

/// Every product and partial sum of the winnings fits in an `i64`.
pub open spec fn winnings_fit(hs: Seq<(Seq<Card>, i64, HandType)>, order: Seq<usize>) -> bool {
    forall|k: int| 0 <= k < hs.len() ==> i64::MIN <= #[trigger] hs[order[k] as int].1 * (hs.len() - k) <= i64::MAX
        && i64::MIN <= winnings_upto(hs, order, k + 1) <= i64::MAX
}

fn cards_before_exec(a: &Vec<Card>, b: &Vec<Card>) -> (r: Option<bool>)
    ensures
        r == cards_before(a@, b@, 0),
{
    let mut i: usize = 0;
    while i < a.len()
        invariant
            i <= a@.len(),
            cards_before(a@, b@, 0) == cards_before(a@, b@, i as int),
        decreases a@.len() - i,
    {
        if i >= b.len() {
            return None;
        }
        if a[i] != b[i] {
            return Some(Card::to_index(a[i]) > Card::to_index(b[i]));
        }
        i = i + 1;
    }
    None
}

fn before_exec(hands: &Vec<(Vec<Card>, i64, HandType)>, i: usize, j: usize) -> (r: Option<bool>)
    requires
        i < hands@.len(),
        j < hands@.len(),
    ensures
        r == before_at(entries(hands@), i as int, j as int),
{
    let a = &hands[i];
    let b = &hands[j];
    if a.2 != b.2 {
        return Some(rank_of(a.2) > rank_of(b.2));
    }
    cards_before_exec(&a.0, &b.0)
}

/// Sorts the hands (by index), the stronger first (see `sorted_hands`).
pub fn sort_hands(hands: &Vec<(Vec<Card>, i64, HandType)>) -> (order: Vec<usize>)
    ensures
        order@ == sorted_hands(entries(hands@), hands@.len() as int),
{
    let ghost hs = entries(hands@);
    let n = hands.len();
    let mut v: Vec<usize> = Vec::new();
    let mut i: usize = 0;
    while i < n
        invariant
            i <= n,
            n == hands@.len(),
            hs == entries(hands@),
            v@ == sorted_hands(hs, i as int),
            v@.len() == i,
            forall|k: int| 0 <= k < v@.len() ==> v@[k] < i,
        decreases n - i,
    {
        let ghost prefix = v@;
        v.push(i);
        let mut j: usize = i;
        assert(prefix.take(i as int) =~= prefix);
        assert(prefix.subrange(i as int, i as int) =~= Seq::<usize>::empty());
        assert(insert_hand(hs, prefix, i) =~= insert_hand(hs, prefix, i) + Seq::<usize>::empty());
        assert(v@ =~= prefix.take(j as int) + seq![i] + prefix.subrange(j as int, i as int));
        while j > 0 && before_exec(hands, i, v[j - 1]) == Some(true)
            invariant
                0 <= j <= i < n,
                n == hands@.len(),
                hs == entries(hands@),
                prefix.len() == i,
                forall|k: int| 0 <= k < prefix.len() ==> prefix[k] < n,
                v@ == prefix.take(j as int) + seq![i] + prefix.subrange(j as int, i as int),
                insert_hand(hs, prefix, i) == insert_hand(hs, prefix.take(j as int), i) + prefix.subrange(j as int, i as int),
            decreases j,
        {
            let y = v[j - 1];
            v.set(j, y);
            v.set(j - 1, i);
            proof {
                assert(y == prefix[j - 1]);
                let pj = prefix.take(j as int);
                assert(pj.drop_last() =~= prefix.take(j - 1));
                assert(pj.last() == y);
                assert(insert_hand(hs, pj, i) == insert_hand(hs, pj.drop_last(), i).push(y));
                assert(prefix.subrange(j - 1, i as int) =~= seq![y] + prefix.subrange(j as int, i as int));
                assert(insert_hand(hs, prefix, i) =~= insert_hand(hs, prefix.take(j - 1), i) + prefix.subrange(j - 1, i as int));
                assert(v@ =~= prefix.take(j - 1) + seq![i] + prefix.subrange(j - 1, i as int));
            }
            j = j - 1;
        }
        proof {
            let pj = prefix.take(j as int);
            assert(insert_hand(hs, pj, i) == pj.push(i));
            assert(v@ =~= insert_hand(hs, prefix, i));
            assert forall|k: int| 0 <= k < v@.len() implies v@[k] < i + 1 by {
                let w = prefix.take(j as int) + seq![i] + prefix.subrange(j as int, i as int);
                assert(v@[k] == w[k]);
                if k < j {
                    assert(w[k] == prefix[k]);
                } else if k > j {
                    assert(w[k] == prefix[k - 1]);
                }
            }
        }
        i = i + 1;
    }
    v
}

/// A hand line: the cards, whitespace, and the bid; `None` for a line of
/// another shape.
pub open spec fn hand_line(line: Seq<char>) -> Option<(Seq<Card>, i64)> {
    let ws = words_spec(trim_spec(line));
    if ws.len() < 2 {
        None
    } else if !(forall|i: int| 0 <= i < ws[0].len() ==> (#[trigger] card_of_char(ws[0][i])) is Some) {
        None
    } else {
        match i64_literal(ws[1]) {
            Some(bid) => Some((ws[0].map_values(|c: char| card_of_char(c)->0), bid)),
            None => None,
        }
    }
}

/// Every line is a hand line.
pub open spec fn hands_readable(ls: Seq<Seq<char>>) -> bool {
    forall|k: int| 0 <= k < ls.len() ==> (#[trigger] hand_line(ls[k])) is Some
}

/// The hands of the lines, each with its bid and type.
pub open spec fn hands_of(ls: Seq<Seq<char>>) -> Seq<(Seq<Card>, i64, HandType)> {
    ls.map_values(|l: Seq<char>| {
        let h = hand_line(l)->0;
        (h.0, h.1, hand_type(h.0))
    })
}

/// Reads the hand lines (every line a hand line) and adds up each bid
/// times its hand's rank; `None` when two hands cannot be ordered, or a
/// product or partial sum does not fit in an `i64`.
pub fn total_winnings(data: &str) -> (r: Option<i64>)
    requires
        hands_readable(lines_spec(data@)),
    ensures
        match r {
            Some(v) => {
                let hs = hands_of(lines_spec(data@));
                &&& hands_readable(lines_spec(data@))
                &&& all_comparable(hs)
                &&& winnings_fit(hs, sorted_hands(hs, hs.len() as int))
                &&& v == winnings_upto(hs, sorted_hands(hs, hs.len() as int), hs.len() as int)
            },
            None => {
                let hs = hands_of(lines_spec(data@));
                ||| !hands_readable(lines_spec(data@))
                ||| !all_comparable(hs)
                ||| !winnings_fit(hs, sorted_hands(hs, hs.len() as int))
                ||| hs.len() > i64::MAX
            },
        },
{
    let chars = chars_of(data);
    let ls = lines(chars.as_slice());
    let ghost lv = rows(ls@);
    let mut hands: Vec<(Vec<Card>, i64, HandType)> = Vec::new();
    let mut i: usize = 0;
    while i < ls.len()
        invariant
            i <= ls@.len(),
            lv == rows(ls@),
            lv == lines_spec(data@),
            hands@.len() == i,
            hands_readable(lv.take(i as int)),
            forall|k: int| 0 <= k < i ==> entry_view(#[trigger] hands@[k]) == hands_of(lv)[k],
        decreases ls@.len() - i,
    {
        assert(lv[i as int] == ls@[i as int]@);
        let line = trim(ls[i].as_slice());
        let ws = words(line.as_slice());
        if ws.len() < 2 {
            assert(hand_line(lv[i as int]) is None);
            return None;
        }
        assert(rows(ws@)[0] == ws@[0]@ && rows(ws@)[1] == ws@[1]@);
        let w0 = &ws[0];
        let mut hand: Vec<Card> = Vec::new();
        let mut k: usize = 0;
        while k < w0.len()
            invariant
                k <= w0@.len(),
                i < lv.len(),
                lv == lines_spec(data@),
                words_spec(trim_spec(lv[i as int])).len() >= 2,
                w0@ == words_spec(trim_spec(lv[i as int]))[0],
                forall|t: int| 0 <= t < k ==> (#[trigger] card_of_char(w0@[t])) is Some,
                hand@ == w0@.take(k as int).map_values(|c: char| card_of_char(c)->0),
            decreases w0@.len() - k,
        {
            let c = w0[k];
            if !(c == 'A' || c == 'K' || c == 'Q' || c == 'J' || c == 'T' || c == '9' || c == '8' || c == '7'
                || c == '6' || c == '5' || c == '4' || c == '3' || c == '2') {
                assert(card_of_char(w0@[k as int]) is None);
                assert(hand_line(lv[i as int]) is None);
                assert(!hands_readable(lv));
                return None;
            }
            hand.push(Card::from_char(c));
            assert(hand@ =~= w0@.take(k + 1).map_values(|c: char| card_of_char(c)->0));
            k = k + 1;
        }
        assert(w0@.take(k as int) =~= w0@);
        let bid = match parse_i64(ws[1].as_slice()) {
            Some(b) => b,
            None => {
                return None;
            },
        };
        let hand_type = HandType::from_hand(&hand);
        hands.push((hand, bid, hand_type));
        assert(hands_readable(lv.take(i + 1))) by {
            assert forall|t: int| 0 <= t < i + 1 implies (#[trigger] hand_line(lv.take(i + 1)[t])) is Some by {
                if t < i {
                    assert(lv.take(i + 1)[t] == lv.take(i as int)[t]);
                }
            }
        }
        i = i + 1;
    }
    assert(lv.take(i as int) =~= lv);
    let ghost hs = hands_of(lv);
    assert(entries(hands@) =~= hs);
    let n = hands.len();
    let mut a: usize = 0;
    while a < n
        invariant
            a <= n,
            n == hands@.len(),
            hs == entries(hands@),
            hs == hands_of(lines_spec(data@)),
            forall|x: int, y: int| 0 <= x < a && 0 <= y < n && x != y ==> (#[trigger] before_at(hs, x, y)) is Some,
        decreases n - a,
    {
        let mut b: usize = 0;
        while b < n
            invariant
                b <= n,
                a < n,
                n == hands@.len(),
                hs == entries(hands@),
                hs == hands_of(lines_spec(data@)),
                forall|x: int, y: int| 0 <= x < a && 0 <= y < n && x != y ==> (#[trigger] before_at(hs, x, y)) is Some,
                forall|y: int| 0 <= y < b && a != y ==> (#[trigger] before_at(hs, a as int, y)) is Some,
            decreases n - b,
        {
            if a != b && before_exec(&hands, a, b).is_none() {
                assert(!all_comparable(hs));
                return None;
            }
            b = b + 1;
        }
        a = a + 1;
    }
    if n as u64 > i64::MAX as u64 {
        return None;
    }
    let order = sort_hands(&hands);
    let ghost ov = order@;
    proof {
        lemma_sorted_len(hs, n as int);
    }
    let mut result: i64 = 0;
    let mut k: usize = 0;
    while k < n
        invariant
            k <= n,
            n == hands@.len(),
            hs == entries(hands@),
            order@ == sorted_hands(hs, n as int),
            order@.len() == n,
            hs == hands_of(lines_spec(data@)),
            hs.len() == n,
            n <= i64::MAX,
            forall|t: int| 0 <= t < n ==> order@[t] < n,
            result == winnings_upto(hs, order@, k as int),
            forall|t: int| 0 <= t < k ==> i64::MIN <= #[trigger] hs[order@[t] as int].1 * (hs.len() - t) <= i64::MAX
                && i64::MIN <= winnings_upto(hs, order@, t + 1) <= i64::MAX,
        decreases n - k,
    {
        let rank = (n - k) as i64;
        let idx = order[k];
        let bid = hands[idx].1;
        assert(hs[idx as int].1 == bid);
        assert(rank == hs.len() - k);
        let p = match bid.checked_mul(rank) {
            Some(p) => p,
            None => {
                assert(!(i64::MIN <= hs[order@[k as int] as int].1 * (hs.len() - k) <= i64::MAX));
                assert(!winnings_fit(hs, order@));
                return None;
            },
        };
        match result.checked_add(p) {
            Some(v) => {
                result = v;
            },
            None => {
                assert(!(i64::MIN <= winnings_upto(hs, order@, k + 1) <= i64::MAX));
                assert(!winnings_fit(hs, order@));
                return None;
            },
        }
        k = k + 1;
    }
    Some(result)
}

proof fn lemma_sorted_len(hs: Seq<(Seq<Card>, i64, HandType)>, k: int)
    requires
        0 <= k,
    ensures
        sorted_hands(hs, k).len() == k,
        forall|t: int| 0 <= t < k ==> #[trigger] sorted_hands(hs, k)[t] < k,
    decreases k,
{
    if k > 0 {
        lemma_sorted_len(hs, k - 1);
        lemma_insert_hand(hs, sorted_hands(hs, k - 1), (k - 1) as usize, k);
    }
}

proof fn lemma_insert_hand(hs: Seq<(Seq<Card>, i64, HandType)>, s: Seq<usize>, x: usize, bound: int)
    requires
        forall|t: int| 0 <= t < s.len() ==> #[trigger] s[t] < bound,
        x < bound,
    ensures
        insert_hand(hs, s, x).len() == s.len() + 1,
        forall|t: int| 0 <= t < s.len() + 1 ==> #[trigger] insert_hand(hs, s, x)[t] < bound,
    decreases s.len(),
{
    if !(s.len() == 0 || before_at(hs, x as int, s.last() as int) != Some(true)) {
        lemma_insert_hand(hs, s.drop_last(), x, bound);
        let u = insert_hand(hs, s.drop_last(), x);
        assert forall|t: int| 0 <= t < s.len() + 1 implies #[trigger] insert_hand(hs, s, x)[t] < bound by {
            if t < u.len() {
                assert(insert_hand(hs, s, x)[t] == u[t]);
            } else {
                assert(insert_hand(hs, s, x)[t] == s.last());
            }
        }
    }
}

} // verus!
