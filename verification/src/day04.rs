//! Scratchcards: each card's matching numbers win copies of the cards that
//! follow it; count all the cards in the end.
use vstd::prelude::*;
use crate::text::{
    chars_of, first_index, find_char, lines, lines_spec, numbers_spec, parse_numbers, rows,
    slice_chars, split_on, split_spec, trim, trim_spec,
};

verus! {

/// How many of the card's numbers appear among the winning numbers.
pub open spec fn match_count(card: Seq<i64>, winning: Seq<i64>) -> nat
    decreases card.len(),
{
    if card.len() == 0 {
        0
    } else {
        match_count(card.drop_last(), winning) + if winning.contains(card.last()) {
            1nat
        } else {
            0nat
        }
    }
}

/// Counts the card's numbers that are among the winning numbers.
pub fn count_matches(card: &Vec<i64>, winning: &Vec<i64>) -> (n: usize)
    ensures
        n == match_count(card@, winning@),
{
    let mut n: usize = 0;
    let mut i: usize = 0;
    while i < card.len()
        invariant
            i <= card@.len(),
            n == match_count(card@.take(i as int), winning@),
            n <= i,
        decreases card@.len() - i,
    {
        assert(card@.take(i + 1).drop_last() =~= card@.take(i as int));
        let mut found = false;
        let mut j: usize = 0;
        while j < winning.len()
            invariant
                j <= winning@.len(),
                i < card@.len(),
                found == (exists|k: int| 0 <= k < j && winning@[k] == card@[i as int]),
            decreases winning@.len() - j,
        {
            if winning[j] == card[i] {
                found = true;
            }
            j = j + 1;
        }
        if found {
            n = n + 1;
        }
        i = i + 1;
    }
    assert(card@.take(i as int) =~= card@);
    n
}

/// The card's two number lists: after the first `:` and one more
/// character, split at `|`, each half trimmed and read as numbers.
pub open spec fn card_spec(line: Seq<char>) -> Option<(Seq<i64>, Seq<i64>)> {
    match first_index(line, ':') {
        Some(i) => if i + 2 <= line.len() {
            let halves = split_spec(line.skip(i + 2), '|');
            if halves.len() >= 2 && numbers_spec(trim_spec(halves[0])) is Some && numbers_spec(
                trim_spec(halves[1]),
            ) is Some {
                Some((numbers_spec(trim_spec(halves[0]))->0, numbers_spec(trim_spec(halves[1]))->0))
            } else {
                None
            }
        } else {
            None
        },
        None => None,
    }
}

/// Reads a card line into its numbers and its winning numbers.
pub fn parse_card(line: &[char]) -> (res: Option<(Vec<i64>, Vec<i64>)>)
    ensures
        match res {
            Some((a, b)) => card_spec(line@) == Some((a@, b@)),
            None => card_spec(line@) is None,
        },
{
    let n = line.len();
    let i = match find_char(line, ':') {
        Some(i) => i,
        None => {
            return None;
        },
    };
    if n - i < 2 {
        return None;
    }
    let rest = slice_chars(line, i + 2, n);
    assert(rest@ =~= line@.skip(i + 2));
    let halves = split_on(rest.as_slice(), '|');
    if halves.len() < 2 {
        return None;
    }
    let h0 = trim(halves[0].as_slice());
    let h1 = trim(halves[1].as_slice());
    assert(rows(halves@)[0] == halves@[0]@ && rows(halves@)[1] == halves@[1]@);
    let card = match parse_numbers(h0.as_slice()) {
        Some(v) => v,
        None => {
            return None;
        },
    };
    let winning = match parse_numbers(h1.as_slice()) {
        Some(v) => v,
        None => {
            return None;
        },
    };
    Some((card, winning))
}

/// The card counts after cards `0..i` have handed out their copies: every
/// card starts as one, and card `i` with `m` matches adds its count to each
/// of the next `m` cards that exist.
pub open spec fn counts_after(ms: Seq<nat>, i: int) -> Seq<int>
    decreases i,
{
    if i <= 0 {
        Seq::new(ms.len(), |k: int| 1)
    } else {
        let prev = counts_after(ms, i - 1);
        Seq::new(
            ms.len(),
            |k: int|
                if i - 1 < k && k <= i - 1 + ms[i - 1] {
                    prev[k] + prev[i - 1]
                } else {
                    prev[k]
                },
        )
    }
}

pub open spec fn seq_sum(s: Seq<int>) -> int
    decreases s.len(),
{
    if s.len() == 0 {
        0
    } else {
        seq_sum(s.drop_last()) + s.last()
    }
}

/// The total number of cards once every card has handed out its copies.
pub open spec fn total_cards(ms: Seq<nat>) -> int {
    seq_sum(counts_after(ms, ms.len() as int))
}

/// Every final count fits in an `i32`.
pub open spec fn counts_fit(ms: Seq<nat>) -> bool {
    forall|k: int| 0 <= k < ms.len() ==> #[trigger] counts_after(ms, ms.len() as int)[k] <= i32::MAX
}

proof fn lemma_counts_grow(ms: Seq<nat>, i: int, j: int)
    requires
        0 <= i <= j,
    ensures
        counts_after(ms, i).len() == ms.len(),
        forall|k: int| 0 <= k < ms.len() ==> 1 <= #[trigger] counts_after(ms, i)[k] <= counts_after(ms, j)[k],
    decreases j,
{
    if j > i {
        lemma_counts_grow(ms, i, j - 1);
        lemma_counts_grow(ms, j - 1, j - 1);
        assert forall|k: int| 0 <= k < ms.len() implies counts_after(ms, j - 1)[k] <= #[trigger] counts_after(ms, j)[k] by {
            if j - 1 < ms.len() {
                assert(counts_after(ms, j - 1)[j - 1] >= 1);
            }
        }
    } else if i > 0 {
        lemma_counts_grow(ms, i - 1, i - 1);
    }
}

proof fn lemma_sum_prefix_bound(s: Seq<int>, j: int)
    requires
        0 <= j <= s.len(),
        forall|k: int| 0 <= k < s.len() ==> s[k] >= 0,
    ensures
        0 <= seq_sum(s.take(j)) <= seq_sum(s),
    decreases s.len() - j,
{
    lemma_sum_nonneg(s.take(j));
    if j < s.len() {
        lemma_sum_prefix_bound(s, j + 1);
        assert(s.take(j + 1).drop_last() =~= s.take(j));
    } else {
        assert(s.take(j) =~= s);
    }
}

proof fn lemma_sum_nonneg(s: Seq<int>)
    requires
        forall|k: int| 0 <= k < s.len() ==> s[k] >= 0,
    ensures
        seq_sum(s) >= 0,
    decreases s.len(),
{
    if s.len() > 0 {
        lemma_sum_nonneg(s.drop_last());
    }
}

/// The total number of cards, given each card's match count; `None` when a
/// count does not fit in an `i32` or the total does not fit in an `i64`.
pub fn total_scratchcards(ms: &Vec<usize>) -> (res: Option<i64>)
    ensures
        match res {
            Some(v) => v == total_cards(ms@.map_values(|m: usize| m as nat)),
            None => !counts_fit(ms@.map_values(|m: usize| m as nat)) || !(total_cards(
                ms@.map_values(|m: usize| m as nat),
            ) <= i64::MAX),
        },
{
    let ghost mv = ms@.map_values(|m: usize| m as nat);
    let n = ms.len();
    let mut counts: Vec<i32> = Vec::new();
    while counts.len() < n
        invariant
            counts@.len() <= n,
            forall|k: int| 0 <= k < counts@.len() ==> counts@[k] == 1,
        decreases n - counts@.len(),
    {
        counts.push(1);
    }
    assert(counts@.map_values(|c: i32| c as int) =~= counts_after(mv, 0));
    let mut i: usize = 0;
    while i < n
        invariant
            i <= n,
            n == ms@.len(),
            mv == ms@.map_values(|m: usize| m as nat),
            counts@.len() == n,
            counts@.map_values(|c: i32| c as int) == counts_after(mv, i as int),
        decreases n - i,
    {
        let c = counts[i];
        let m = ms[i];
        assert(mv[i as int] == m);
        let ghost prev = counts_after(mv, i as int);
        assert(prev[i as int] == c);
        let mut k: usize = 0;
        while k < m
            invariant
                k <= m,
                i < n,
                n == ms@.len(),
                counts@.len() == n,
                mv == ms@.map_values(|m: usize| m as nat),
                m == mv[i as int],
                prev == counts_after(mv, i as int),
                c == prev[i as int],
                forall|t: int|
                    0 <= t < n ==> #[trigger] counts@[t] == if i < t && t <= i + k {
                        prev[t] + prev[i as int]
                    } else {
                        prev[t]
                    },
            ensures
                counts@.len() == n,
                forall|t: int|
                    0 <= t < n ==> #[trigger] counts@[t] == if i < t && t <= i + m {
                        prev[t] + prev[i as int]
                    } else {
                        prev[t]
                    },
            decreases m - k,
        {
            if k >= n - i - 1 {
                break;
            }
            let t = i + k + 1;
            match counts[t].checked_add(c) {
                Some(v) => {
                    counts.set(t, v);
                },
                None => {
                    proof {
                        lemma_counts_grow(mv, i as int + 1, n as int);
                        assert(counts_after(mv, i + 1)[t as int] == prev[t as int] + prev[i as int]);
                        assert(counts_after(mv, n as int)[t as int] > i32::MAX);
                    }
                    return None;
                },
            }
            k = k + 1;
        }
        assert(counts@.map_values(|c: i32| c as int) =~= counts_after(mv, i + 1));
        i = i + 1;
    }
    proof {
        lemma_counts_grow(mv, n as int, n as int);
    }
    let mut total: i64 = 0;
    let mut j: usize = 0;
    while j < n
        invariant
            j <= n,
            counts@.len() == n,
            counts@.map_values(|c: i32| c as int) == counts_after(mv, n as int),
            total == seq_sum(counts_after(mv, n as int).take(j as int)),
            forall|k: int| 0 <= k < n ==> #[trigger] counts_after(mv, n as int)[k] >= 1,
            counts_after(mv, n as int).len() == n,
            mv == ms@.map_values(|m: usize| m as nat),
        decreases n - j,
    {
        assert(counts_after(mv, n as int).take(j + 1).drop_last() =~= counts_after(mv, n as int).take(j as int));
        match total.checked_add(counts[j] as i64) {
            Some(v) => {
                total = v;
            },
            None => {
                proof {
                    lemma_sum_prefix_bound(counts_after(mv, n as int), j as int + 1);
                }
                return None;
            },
        }
        j = j + 1;
    }
    assert(counts_after(mv, n as int).take(j as int) =~= counts_after(mv, n as int));
    Some(total)
}

/// Every line reads as a card.
pub open spec fn cards_readable(ls: Seq<Seq<char>>) -> bool {
    forall|k: int| 0 <= k < ls.len() ==> (#[trigger] card_spec(ls[k])) is Some
}

/// The match count of each card line.
pub open spec fn line_matches(ls: Seq<Seq<char>>) -> Seq<nat> {
    ls.map_values(|l: Seq<char>| { let c = card_spec(l)->0; match_count(c.0, c.1) })
}

/// The number of scratchcards held in the end for the card table `data`,
/// every line of which is a card; `None` when a count does not fit.
pub fn scratchcards_total(data: &str) -> (res: Option<i64>)
    requires
        cards_readable(lines_spec(data@)),
    ensures
        match res {
            Some(v) => cards_readable(lines_spec(data@)) && v == total_cards(
                line_matches(lines_spec(data@)),
            ),
            None => !cards_readable(lines_spec(data@)) || !counts_fit(
                line_matches(lines_spec(data@)),
            ) || !(total_cards(line_matches(lines_spec(data@))) <= i64::MAX),
        },
{
    let chars = chars_of(data);
    let ls = lines(chars.as_slice());
    let ghost lv = rows(ls@);
    let mut ms: Vec<usize> = Vec::new();
    let mut i: usize = 0;
    while i < ls.len()
        invariant
            i <= ls@.len(),
            lv == rows(ls@),
            lv == lines_spec(data@),
            ms@.len() == i,
            cards_readable(lv.take(i as int)),
            forall|k: int| 0 <= k < i ==> #[trigger] ms@[k] as nat == line_matches(lv)[k],
        decreases ls@.len() - i,
    {
        assert(lv[i as int] == ls@[i as int]@);
        let (card, winning) = match parse_card(ls[i].as_slice()) {
            Some(p) => p,
            None => {
                assert(!cards_readable(lv)) by {
                    assert(card_spec(lv[i as int]) is None);
                }
                return None;
            },
        };
        let m = count_matches(&card, &winning);
        ms.push(m);
        assert(cards_readable(lv.take(i + 1))) by {
            assert forall|k: int| 0 <= k < i + 1 implies (#[trigger] card_spec(lv.take(i + 1)[k])) is Some by {
                if k < i {
                    assert(lv.take(i + 1)[k] == lv.take(i as int)[k]);
                }
            }
        }
        i = i + 1;
    }
    assert(lv.take(i as int) =~= lv);
    assert(ms@.map_values(|m: usize| m as nat) =~= line_matches(lv));
    total_scratchcards(&ms)
}

} // verus!
