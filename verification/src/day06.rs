//! Toy boat races: holding the button for `b` of `t` milliseconds moves the
//! boat `(t - b) * b` millimetres; count the ways to beat the record.
use vstd::prelude::*;
use crate::text::{chars_of, i64_literal, lines, lines_spec, parse_i64, rows};

verus! {

/// The distance travelled when the button is held for `button_press_time`.
pub fn dist_for_time(button_press_time: i64, total_time: i64) -> (d: i64)
    requires
        i64::MIN <= total_time - button_press_time <= i64::MAX,
        i64::MIN <= (total_time - button_press_time) * button_press_time <= i64::MAX,
    ensures
        d == (total_time - button_press_time) * button_press_time,
{
    let travel_time = total_time - button_press_time;
    travel_time * button_press_time
}

/// The number of holding times `b` in `1..k` that beat `distance`.
pub open spec fn wins_below(time: int, distance: int, k: int) -> nat
    decreases k,
{
    if k <= 1 {
        0
    } else {
        wins_below(time, distance, k - 1) + if (time - (k - 1)) * (k - 1) > distance {
            1nat
        } else {
            0nat
        }
    }
}

proof fn lemma_product_bound(t: int, b: int)
    requires
        0 <= b <= t,
    ensures
        0 <= (t - b) * b,
        4 * ((t - b) * b) <= t * t,
{
    assert(0 <= (t - b) * b) by (nonlinear_arith)
        requires
            0 <= b <= t,
    ;
    assert(4 * ((t - b) * b) <= t * t) by (nonlinear_arith)
        requires
            0 <= b <= t,
    ;
}

/// The race's answer: the number of ways to beat the record, or 1 when there
/// is none.
pub fn race_result(time: i64, distance: i64) -> (res: i64)
    requires
        time * time <= 4 * (i64::MAX as int),
    ensures
        res == if wins_below(time as int, distance as int, time as int) > 0 {
            wins_below(time as int, distance as int, time as int) as int
        } else {
            1
        },
{
    let mut count: i64 = 0;
    let mut k: i64 = 1;
    if time < 1 {
        return 1;
    }
    while k < time
        invariant
            1 <= k <= time,
            time * time <= 4 * (i64::MAX as int),
            count == wins_below(time as int, distance as int, k as int),
            count <= k,
        decreases time - k,
    {
        proof {
            lemma_product_bound(time as int, k as int);
        }
        let d = dist_for_time(k, time);
        if d > distance {
            count = count + 1;
        }
        k = k + 1;
    }
    if count > 0 {
        count
    } else {
        1
    }
}

/// `s` with every space removed.
pub open spec fn without_spaces(s: Seq<char>) -> Seq<char>
    decreases s.len(),
{
    if s.len() == 0 {
        s
    } else if s.last() == ' ' {
        without_spaces(s.drop_last())
    } else {
        without_spaces(s.drop_last()).push(s.last())
    }
}

fn remove_spaces(s: &[char], from: usize) -> (res: Vec<char>)
    requires
        from <= s@.len(),
    ensures
        res@ == without_spaces(s@.skip(from as int)),
{
    let ghost t = s@.skip(from as int);
    let mut res: Vec<char> = Vec::new();
    let mut i: usize = from;
    while i < s.len()
        invariant
            from <= i <= s@.len(),
            t == s@.skip(from as int),
            res@ == without_spaces(t.take(i - from)),
        decreases s@.len() - i,
    {
        assert(t.take(i + 1 - from).drop_last() =~= t.take(i - from));
        assert(t.take(i + 1 - from).last() == s@[i as int]);
        if s[i] != ' ' {
            res.push(s[i]);
        }
        i = i + 1;
    }
    assert(t.take(i - from) =~= t);
    res
}

pub open spec fn time_prefix() -> Seq<char> {
    seq!['T', 'i', 'm', 'e', ':', ' ']
}

pub open spec fn distance_prefix() -> Seq<char> {
    seq!['D', 'i', 's', 't', 'a', 'n', 'c', 'e', ':', ' ']
}

/// The race described by lines `ls`: the last `Time: ` line gives the time
/// and the last `Distance: ` line the record, each with its spaces removed
/// (0 when there is no such line); `None` when such a line does not read as
/// a number.
pub open spec fn race_spec(ls: Seq<Seq<char>>) -> Option<(i64, i64)>
    decreases ls.len(),
{
    if ls.len() == 0 {
        Some((0, 0))
    } else {
        let l = ls.last();
        match race_spec(ls.drop_last()) {
            None => None,
            Some((t, d)) => if time_prefix().is_prefix_of(l) {
                match i64_literal(without_spaces(l.skip(6))) {
                    Some(v) => Some((v, d)),
                    None => None,
                }
            } else if distance_prefix().is_prefix_of(l) {
                match i64_literal(without_spaces(l.skip(10))) {
                    Some(v) => Some((t, v)),
                    None => None,
                }
            } else {
                Some((t, d))
            },
        }
    }
}

proof fn lemma_race_none(ls: Seq<Seq<char>>, k: int)
    requires
        0 <= k <= ls.len(),
        race_spec(ls.take(k)) is None,
    ensures
        race_spec(ls) is None,
    decreases ls.len() - k,
{
    if k < ls.len() {
        assert(ls.take(k + 1).drop_last() =~= ls.take(k));
        lemma_race_none(ls, k + 1);
    } else {
        assert(ls.take(k) =~= ls);
    }
}

/// Reads the race time and record distance.
pub fn parse_race(data: &str) -> (res: Option<(i64, i64)>)
    ensures
        res == race_spec(lines_spec(data@)),
{
    let chars = chars_of(data);
    let ls = lines(chars.as_slice());
    let ghost lv = rows(ls@);
    let tp: Vec<char> = vec!['T', 'i', 'm', 'e', ':', ' '];
    let dp: Vec<char> = vec!['D', 'i', 's', 't', 'a', 'n', 'c', 'e', ':', ' '];
    assert(tp@ =~= time_prefix());
    assert(dp@ =~= distance_prefix());
    let mut time: i64 = 0;
    let mut distance: i64 = 0;
    let mut i: usize = 0;
    while i < ls.len()
        invariant
            i <= ls@.len(),
            lv == rows(ls@),
            lv == lines_spec(data@),
            tp@ == time_prefix(),
            dp@ == distance_prefix(),
            race_spec(lv.take(i as int)) == Some((time, distance)),
        decreases ls@.len() - i,
    {
        let line = &ls[i];
        assert(lv[i as int] == line@);
        assert(lv.take(i + 1).drop_last() =~= lv.take(i as int));
        assert(lv.take(i + 1).last() == line@);
        if crate::day01::starts_with(line.as_slice(), &tp) {
            let digits = remove_spaces(line.as_slice(), 6);
            match parse_i64(digits.as_slice()) {
                Some(v) => {
                    time = v;
                },
                None => {
                    proof {
                        lemma_race_none(lv, i + 1);
                    }
                    return None;
                },
            }
        } else if crate::day01::starts_with(line.as_slice(), &dp) {
            let digits = remove_spaces(line.as_slice(), 10);
            match parse_i64(digits.as_slice()) {
                Some(v) => {
                    distance = v;
                },
                None => {
                    proof {
                        lemma_race_none(lv, i + 1);
                    }
                    return None;
                },
            }
        }
        i = i + 1;
    }
    assert(lv.take(i as int) =~= lv);
    Some((time, distance))
}

} // verus!
