//! Hot springs: rows of springs, some known to work, some known to be
//! damaged and some unknown, with the lengths of the runs of damaged springs;
//! count the ways to fill in the unknown springs.
use vstd::prelude::*;
use crate::text::{
    chars_of, fields_spec, lines, lines_spec, parse_fields, rows, trim, trim_spec, words, words_spec,
};

verus! {

/// The condition of a spring.
#[derive(Debug, Clone, Copy, PartialEq, Eq, Structural)]
pub enum State {
    Working,
    Damaged,
    Unknown,
}

/// The spring a character shows: `#` damaged, `.` working, `?` unknown.
pub open spec fn state_of(c: char) -> State {
    if c == '#' {
        State::Damaged
    } else if c == '.' {
        State::Working
    } else {
        State::Unknown
    }
}

/// The character is one of `#`, `.` and `?`.
pub open spec fn spring_char(c: char) -> bool {
    c == '#' || c == '.' || c == '?'
}

/// The character that shows a spring.
pub open spec fn char_of(s: State) -> char {
    match s {
        State::Working => '.',
        State::Damaged => '#',
        State::Unknown => '?',
    }
}

impl State {
    /// The springs a row of characters shows.
    pub fn from_str(s: &[char]) -> (v: Vec<State>)
        requires
            forall|i: int| 0 <= i < s@.len() ==> spring_char(#[trigger] s@[i]),
        ensures
            v@ == s@.map_values(|c: char| state_of(c)),
    {
        let mut v: Vec<State> = Vec::new();
        let mut i: usize = 0;
        while i < s.len()
            invariant
                i <= s@.len(),
                forall|k: int| 0 <= k < s@.len() ==> spring_char(#[trigger] s@[k]),
                v@ == s@.take(i as int).map_values(|c: char| state_of(c)),
            decreases s@.len() - i,
        {
            v.push(State::from_char(s[i]));
            assert(s@.take(i + 1).map_values(|c: char| state_of(c)) =~= s@.take(i as int).map_values(|c: char| state_of(c)).push(state_of(s@[i as int])));
            i = i + 1;
        }
        assert(s@.take(i as int) =~= s@);
        v
    }

    /// The spring a character shows.
    pub fn from_char(c: char) -> (s: State)
        requires
            spring_char(c),
        ensures
            s == state_of(c),
    {
        match c {
            '#' => State::Damaged,
            '.' => State::Working,
            _ => State::Unknown,
        }
    }
}

/// Writes a row of springs as characters.
pub fn smap(map: &[State]) -> (s: Vec<char>)
    ensures
        s@ == map@.map_values(|x: State| char_of(x)),
{
    let mut s: Vec<char> = Vec::new();
    let mut i: usize = 0;
    while i < map.len()
        invariant
            i <= map@.len(),
            s@ == map@.take(i as int).map_values(|x: State| char_of(x)),
        decreases map@.len() - i,
    {
        let c = match map[i] {
            State::Working => '.',
            State::Damaged => '#',
            State::Unknown => '?',
        };
        s.push(c);
        assert(map@.take(i + 1).map_values(|x: State| char_of(x)) =~= map@.take(i as int).map_values(|x: State| char_of(x)).push(c));
        i = i + 1;
    }
    assert(map@.take(i as int) =~= map@);
    s
}

/// The lengths of the runs of damaged springs in a row, in order, given the
/// runs before position `k` and the length of the run `cur` going on there.
pub open spec fn runs_from(map: Seq<State>, k: int, done: Seq<int>, cur: int) -> Seq<int>
    decreases map.len() - k,
{
    if k >= map.len() {
        if cur > 0 {
            done.push(cur)
        } else {
            done
        }
    } else if map[k] == State::Damaged {
        runs_from(map, k + 1, done, cur + 1)
    } else if cur > 0 {
        runs_from(map, k + 1, done.push(cur), 0)
    } else {
        runs_from(map, k + 1, done, 0)
    }
}

/// The lengths of the runs of damaged springs in a row, in order.
pub open spec fn runs_of(map: Seq<State>) -> Seq<int> {
    runs_from(map, 0, Seq::empty(), 0)
}

/// The row shows no unknown spring.
pub open spec fn known(map: Seq<State>) -> bool {
    forall|i: int| 0 <= i < map.len() ==> map[i] != State::Unknown
}

/// The runs as integers.
pub open spec fn ints(v: Seq<i64>) -> Seq<int> {
    v.map_values(|x: i64| x as int)
}

proof fn lemma_runs_from_prefix(map: Seq<State>, k: int, done: Seq<int>, cur: int)
    requires
        0 <= k <= map.len(),
        cur >= 0,
    ensures
        runs_from(map, k, done, cur).len() >= done.len(),
        runs_from(map, k, done, cur).take(done.len() as int) == done,
        cur > 0 && runs_from(map, k, done, cur).len() > done.len() ==> runs_from(map, k, done, cur)[done.len() as int] >= cur,
    decreases map.len() - k,
{
    if k < map.len() {
        if map[k] == State::Damaged {
            lemma_runs_from_prefix(map, k + 1, done, cur + 1);
        } else if cur > 0 {
            lemma_runs_from_prefix(map, k + 1, done.push(cur), 0);
            let r = runs_from(map, k + 1, done.push(cur), 0);
            assert(r.take(done.len() + 1 as int) == done.push(cur));
            assert(r.take(done.len() as int) =~= done.push(cur).take(done.len() as int));
            assert(done.push(cur).take(done.len() as int) =~= done);
            assert(r[done.len() as int] == done.push(cur)[done.len() as int]);
        } else {
            lemma_runs_from_prefix(map, k + 1, done, 0);
        }
    } else {
        assert(done.push(cur).take(done.len() as int) =~= done);
    }
}

/// Whether the damaged runs of a row with no unknown springs are `damaged_runs`.
pub fn is_match(map: &[State], damaged_runs: &[i64]) -> (r: bool)
    requires
        known(map@),
        map@.len() < i64::MAX,
    ensures
        r == (runs_of(map@) == ints(damaged_runs@)),
{
    let ghost want = ints(damaged_runs@);
    assert(want.take(0) =~= Seq::<int>::empty());
    let mut ri: usize = 0;
    let mut in_run = false;
    let mut cur_run: i64 = 0;
    let mut i: usize = 0;
    while i < map.len()
        invariant
            i <= map@.len(),
            known(map@),
            want == ints(damaged_runs@),
            ri <= damaged_runs@.len(),
            in_run == (cur_run > 0),
            0 <= cur_run <= i,
            map@.len() < i64::MAX,
            runs_of(map@) == runs_from(map@, i as int, want.take(ri as int), cur_run as int),
            in_run ==> ri < damaged_runs@.len(),
        decreases map@.len() - i,
    {
        if map[i] == State::Damaged {
            if ri >= damaged_runs.len() {
                proof {
                    lemma_runs_from_prefix(map@, i + 1, want.take(ri as int), cur_run + 1);
                    let r = runs_from(map@, i + 1, want.take(ri as int), cur_run + 1);
                    assert(r.len() > want.len()) by {
                        lemma_runs_past(map@, i + 1, want.take(ri as int), cur_run + 1);
                    }
                }
                return false;
            }
            cur_run = cur_run + 1;
            in_run = true;
        } else if map[i] == State::Working {
            if in_run {
                if cur_run != damaged_runs[ri] {
                    proof {
                        lemma_runs_from_prefix(map@, i + 1, want.take(ri as int).push(cur_run as int), 0);
                        let r = runs_from(map@, i + 1, want.take(ri as int).push(cur_run as int), 0);
                        assert(r.take(ri + 1) == want.take(ri as int).push(cur_run as int));
                        if r == want {
                            assert(r[ri as int] == want[ri as int]);
                            assert(r.take(ri + 1)[ri as int] == cur_run);
                        }
                    }
                    return false;
                }
                assert(want.take(ri as int).push(cur_run as int) =~= want.take(ri + 1));
                in_run = false;
                cur_run = 0;
                ri = ri + 1;
            }
        }
        i = i + 1;
    }
    if in_run {
        if cur_run != damaged_runs[ri] {
            proof {
                let r = want.take(ri as int).push(cur_run as int);
                if r == want {
                    assert(r[ri as int] == want[ri as int]);
                }
            }
            return false;
        }
        assert(want.take(ri as int).push(cur_run as int) =~= want.take(ri + 1));
        ri = ri + 1;
    }
    if ri != damaged_runs.len() {
        proof {
            if want.take(ri as int) == want {
                assert(want.take(ri as int).len() == ri);
            }
        }
        return false;
    }
    assert(want.take(ri as int) =~= want);
    true
}

proof fn lemma_runs_past(map: Seq<State>, k: int, done: Seq<int>, cur: int)
    requires
        0 <= k <= map.len(),
        cur > 0,
    ensures
        runs_from(map, k, done, cur).len() > done.len(),
    decreases map.len() - k,
{
    if k < map.len() {
        if map[k] == State::Damaged {
            lemma_runs_past(map, k + 1, done, cur + 1);
        } else {
            lemma_runs_from_prefix(map, k + 1, done.push(cur), 0);
        }
    }
}

/// How many springs of the row are unknown.
pub open spec fn unknowns(map: Seq<State>) -> nat
    decreases map.len(),
{
    if map.len() == 0 {
        0
    } else {
        unknowns(map.drop_last()) + if map.last() == State::Unknown {
            1nat
        } else {
            0nat
        }
    }
}

/// Filling in an unknown spring leaves one unknown spring fewer.
pub proof fn lemma_unknowns_set(map: Seq<State>, i: int, s: State)
    requires
        0 <= i < map.len(),
        map[i] == State::Unknown,
        s != State::Unknown,
    ensures
        unknowns(map.update(i, s)) + 1 == unknowns(map),
    decreases map.len(),
{
    let u = map.update(i, s);
    if i < map.len() - 1 {
        assert(u.drop_last() =~= map.drop_last().update(i, s));
        lemma_unknowns_set(map.drop_last(), i, s);
    } else {
        assert(u.drop_last() =~= map.drop_last());
    }
}

proof fn lemma_unknowns_zero(map: Seq<State>)
    ensures
        (unknowns(map) == 0) == known(map),
    decreases map.len(),
{
    if map.len() > 0 {
        lemma_unknowns_zero(map.drop_last());
        if known(map) {
            assert forall|i: int| 0 <= i < map.drop_last().len() implies map.drop_last()[i] != State::Unknown by {
                assert(map.drop_last()[i] == map[i]);
            }
        }
        if known(map.drop_last()) && map.last() != State::Unknown {
            assert forall|i: int| 0 <= i < map.len() implies map[i] != State::Unknown by {
                if i < map.len() - 1 {
                    assert(map.drop_last()[i] == map[i]);
                }
            }
        }
    }
}

/// The position of the first unknown spring (the row's length when there is none).
pub open spec fn first_unknown(map: Seq<State>) -> int
    decreases map.len(),
{
    if map.len() == 0 {
        0
    } else if map[0] == State::Unknown {
        0
    } else {
        1 + first_unknown(map.skip(1))
    }
}

proof fn lemma_first_unknown(map: Seq<State>)
    ensures
        0 <= first_unknown(map) <= map.len(),
        first_unknown(map) < map.len() ==> map[first_unknown(map)] == State::Unknown,
        first_unknown(map) == map.len() ==> known(map),
    decreases map.len(),
{
    if map.len() > 0 && map[0] != State::Unknown {
        lemma_first_unknown(map.skip(1));
        if first_unknown(map) == map.len() {
            assert forall|i: int| 0 <= i < map.len() implies map[i] != State::Unknown by {
                if i > 0 {
                    assert(map[i] == map.skip(1)[i - 1]);
                }
            }
        }
    }
}

/// The number of ways to fill in the unknown springs of a row so that its
/// damaged runs are `runs`, trying working then damaged for the first
/// unknown spring.
pub open spec fn arrangements(map: Seq<State>, runs: Seq<int>) -> nat
    decreases unknowns(map),
{
    let f = first_unknown(map);
    if f < 0 || f >= map.len() || map[f] != State::Unknown {
        if runs_of(map) == runs {
            1
        } else {
            0
        }
    } else {
        proof {
            lemma_unknowns_set(map, f, State::Working);
            lemma_unknowns_set(map, f, State::Damaged);
        }
        arrangements(map.update(f, State::Working), runs) + arrangements(map.update(f, State::Damaged), runs)
    }
}

/// The arrangements of the rows from position `k` on, added up.
pub open spec fn arrangements_from(rs: Seq<Seq<State>>, k: int, runs: Seq<int>) -> nat
    decreases rs.len() - k,
{
    if k < 0 || k >= rs.len() {
        0
    } else {
        arrangements(rs[k], runs) + arrangements_from(rs, k + 1, runs)
    }
}

proof fn lemma_arrangements_push(rs: Seq<Seq<State>>, k: int, a: Seq<State>, runs: Seq<int>)
    requires
        0 <= k <= rs.len(),
    ensures
        arrangements_from(rs.push(a), k, runs) == arrangements_from(rs, k, runs) + arrangements(a, runs),
    decreases rs.len() - k,
{
    if k < rs.len() {
        lemma_arrangements_push(rs, k + 1, a, runs);
        assert(rs.push(a)[k] == rs[k]);
    } else {
        assert(rs.push(a)[k] == a);
        assert(arrangements_from(rs.push(a), k + 1, runs) == 0);
    }
}

/// The rows of springs as plain values.
pub open spec fn rows_of(v: Seq<Vec<State>>) -> Seq<Seq<State>> {
    v.map_values(|r: Vec<State>| r@)
}

fn find_unknown(row: &Vec<State>) -> (r: Option<usize>)
    ensures
        match r {
            Some(f) => f == first_unknown(row@) && f < row@.len() && row@[f as int] == State::Unknown,
            None => first_unknown(row@) == row@.len() && known(row@),
        },
{
    proof {
        lemma_first_unknown(row@);
    }
    let mut i: usize = 0;
    while i < row.len()
        invariant
            i <= row@.len(),
            first_unknown(row@) >= i,
            0 <= first_unknown(row@) <= row@.len(),
            first_unknown(row@) < row@.len() ==> row@[first_unknown(row@)] == State::Unknown,
            first_unknown(row@) == row@.len() ==> known(row@),
            forall|k: int| 0 <= k < i ==> row@[k] != State::Unknown,
        decreases row@.len() - i,
    {
        if row[i] == State::Unknown {
            proof {
                lemma_first_unknown_at(row@, i as int);
            }
            return Some(i);
        }
        i = i + 1;
    }
    None
}

proof fn lemma_first_unknown_at(map: Seq<State>, i: int)
    requires
        0 <= i < map.len(),
        map[i] == State::Unknown,
        forall|k: int| 0 <= k < i ==> map[k] != State::Unknown,
    ensures
        first_unknown(map) == i,
    decreases i,
{
    if i > 0 {
        assert forall|k: int| 0 <= k < i - 1 implies map.skip(1)[k] != State::Unknown by {
            assert(map.skip(1)[k] == map[k + 1]);
        }
        lemma_first_unknown_at(map.skip(1), i - 1);
    }
}

/// Counts the ways to fill in the unknown springs of `map` so that its
/// damaged runs are `runs`, trying every filling; `None` when the count does
/// not fit in an `i64`.
pub fn count_fillings(map: Vec<State>, runs: &Vec<i64>) -> (r: Option<i64>)
    requires
        map@.len() < i64::MAX,
    ensures
        match r {
            Some(v) => v == arrangements(map@, ints(runs@)),
            None => arrangements(map@, ints(runs@)) > i64::MAX,
        },
{
    let ghost total = arrangements(map@, ints(runs@));
    let ghost len = map@.len();
    let ghost mut level: int = unknowns(map@) as int;
    let mut to_check: Vec<Vec<State>> = Vec::new();
    to_check.push(map);
    let mut line_result: i64 = 0;
    assert(arrangements_from(rows_of(to_check@), 1, ints(runs@)) == 0);
    while to_check.len() > 0
        invariant
            line_result + arrangements_from(rows_of(to_check@), 0, ints(runs@)) == total,
            total == arrangements(map@, ints(runs@)),
            0 <= line_result,
            forall|k: int| 0 <= k < to_check@.len() ==> (#[trigger] to_check@[k])@.len() == len,
            forall|k: int| 0 <= k < to_check@.len() ==> unknowns((#[trigger] to_check@[k])@) == level,
            len < i64::MAX,
            to_check@.len() > 0 ==> level >= 0,
        decreases level + 1,
    {
        let work = to_check;
        to_check = Vec::new();
        let ghost wv = rows_of(work@);
        let mut k: usize = 0;
        while k < work.len()
            invariant
                k <= work@.len(),
                wv == rows_of(work@),
                line_result + arrangements_from(wv, k as int, ints(runs@)) + arrangements_from(rows_of(to_check@), 0, ints(runs@)) == total,
                total == arrangements(map@, ints(runs@)),
                0 <= line_result,
                forall|j: int| 0 <= j < work@.len() ==> (#[trigger] work@[j])@.len() == len,
                forall|j: int| 0 <= j < work@.len() ==> unknowns((#[trigger] work@[j])@) == level,
                forall|j: int| 0 <= j < to_check@.len() ==> (#[trigger] to_check@[j])@.len() == len,
                forall|j: int| 0 <= j < to_check@.len() ==> unknowns((#[trigger] to_check@[j])@) == level - 1,
                to_check@.len() > 0 ==> level >= 1,
                len < i64::MAX,
            decreases work@.len() - k,
        {
            let workline = &work[k];
            assert(wv[k as int] == workline@);
            match find_unknown(workline) {
                Some(first) => {
                    let mut new_workline = workline.clone();
                    assert(new_workline@ == workline@);
                    new_workline.set(first, State::Working);
                    let w1 = new_workline.clone();
                    assert(w1@ == new_workline@);
                    new_workline.set(first, State::Damaged);
                    proof {
                        lemma_unknowns_set(workline@, first as int, State::Working);
                        lemma_unknowns_set(workline@, first as int, State::Damaged);
                        assert(new_workline@ =~= workline@.update(first as int, State::Damaged));
                        assert(w1@ =~= workline@.update(first as int, State::Working));
                        lemma_arrangements_push(rows_of(to_check@), 0, w1@, ints(runs@));
                        assert(rows_of(to_check@.push(w1)) =~= rows_of(to_check@).push(w1@));
                        lemma_arrangements_push(rows_of(to_check@.push(w1)), 0, new_workline@, ints(runs@));
                        assert(rows_of(to_check@.push(w1).push(new_workline)) =~= rows_of(to_check@.push(w1)).push(new_workline@));
                    }
                    to_check.push(w1);
                    to_check.push(new_workline);
                },
                None => {
                    let ok = is_match(workline.as_slice(), runs.as_slice());
                    if ok {
                        if line_result == i64::MAX {
                            assert(arrangements(workline@, ints(runs@)) == 1);
                            assert(arrangements_from(wv, k as int, ints(runs@)) >= 1);
                            return None;
                        }
                        line_result = line_result + 1;
                    }
                },
            }
            k = k + 1;
        }
        proof {
            level = level - 1;
        }
    }
    Some(line_result)
}

/// The first position at or after `i` of a spring not known to work.
pub open spec fn skip_working(map: Seq<State>, i: int) -> int
    decreases map.len() - i,
{
    if i < 0 || i >= map.len() || map[i] != State::Working {
        i
    } else {
        skip_working(map, i + 1)
    }
}

proof fn lemma_skip_working(map: Seq<State>, i: int)
    requires
        0 <= i <= map.len(),
    ensures
        i <= skip_working(map, i) <= map.len(),
        skip_working(map, i) < map.len() ==> map[skip_working(map, i)] != State::Working,
        forall|k: int| i <= k < skip_working(map, i) ==> map[k] == State::Working,
    decreases map.len() - i,
{
    if i < map.len() && map[i] == State::Working {
        lemma_skip_working(map, i + 1);
    }
}

/// The row holds a damaged spring.
pub open spec fn has_damaged(map: Seq<State>) -> bool {
    exists|k: int| 0 <= k < map.len() && map[k] == State::Damaged
}

/// The count of a row after its leading working springs are dropped; `None`
/// where a sum does not fit in an `i64` or a run count goes below `i64::MIN`.
pub open spec fn num_match_spec(map: Seq<State>, runs: Seq<i64>, in_dmg: bool) -> Option<int>
    decreases map.len(), unknowns(map), 2int, 0int,
{
    let i = skip_working(map, 0);
    if 0 <= i <= map.len() {
        proof {
            if i == 0 {
                assert(map.skip(0) =~= map);
            }
        }
        nx_spec(map.skip(i), runs, in_dmg)
    } else {
        None
    }
}

/// The count the recursive matcher gives for a row and its damaged runs: no
/// runs left leaves one way if no spring is damaged and none otherwise;
/// else the row is read spring by spring (see `nx_walk`).
pub open spec fn nx_spec(map: Seq<State>, runs: Seq<i64>, in_dmg: bool) -> Option<int>
    decreases map.len(), unknowns(map), 1int, 0int,
{
    if runs.len() == 0 {
        Some(if has_damaged(map) { 0 } else { 1 })
    } else {
        nx_walk(map, runs, 0, runs[0] as int, in_dmg, in_dmg)
    }
}

/// The matcher at position `i`, with `er` springs of the current run still
/// expected, `first_dmg` once a damaged spring has been seen and `in_dmg`
/// while in a damaged stretch. A working spring ends the count with 0 when
/// a run was under way and is unfinished, and moves on to the next run when
/// the run is complete. A damaged spring uses up one of the run (0 when the
/// run is exceeded). An unknown spring is taken as damaged while a run is
/// under way; otherwise it is tried as working (for the next run when the
/// run is complete) and, when the run is not complete, also as damaged, and
/// the two counts are added. At the end of the row the count is 1 exactly
/// when the run is complete and it was the last.
pub open spec fn nx_walk(map: Seq<State>, runs: Seq<i64>, i: int, er: int, first_dmg: bool, in_dmg: bool) -> Option<int>
    decreases map.len(), unknowns(map), 0int, map.len() - i,
{
    if i < 0 || runs.len() == 0 {
        None
    } else if i >= map.len() {
        if er != 0 {
            Some(0)
        } else if runs.len() > 1 {
            Some(0)
        } else {
            Some(1)
        }
    } else if map[i] == State::Working {
        if first_dmg && er > 0 {
            Some(0)
        } else if er == 0 {
            num_match_spec(map.skip(i + 1), runs.skip(1), false)
        } else {
            nx_walk(map, runs, i + 1, er, first_dmg, false)
        }
    } else if map[i] == State::Damaged {
        if er - 1 < i64::MIN {
            None
        } else if er - 1 < 0 {
            Some(0)
        } else {
            nx_walk(map, runs, i + 1, er - 1, true, true)
        }
    } else if in_dmg && er > 0 {
        nx_walk(map, runs, i + 1, er - 1, first_dmg, in_dmg)
    } else {
        proof {
            lemma_unknowns_set(map, i, State::Working);
            lemma_unknowns_set(map, i, State::Damaged);
            if i == 0 {
                assert(map.update(i, State::Working).skip(i) =~= map.update(i, State::Working));
                assert(map.update(i, State::Damaged).skip(i) =~= map.update(i, State::Damaged));
            }
        }
        if er == 0 {
            num_match_spec(map.update(i, State::Working).skip(i), runs.skip(1), false)
        } else {
            match (
                num_match_spec(map.update(i, State::Working).skip(i), runs, false),
                num_match_spec(map.update(i, State::Damaged).skip(i), runs, in_dmg),
            ) {
                (Some(a), Some(b)) => if a + b <= i64::MAX && a + b >= i64::MIN {
                    Some(a + b)
                } else {
                    None
                },
                _ => None,
            }
        }
    }
}

/// The count of the row from position `start` on, its leading working
/// springs dropped, against the runs from `rstart` on.
fn num_match_from(map: &Vec<State>, start: usize, runs: &Vec<i64>, rstart: usize, in_dmg_in: bool) -> (r: Option<i64>)
    requires
        start <= map@.len(),
        rstart <= runs@.len(),
    ensures
        match r {
            Some(v) => num_match_spec(map@.skip(start as int), runs@.skip(rstart as int), in_dmg_in) == Some(v as int),
            None => num_match_spec(map@.skip(start as int), runs@.skip(rstart as int), in_dmg_in) is None,
        },
    decreases map@.len() - start, unknowns(map@.skip(start as int)), 2int, 0int,
{
    let ghost m = map@.skip(start as int);
    proof {
        lemma_skip_working(m, 0);
    }
    let mut i: usize = start;
    while i < map.len() && map[i] == State::Working
        invariant
            start <= i <= map@.len(),
            m == map@.skip(start as int),
            skip_working(m, 0) == skip_working(m, i - start),
        decreases map@.len() - i,
    {
        assert(m[i - start] == map@[i as int]);
        i = i + 1;
    }
    assert(m.skip(i - start) =~= map@.skip(i as int));
    proof {
        if i == start {
            assert(map@.skip(i as int) =~= m);
        }
    }
    nx_from(map, i, runs, rstart, in_dmg_in)
}

/// The count of the recursive matcher for the row from position `start` on
/// against the runs from `rstart` on.
fn nx_from(map: &Vec<State>, start: usize, runs: &Vec<i64>, rstart: usize, in_dmg_in: bool) -> (r: Option<i64>)
    requires
        start <= map@.len(),
        rstart <= runs@.len(),
    ensures
        match r {
            Some(v) => nx_spec(map@.skip(start as int), runs@.skip(rstart as int), in_dmg_in) == Some(v as int),
            None => nx_spec(map@.skip(start as int), runs@.skip(rstart as int), in_dmg_in) is None,
        },
    decreases map@.len() - start, unknowns(map@.skip(start as int)), 1int, 0int,
{
    let ghost m = map@.skip(start as int);
    let ghost rs = runs@.skip(rstart as int);
    let n = map.len();
    if rstart == runs.len() {
        let mut k: usize = start;
        while k < n
            invariant
                start <= k <= n,
                n == map@.len(),
                m == map@.skip(start as int),
                rs == runs@.skip(rstart as int),
                rstart == runs@.len(),
                forall|j: int| 0 <= j < k - start ==> m[j] != State::Damaged,
            decreases n - k,
        {
            if map[k] == State::Damaged {
                assert(m[k - start] == State::Damaged);
                assert(has_damaged(m));
                assert(rs.len() == 0);
                return Some(0);
            }
            k = k + 1;
        }
        assert(rs.len() == 0);
        assert(!has_damaged(m));
        return Some(1);
    }
    let rn = runs.len();
    let mut er: i64 = runs[rstart];
    assert(rs[0] == er);
    let mut first_dmg = in_dmg_in;
    let mut in_dmg = in_dmg_in;
    let mut i: usize = start;
    loop
        invariant
            start <= i <= n,
            n == map@.len(),
            rstart < runs@.len(),
            rn == runs@.len(),
            m == map@.skip(start as int),
            rs == runs@.skip(rstart as int),
            rs.len() > 0,
            nx_spec(m, rs, in_dmg_in) == nx_walk(m, rs, i - start, er as int, first_dmg, in_dmg),
        decreases n - i,
    {
        let li: usize = i - start;
        if i >= n {
            if er != 0 {
                return Some(0);
            }
            if runs.len() - rstart > 1 {
                return Some(0);
            }
            return Some(1);
        }
        assert(m[li as int] == map@[i as int]);
        match map[i] {
            State::Working => {
                in_dmg = false;
                if first_dmg && er > 0 {
                    return Some(0);
                }
                if er == 0 {
                    assert(m.skip(li + 1) =~= map@.skip(i + 1));
                    assert(rs.skip(1) =~= runs@.skip(rstart + 1));
                    return num_match_from(map, i + 1, runs, rstart + 1, false);
                }
            },
            State::Damaged => {
                first_dmg = true;
                in_dmg = true;
                if er == i64::MIN {
                    return None;
                }
                er = er - 1;
                if er < 0 {
                    return Some(0);
                }
            },
            State::Unknown => {
                if in_dmg && er > 0 {
                    er = er - 1;
                } else {
                    let mut new_map = map.clone();
                    assert(new_map@ == map@);
                    new_map.set(i, State::Working);
                    proof {
                        assert(new_map@.skip(i as int) =~= m.update(li as int, State::Working).skip(li as int));
                        lemma_unknowns_set(m, li as int, State::Working);
                        lemma_unknowns_set(m, li as int, State::Damaged);
                        if li == 0 {
                            assert(m.update(li as int, State::Working).skip(li as int) =~= m.update(li as int, State::Working));
                            assert(m.update(li as int, State::Damaged).skip(li as int) =~= m.update(li as int, State::Damaged));
                        }
                    }
                    if er == 0 {
                        assert(rs.skip(1) =~= runs@.skip(rstart + 1));
                        return num_match_from(&new_map, i, runs, rstart + 1, false);
                    }
                    let ca = match num_match_from(&new_map, i, runs, rstart, false) {
                        Some(v) => v,
                        None => {
                            return None;
                        },
                    };
                    new_map.set(i, State::Damaged);
                    assert(new_map@.skip(i as int) =~= m.update(li as int, State::Damaged).skip(li as int));
                    let cb = match num_match_from(&new_map, i, runs, rstart, in_dmg) {
                        Some(v) => v,
                        None => {
                            return None;
                        },
                    };
                    return ca.checked_add(cb);
                }
            },
        }
        i = i + 1;
    }
}

/// The count of the recursive matcher for a row, after its leading working
/// springs, against its damaged runs; `None` where a count does not fit in
/// an `i64`.
pub fn num_match(map: &Vec<State>, damaged_runs: &Vec<i64>, in_dmg_in: bool) -> (r: Option<i64>)
    ensures
        match r {
            Some(v) => num_match_spec(map@, damaged_runs@, in_dmg_in) == Some(v as int),
            None => num_match_spec(map@, damaged_runs@, in_dmg_in) is None,
        },
        runs_positive(damaged_runs@) && !in_dmg_in ==> (r matches Some(v) ==> v == arrangements(map@, ints(damaged_runs@))),
{
    assert(map@.skip(0) =~= map@);
    assert(damaged_runs@.skip(0) =~= damaged_runs@);
    proof {
        if runs_positive(damaged_runs@) {
            lemma_num_match_counts(map@, damaged_runs@);
        }
    }
    num_match_from(map, 0, damaged_runs, 0, in_dmg_in)
}

/// The count of the recursive matcher for a row against its damaged runs.
pub fn nx(map: &Vec<State>, damaged_runs: &Vec<i64>, in_dmg_in: bool) -> (r: Option<i64>)
    ensures
        match r {
            Some(v) => nx_spec(map@, damaged_runs@, in_dmg_in) == Some(v as int),
            None => nx_spec(map@, damaged_runs@, in_dmg_in) is None,
        },
        runs_positive(damaged_runs@) && !in_dmg_in ==> (r matches Some(v) ==> v == arrangements(map@, ints(damaged_runs@))),
{
    assert(map@.skip(0) =~= map@);
    assert(damaged_runs@.skip(0) =~= damaged_runs@);
    proof {
        if runs_positive(damaged_runs@) {
            lemma_nx_counts(map@, damaged_runs@);
        }
    }
    nx_from(map, 0, damaged_runs, 0, in_dmg_in)
}

/// A record line: the row of springs, whitespace, and the damaged runs
/// separated by commas; `None` for a line of another shape.
pub open spec fn record_spec(line: Seq<char>) -> Option<(Seq<State>, Seq<i64>)> {
    let ws = words_spec(line);
    if ws.len() < 2 {
        None
    } else if !(forall|i: int| 0 <= i < ws[0].len() ==> spring_char(#[trigger] ws[0][i])) {
        None
    } else {
        match fields_spec(ws[1], ',') {
            Some(runs) => Some((ws[0].map_values(|c: char| state_of(c)), runs)),
            None => None,
        }
    }
}

/// Reads a record line.
pub fn parse_record(line: &[char]) -> (r: Option<(Vec<State>, Vec<i64>)>)
    ensures
        match r {
            Some((m, runs)) => record_spec(line@) == Some((m@, runs@)),
            None => record_spec(line@) is None,
        },
{
    let ws = words(line);
    if ws.len() < 2 {
        return None;
    }
    assert(rows(ws@)[0] == ws@[0]@ && rows(ws@)[1] == ws@[1]@);
    let w0 = &ws[0];
    let mut k: usize = 0;
    while k < w0.len()
        invariant
            k <= w0@.len(),
            w0@ == words_spec(line@)[0],
            forall|j: int| 0 <= j < k ==> spring_char(#[trigger] w0@[j]),
        decreases w0@.len() - k,
    {
        if !(w0[k] == '#' || w0[k] == '.' || w0[k] == '?') {
            assert(!spring_char(words_spec(line@)[0][k as int]));
            return None;
        }
        k = k + 1;
    }
    let map = State::from_str(w0.as_slice());
    let runs = match parse_fields(ws[1].as_slice(), ',') {
        Some(r) => r,
        None => {
            return None;
        },
    };
    Some((map, runs))
}

/// The number of ways to fill in a record line's unknown springs, trying
/// every filling; `None` when the line is too long or the count does not
/// fit in an `i64`.
pub fn day12_line(line: &str) -> (r: Option<i64>)
    requires
        record_spec(line@) is Some,
    ensures
        match (r, record_spec(line@)) {
            (Some(v), Some(rec)) => v == arrangements(rec.0, ints(rec.1)),
            (Some(v), None) => false,
            (None, Some(rec)) => rec.0.len() >= i64::MAX || arrangements(rec.0, ints(rec.1)) > i64::MAX,
            (None, None) => true,
        },
{
    let chars = chars_of(line);
    let (map, runs) = match parse_record(chars.as_slice()) {
        Some(p) => p,
        None => {
            return None;
        },
    };
    if map.len() as u64 >= i64::MAX as u64 {
        return None;
    }
    count_fillings(map, &runs)
}

/// A row five times over, an unknown spring between each two copies, with
/// its runs five times over.
pub open spec fn unfold_row(map: Seq<State>) -> Seq<State> {
    map + seq![State::Unknown] + map + seq![State::Unknown] + map + seq![State::Unknown] + map + seq![State::Unknown] + map
}

pub open spec fn unfold_runs(runs: Seq<i64>) -> Seq<i64> {
    runs + runs + runs + runs + runs
}

/// Every line, trimmed, is a record.
pub open spec fn records_ok(ls: Seq<Seq<char>>) -> bool {
    forall|k: int| 0 <= k < ls.len() ==> (#[trigger] record_spec(trim_spec(ls[k]))) is Some
}

/// The matcher's count for line `k`, unfolded.
pub open spec fn line_count(ls: Seq<Seq<char>>, k: int) -> Option<int> {
    let rec = record_spec(trim_spec(ls[k]))->0;
    num_match_spec(unfold_row(rec.0), unfold_runs(rec.1), false)
}

/// The counts of the lines and their partial sums all fit in an `i64`.
pub open spec fn counts_ok(ls: Seq<Seq<char>>) -> bool {
    &&& forall|k: int| 0 <= k < ls.len() ==> (#[trigger] line_count(ls, k)) is Some
    &&& forall|k: int| 0 <= k <= ls.len() ==> i64::MIN <= #[trigger] counts_sum(ls, k) <= i64::MAX
}

/// The sum of the first `k` line counts.
pub open spec fn counts_sum(ls: Seq<Seq<char>>, k: int) -> int
    decreases k,
{
    if k <= 0 {
        0
    } else {
        counts_sum(ls, k - 1) + line_count(ls, k - 1)->0
    }
}

/// Unfolds every record (every line must be one) five times and counts
/// its arrangements with the recursive matcher: the total and the count of
/// each line; `None` when a count does not fit in an `i64`.
pub fn spring_counts(data: &str) -> (r: Option<(i64, Vec<i64>)>)
    requires
        records_ok(lines_spec(data@)),
    ensures
        match r {
            Some((total, counts)) => {
                let ls = lines_spec(data@);
                &&& records_ok(ls)
                &&& counts_ok(ls)
                &&& total == counts_sum(ls, ls.len() as int)
                &&& counts@.len() == ls.len()
                &&& forall|k: int| 0 <= k < ls.len() ==> line_count(ls, k) == Some(#[trigger] counts@[k] as int)
            },
            None => !records_ok(lines_spec(data@)) || !counts_ok(lines_spec(data@)),
        },
{
    let chars = chars_of(data);
    let ls = lines(chars.as_slice());
    let ghost lv = rows(ls@);
    let mut springmap: Vec<i64> = Vec::new();
    let mut result: i64 = 0;
    let mut i: usize = 0;
    while i < ls.len()
        invariant
            i <= ls@.len(),
            lv == rows(ls@),
            lv == lines_spec(data@),
            springmap@.len() == i,
            forall|k: int| 0 <= k < i ==> (#[trigger] record_spec(trim_spec(lv[k]))) is Some,
            forall|k: int| 0 <= k < i ==> line_count(lv, k) == Some(#[trigger] springmap@[k] as int),
            forall|k: int| 0 <= k <= i ==> i64::MIN <= #[trigger] counts_sum(lv, k) <= i64::MAX,
            result == counts_sum(lv, i as int),
        decreases ls@.len() - i,
    {
        assert(lv[i as int] == ls@[i as int]@);
        let line = trim(ls[i].as_slice());
        let (map_1, runs_1) = match parse_record(line.as_slice()) {
            Some(p) => p,
            None => {
                return None;
            },
        };
        let mut map: Vec<State> = Vec::new();
        let mut damaged_runs: Vec<i64> = Vec::new();
        let mut t: usize = 0;
        while t < 5
            invariant
                t <= 5,
                map@ == if t == 0 {
                    Seq::<State>::empty()
                } else if t == 1 {
                    map_1@ + seq![State::Unknown]
                } else if t == 2 {
                    map_1@ + seq![State::Unknown] + map_1@ + seq![State::Unknown]
                } else if t == 3 {
                    map_1@ + seq![State::Unknown] + map_1@ + seq![State::Unknown] + map_1@ + seq![State::Unknown]
                } else if t == 4 {
                    map_1@ + seq![State::Unknown] + map_1@ + seq![State::Unknown] + map_1@ + seq![State::Unknown] + map_1@ + seq![State::Unknown]
                } else {
                    unfold_row(map_1@)
                },
                damaged_runs@ == if t == 0 {
                    Seq::<i64>::empty()
                } else if t == 1 {
                    runs_1@
                } else if t == 2 {
                    runs_1@ + runs_1@
                } else if t == 3 {
                    runs_1@ + runs_1@ + runs_1@
                } else if t == 4 {
                    runs_1@ + runs_1@ + runs_1@ + runs_1@
                } else {
                    unfold_runs(runs_1@)
                },
            decreases 5 - t,
        {
            let ghost before = map@;
            let ghost rbefore = damaged_runs@;
            let mut k: usize = 0;
            while k < map_1.len()
                invariant
                    k <= map_1@.len(),
                    map@ == before + map_1@.take(k as int),
                decreases map_1@.len() - k,
            {
                map.push(map_1[k]);
                assert(map_1@.take(k + 1) =~= map_1@.take(k as int).push(map_1@[k as int]));
                k = k + 1;
            }
            assert(map_1@.take(k as int) =~= map_1@);
            if t != 4 {
                map.push(State::Unknown);
            }
            let mut k: usize = 0;
            while k < runs_1.len()
                invariant
                    k <= runs_1@.len(),
                    damaged_runs@ == rbefore + runs_1@.take(k as int),
                decreases runs_1@.len() - k,
            {
                damaged_runs.push(runs_1[k]);
                assert(runs_1@.take(k + 1) =~= runs_1@.take(k as int).push(runs_1@[k as int]));
                k = k + 1;
            }
            assert(runs_1@.take(k as int) =~= runs_1@);
            assert(map@ =~= before + map_1@ + if t != 4 { seq![State::Unknown] } else { Seq::<State>::empty() });
            t = t + 1;
        }
        let line_result = match num_match(&map, &damaged_runs, false) {
            Some(v) => v,
            None => {
                assert(line_count(lv, i as int) is None);
                return None;
            },
        };
        assert(line_count(lv, i as int) == Some(line_result as int));
        springmap.push(line_result);
        match result.checked_add(line_result) {
            Some(v) => {
                result = v;
            },
            None => {
                assert(!(i64::MIN <= counts_sum(lv, i + 1) <= i64::MAX));
                return None;
            },
        }
        i = i + 1;
    }
    proof {
        assert(lv.len() == i);
        assert(records_ok(lv));
        assert forall|k: int| 0 <= k < lv.len() implies (#[trigger] line_count(lv, k)) is Some by {
            assert(line_count(lv, k) == Some(springmap@[k] as int));
        }
        assert(counts_ok(lv));
    }
    Some((result, springmap))
}

// ---------------------------------------------------------------------------
// The recursive matcher against the count by filling in
// ---------------------------------------------------------------------------

/// A stretch of `n` damaged springs.
pub open spec fn dmg(n: int) -> Seq<State> {
    Seq::new(n as nat, |k: int| State::Damaged)
}

/// Every damaged run is at least one spring long.
pub open spec fn runs_positive(runs: Seq<i64>) -> bool {
    forall|k: int| 0 <= k < runs.len() ==> #[trigger] runs[k] > 0
}

proof fn lemma_runs_shift(p: Seq<State>, m: Seq<State>, k: int, d: Seq<int>, cur: int)
    requires
        0 <= k,
    ensures
        runs_from(p + m, p.len() + k, d, cur) == runs_from(m, k, d, cur),
    decreases m.len() - k,
{
    if k < m.len() {
        assert((p + m)[p.len() + k] == m[k]);
        lemma_runs_shift(p, m, k + 1, d, cur + 1);
        lemma_runs_shift(p, m, k + 1, d.push(cur), 0);
        lemma_runs_shift(p, m, k + 1, d, 0);
    }
}

proof fn lemma_runs_acc(m: Seq<State>, k: int, d: Seq<int>, cur: int)
    requires
        0 <= k,
    ensures
        runs_from(m, k, d, cur) == d + runs_from(m, k, Seq::empty(), cur),
    decreases m.len() - k,
{
    let e = Seq::<int>::empty();
    if k >= m.len() {
        if cur > 0 {
            assert(d.push(cur) =~= d + e.push(cur));
        } else {
            assert(d =~= d + e);
        }
    } else if m[k] == State::Damaged {
        lemma_runs_acc(m, k + 1, d, cur + 1);
        lemma_runs_acc(m, k + 1, e, cur + 1);
        assert(e + runs_from(m, k + 1, e, cur + 1) =~= runs_from(m, k + 1, e, cur + 1));
    } else if cur > 0 {
        let r = runs_from(m, k + 1, e, 0);
        lemma_runs_acc(m, k + 1, d.push(cur), 0);
        lemma_runs_acc(m, k + 1, e.push(cur), 0);
        assert(d.push(cur) + r =~= d + (e.push(cur) + r));
    } else {
        lemma_runs_acc(m, k + 1, d, 0);
        lemma_runs_acc(m, k + 1, e, 0);
        assert(e + runs_from(m, k + 1, e, 0) =~= runs_from(m, k + 1, e, 0));
    }
}

proof fn lemma_runs_through_dmg(x: Seq<State>, k: int, j: int, d: Seq<int>, cur: int)
    requires
        0 <= k,
        0 <= j,
        k + j <= x.len(),
        forall|t: int| k <= t < k + j ==> x[t] == State::Damaged,
    ensures
        runs_from(x, k, d, cur) == runs_from(x, k + j, d, cur + j),
    decreases j,
{
    if j > 0 {
        lemma_runs_through_dmg(x, k + 1, j - 1, d, cur + 1);
    }
}

proof fn lemma_runs_started(m: Seq<State>, k: int, cur: int)
    requires
        0 <= k,
        cur > 0,
    ensures
        runs_from(m, k, Seq::empty(), cur).len() > 0,
        runs_from(m, k, Seq::empty(), cur)[0] >= cur,
    decreases m.len() - k,
{
    let e = Seq::<int>::empty();
    if k < m.len() {
        if m[k] == State::Damaged {
            lemma_runs_started(m, k + 1, cur + 1);
        } else {
            lemma_runs_acc(m, k + 1, e.push(cur), 0);
            assert((e.push(cur) + runs_from(m, k + 1, e, 0))[0] == cur);
        }
    }
}

proof fn lemma_runs_none(m: Seq<State>, k: int)
    requires
        0 <= k,
    ensures
        (runs_from(m, k, Seq::empty(), 0).len() == 0) == !(exists|j: int| k <= j < m.len() && m[j] == State::Damaged),
    decreases m.len() - k,
{
    if k < m.len() {
        if m[k] == State::Damaged {
            lemma_runs_started(m, k + 1, 1);
        } else {
            lemma_runs_none(m, k + 1);
            if exists|j: int| k <= j < m.len() && m[j] == State::Damaged {
                let j = choose|j: int| k <= j < m.len() && m[j] == State::Damaged;
                assert(k + 1 <= j);
            }
        }
    }
}

proof fn lemma_runs_of_working(m: Seq<State>)
    ensures
        runs_of(seq![State::Working] + m) == runs_of(m),
{
    let p = seq![State::Working];
    assert((p + m)[0] == State::Working);
    lemma_runs_shift(p, m, 0, Seq::empty(), 0);
}

proof fn lemma_runs_of_run(c: int, m: Seq<State>)
    requires
        c >= 1,
    ensures
        runs_of(dmg(c) + seq![State::Working] + m) == seq![c] + runs_of(m),
{
    let p = dmg(c) + seq![State::Working];
    let x = p + m;
    let e = Seq::<int>::empty();
    lemma_runs_through_dmg(x, 0, c, e, 0);
    assert(x[c] == State::Working);
    lemma_runs_shift(p, m, 0, e.push(c), 0);
    lemma_runs_acc(m, 0, e.push(c), 0);
    assert(e.push(c) =~= seq![c]);
}

proof fn lemma_runs_of_dmg(c: int, m: Seq<State>)
    requires
        c >= 1,
    ensures
        runs_of(dmg(c) + m).len() > 0,
        runs_of(dmg(c) + m)[0] >= c,
{
    let p = dmg(c);
    let x = p + m;
    let e = Seq::<int>::empty();
    lemma_runs_through_dmg(x, 0, c, e, 0);
    lemma_runs_shift(p, m, 0, e, c);
    lemma_runs_started(m, 0, c);
}

proof fn lemma_runs_of_none(m: Seq<State>)
    ensures
        (runs_of(m) == Seq::<int>::empty()) == !has_damaged(m),
{
    lemma_runs_none(m, 0);
    if runs_of(m).len() == 0 {
        assert(runs_of(m) =~= Seq::<int>::empty());
    }
}

proof fn lemma_known_join(p: Seq<State>, m: Seq<State>)
    requires
        known(p),
        known(m),
    ensures
        known(p + m),
{
    assert forall|i: int| 0 <= i < (p + m).len() implies (p + m)[i] != State::Unknown by {
        if i < p.len() {
            assert((p + m)[i] == p[i]);
        } else {
            assert((p + m)[i] == m[i - p.len()]);
        }
    }
}

proof fn lemma_first_unknown_after(p: Seq<State>, m: Seq<State>)
    requires
        known(p),
    ensures
        first_unknown(p + m) == p.len() + first_unknown(m),
    decreases p.len(),
{
    if p.len() == 0 {
        assert(p + m =~= m);
    } else {
        assert((p + m)[0] == p[0]);
        assert((p + m).skip(1) =~= p.skip(1) + m);
        assert(known(p.skip(1))) by {
            assert forall|i: int| 0 <= i < p.skip(1).len() implies p.skip(1)[i] != State::Unknown by {
                assert(p.skip(1)[i] == p[i + 1]);
            }
        }
        lemma_first_unknown_after(p.skip(1), m);
    }
}

proof fn lemma_arr_known(m: Seq<State>, runs: Seq<int>)
    requires
        known(m),
    ensures
        arrangements(m, runs) == if runs_of(m) == runs { 1nat } else { 0nat },
{
    lemma_first_unknown(m);
}

proof fn lemma_arr_split(p: Seq<State>, m: Seq<State>, runs: Seq<int>)
    requires
        known(p),
        first_unknown(m) < m.len(),
    ensures
        arrangements(p + m, runs) == arrangements(p + m.update(first_unknown(m), State::Working), runs)
            + arrangements(p + m.update(first_unknown(m), State::Damaged), runs),
{
    let f = first_unknown(m);
    lemma_first_unknown(m);
    lemma_first_unknown_after(p, m);
    let x = p + m;
    assert(x[p.len() + f] == State::Unknown);
    assert(x.update(p.len() + f, State::Working) =~= p + m.update(f, State::Working));
    assert(x.update(p.len() + f, State::Damaged) =~= p + m.update(f, State::Damaged));
}

proof fn lemma_arr_step(m: Seq<State>)
    requires
        !known(m),
    ensures
        0 <= first_unknown(m) < m.len(),
        m[first_unknown(m)] == State::Unknown,
        unknowns(m.update(first_unknown(m), State::Working)) < unknowns(m),
        unknowns(m.update(first_unknown(m), State::Damaged)) < unknowns(m),
{
    lemma_first_unknown(m);
    lemma_unknowns_set(m, first_unknown(m), State::Working);
    lemma_unknowns_set(m, first_unknown(m), State::Damaged);
}

/// A working spring in front of a row changes none of its counts.
proof fn lemma_arr_working(m: Seq<State>, runs: Seq<int>)
    ensures
        arrangements(seq![State::Working] + m, runs) == arrangements(m, runs),
    decreases unknowns(m),
{
    let w = seq![State::Working];
    assert(known(w));
    if known(m) {
        lemma_known_join(w, m);
        lemma_arr_known(w + m, runs);
        lemma_arr_known(m, runs);
        lemma_runs_of_working(m);
    } else {
        lemma_arr_step(m);
        let f = first_unknown(m);
        lemma_arr_split(w, m, runs);
        lemma_arr_working(m.update(f, State::Working), runs);
        lemma_arr_working(m.update(f, State::Damaged), runs);
    }
}

/// A finished run of `c` damaged springs in front of a row: the count is that
/// of the row for the later runs when the first run is `c` long, else none.
proof fn lemma_arr_run(c: int, m: Seq<State>, runs: Seq<int>)
    requires
        c >= 1,
    ensures
        arrangements(dmg(c) + seq![State::Working] + m, runs) == if runs.len() > 0 && runs[0] == c {
            arrangements(m, runs.skip(1))
        } else {
            0nat
        },
    decreases unknowns(m),
{
    let p = dmg(c) + seq![State::Working];
    assert(known(p));
    if known(m) {
        lemma_known_join(p, m);
        lemma_arr_known(p + m, runs);
        lemma_arr_known(m, runs.skip(1));
        lemma_runs_of_run(c, m);
        let r = runs_of(m);
        if seq![c] + r == runs {
            assert(runs[0] == (seq![c] + r)[0]);
            assert(runs.skip(1) =~= r);
        }
        if runs.len() > 0 && runs[0] == c && r == runs.skip(1) {
            assert(seq![c] + r =~= runs);
        }
    } else {
        lemma_arr_step(m);
        let f = first_unknown(m);
        lemma_arr_split(p, m, runs);
        lemma_arr_run(c, m.update(f, State::Working), runs);
        lemma_arr_run(c, m.update(f, State::Damaged), runs);
    }
}

/// A run of `c` damaged springs in front of a row that is longer than the
/// first run allows (or with no run left) leaves no way.
proof fn lemma_arr_overrun(c: int, m: Seq<State>, runs: Seq<int>)
    requires
        c >= 1,
        runs.len() == 0 || c > runs[0],
    ensures
        arrangements(dmg(c) + m, runs) == 0,
    decreases unknowns(m),
{
    let p = dmg(c);
    assert(known(p));
    if known(m) {
        lemma_known_join(p, m);
        lemma_arr_known(p + m, runs);
        lemma_runs_of_dmg(c, m);
    } else {
        lemma_arr_step(m);
        let f = first_unknown(m);
        lemma_arr_split(p, m, runs);
        lemma_arr_overrun(c, m.update(f, State::Working), runs);
        lemma_arr_overrun(c, m.update(f, State::Damaged), runs);
    }
}

/// With no runs, a row has one way (all unknown springs working) unless a
/// spring is known to be damaged.
proof fn lemma_arr_none(m: Seq<State>)
    ensures
        arrangements(m, Seq::empty()) == if has_damaged(m) { 0nat } else { 1nat },
    decreases unknowns(m),
{
    if known(m) {
        lemma_arr_known(m, Seq::empty());
        lemma_runs_of_none(m);
    } else {
        lemma_arr_step(m);
        let f = first_unknown(m);
        let a = m.update(f, State::Working);
        let b = m.update(f, State::Damaged);
        lemma_arr_none(a);
        lemma_arr_none(b);
        assert(b[f] == State::Damaged);
        if has_damaged(m) {
            let j = choose|j: int| 0 <= j < m.len() && m[j] == State::Damaged;
            assert(a[j] == State::Damaged);
        }
        if has_damaged(a) {
            let j = choose|j: int| 0 <= j < a.len() && a[j] == State::Damaged;
            assert(m[j] == State::Damaged);
        }
    }
}

/// Leading working springs change none of the counts.
proof fn lemma_arr_skip(m: Seq<State>, i: int, runs: Seq<int>)
    requires
        0 <= i <= m.len(),
        forall|k: int| 0 <= k < i ==> m[k] == State::Working,
    ensures
        arrangements(m, runs) == arrangements(m.skip(i), runs),
    decreases i,
{
    if i == 0 {
        assert(m.skip(0) =~= m);
    } else {
        lemma_arr_skip(m, i - 1, runs);
        assert(m.skip(i - 1) =~= seq![State::Working] + m.skip(i));
        lemma_arr_working(m.skip(i), runs);
    }
}

/// The row the matcher still has to count at position `i` of `map`: the rest
/// of the row, behind the part of the first run already seen when one is
/// under way.
pub open spec fn walk_row(map: Seq<State>, runs: Seq<i64>, i: int, er: int, in_run: bool) -> Seq<State> {
    if in_run {
        dmg(runs[0] - er) + map.skip(i)
    } else {
        map.skip(i)
    }
}

proof fn lemma_ints_skip(runs: Seq<i64>)
    requires
        runs.len() > 0,
    ensures
        ints(runs).skip(1) == ints(runs.skip(1)),
        ints(runs)[0] == runs[0],
        ints(runs).len() == runs.len(),
{
    assert(ints(runs).skip(1) =~= ints(runs.skip(1)));
}

/// The recursive matcher, where it gives a count, gives the number of ways
/// to fill in the row (for runs of at least one spring).
proof fn lemma_num_match_counts(map: Seq<State>, runs: Seq<i64>)
    requires
        runs_positive(runs),
    ensures
        num_match_spec(map, runs, false) matches Some(v) ==> v == arrangements(map, ints(runs)),
    decreases map.len(), unknowns(map), 2int, 0int,
{
    let i = skip_working(map, 0);
    lemma_skip_working(map, 0);
    if i == 0 {
        assert(map.skip(0) =~= map);
    }
    lemma_nx_counts(map.skip(i), runs);
    lemma_arr_skip(map, i, ints(runs));
}

proof fn lemma_nx_counts(map: Seq<State>, runs: Seq<i64>)
    requires
        runs_positive(runs),
    ensures
        nx_spec(map, runs, false) matches Some(v) ==> v == arrangements(map, ints(runs)),
    decreases map.len(), unknowns(map), 1int, 0int,
{
    if runs.len() == 0 {
        assert(ints(runs) =~= Seq::<int>::empty());
        lemma_arr_none(map);
    } else {
        assert(runs[0] > 0);
        lemma_walk_counts(map, runs, 0, runs[0] as int, false);
        assert(map.skip(0) =~= map);
    }
}

proof fn lemma_walk_counts(map: Seq<State>, runs: Seq<i64>, i: int, er: int, in_run: bool)
    requires
        runs_positive(runs),
        runs.len() > 0,
        0 <= i <= map.len(),
        !in_run ==> er == runs[0],
        in_run ==> 0 <= er < runs[0],
    ensures
        nx_walk(map, runs, i, er, in_run, in_run) matches Some(v) ==> v == arrangements(walk_row(map, runs, i, er, in_run), ints(runs)),
    decreases map.len(), unknowns(map), 0int, map.len() - i,
{
    let rs = ints(runs);
    let r0 = runs[0] as int;
    let c = r0 - er;
    let rest = map.skip(i + 1);
    assert(runs[0] > 0);
    lemma_ints_skip(runs);
    assert(runs_positive(runs.skip(1))) by {
        assert forall|k: int| 0 <= k < runs.skip(1).len() implies #[trigger] runs.skip(1)[k] > 0 by {
            assert(runs.skip(1)[k] == runs[k + 1]);
        }
    }
    if i >= map.len() {
        let row = walk_row(map, runs, i, er, in_run);
        assert(map.skip(i) =~= Seq::<State>::empty());
        if in_run {
            assert(row =~= dmg(c));
            assert(known(row));
            lemma_arr_known(row, rs);
            lemma_runs_through_dmg(row, 0, c, Seq::empty(), 0);
            assert(Seq::<int>::empty().push(c) =~= seq![c]);
            assert(runs_of(row) == seq![c]);
            if er == 0 && runs.len() == 1 {
                assert(rs =~= seq![c]);
            } else {
                assert(rs != seq![c]) by {
                    if rs == seq![c] {
                        assert(rs[0] == c);
                    }
                }
            }
        } else {
            assert(known(row));
            lemma_arr_known(row, rs);
            assert(runs_of(row) =~= Seq::<int>::empty());
        }
    } else {
        assert(map.skip(i) =~= seq![map[i]] + rest);
        if map[i] == State::Working {
            if in_run && er > 0 {
                assert(walk_row(map, runs, i, er, in_run) =~= dmg(c) + seq![State::Working] + rest);
                lemma_arr_run(c, rest, rs);
            } else if er == 0 {
                assert(walk_row(map, runs, i, er, in_run) =~= dmg(c) + seq![State::Working] + rest);
                lemma_arr_run(c, rest, rs);
                lemma_num_match_counts(rest, runs.skip(1));
            } else {
                lemma_walk_counts(map, runs, i + 1, er, false);
                lemma_arr_working(rest, rs);
            }
        } else if map[i] == State::Damaged {
            if er - 1 < 0 {
                assert(walk_row(map, runs, i, er, in_run) =~= dmg(c + 1) + rest);
                lemma_arr_overrun(c + 1, rest, rs);
            } else {
                lemma_walk_counts(map, runs, i + 1, er - 1, true);
                assert(walk_row(map, runs, i, er, in_run) =~= walk_row(map, runs, i + 1, er - 1, true));
            }
        } else {
            let mi = map.skip(i);
            assert(mi[0] == State::Unknown);
            assert(first_unknown(mi) == 0);
            assert(mi.update(0, State::Working) =~= seq![State::Working] + rest);
            assert(mi.update(0, State::Damaged) =~= seq![State::Damaged] + rest);
            lemma_unknowns_set(map, i, State::Working);
            lemma_unknowns_set(map, i, State::Damaged);
            let mw = map.update(i, State::Working);
            let md = map.update(i, State::Damaged);
            assert(mw.skip(i) =~= mi.update(0, State::Working));
            assert(md.skip(i) =~= mi.update(0, State::Damaged));
            if i == 0 {
                assert(mw.skip(i) =~= mw);
                assert(md.skip(i) =~= md);
            }
            if in_run {
                let p = dmg(c);
                assert(known(p));
                lemma_arr_split(p, mi, rs);
                assert(p + mi.update(0, State::Working) =~= dmg(c) + seq![State::Working] + rest);
                assert(p + mi.update(0, State::Damaged) =~= dmg(c + 1) + rest);
                lemma_arr_run(c, rest, rs);
                if er > 0 {
                    lemma_walk_counts(map, runs, i + 1, er - 1, true);
                    assert(walk_row(map, runs, i + 1, er - 1, true) =~= dmg(c + 1) + rest);
                } else {
                    lemma_arr_overrun(c + 1, rest, rs);
                    lemma_num_match_counts(mw.skip(i), runs.skip(1));
                    lemma_arr_working(rest, rs.skip(1));
                }
            } else {
                lemma_num_match_counts(mw.skip(i), runs);
                lemma_num_match_counts(md.skip(i), runs);
            }
        }
    }
}

/// Where the recursive matcher gives a count for a row, it is the number of
/// ways to fill in the row's unknown springs so that its damaged runs are
/// the given ones (each at least one spring long): the fast count and the
/// count by trying every filling agree.
pub proof fn lemma_counts_agree(map: Seq<State>, runs: Seq<i64>)
    requires
        runs_positive(runs),
    ensures
        num_match_spec(map, runs, false) matches Some(v) ==> v == arrangements(map, ints(runs)),
{
    lemma_num_match_counts(map, runs);
}

} // verus!
