//! Calibration values: the first and last digit on each line, where a digit
//! may also be spelled out as a word.
use vstd::prelude::*;
use crate::text::{digit_value, is_digit, lines, lines_spec, rows};

verus! {

/// The spelled-out digit names, in value order.
pub open spec fn digit_names() -> Seq<Seq<char>> {
    seq![
        seq!['z', 'e', 'r', 'o'],
        seq!['o', 'n', 'e'],
        seq!['t', 'w', 'o'],
        seq!['t', 'h', 'r', 'e', 'e'],
        seq!['f', 'o', 'u', 'r'],
        seq!['f', 'i', 'v', 'e'],
        seq!['s', 'i', 'x'],
        seq!['s', 'e', 'v', 'e', 'n'],
        seq!['e', 'i', 'g', 'h', 't'],
        seq!['n', 'i', 'n', 'e'],
    ]
}

/// The first digit name (in value order) that `s` starts with, from index `i` on.
pub open spec fn name_prefix_from(s: Seq<char>, i: int) -> int
    decreases 10 - i,
{
    if i >= 10 {
        -1
    } else if digit_names()[i].is_prefix_of(s) {
        i
    } else {
        name_prefix_from(s, i + 1)
    }
}

/// The digit `s` starts with: a decimal digit character, else the first
/// spelled-out name it starts with, else -1.
pub open spec fn mapnum_spec(s: Seq<char>) -> i64 {
    if is_digit(s[0]) {
        digit_value(s[0]) as i64
    } else {
        name_prefix_from(s, 0) as i64
    }
}

/// Reads the digit at the start of `s` and gives the rest of `s` after its
/// first character (a spelled-out digit is not skipped over, so names that
/// share letters, such as "twone", both count).
pub fn mapnum(s: &[char]) -> (res: (i64, Vec<char>))
    requires
        s@.len() > 0,
        (s@[0] as u32) < 0x80,
    ensures
        res.0 == mapnum_spec(s@),
        res.1@ == s@.skip(1),
{
    let mut rest: Vec<char> = Vec::new();
    let mut k: usize = 1;
    while k < s.len()
        invariant
            1 <= k <= s@.len(),
            rest@ == s@.subrange(1, k as int),
        decreases s@.len() - k,
    {
        rest.push(s[k]);
        k = k + 1;
    }
    assert(rest@ =~= s@.skip(1));
    if '0' <= s[0] && s[0] <= '9' {
        return ((s[0] as u32 - '0' as u32) as i64, rest);
    }
    let numbers: Vec<Vec<char>> = vec![
        vec!['z', 'e', 'r', 'o'],
        vec!['o', 'n', 'e'],
        vec!['t', 'w', 'o'],
        vec!['t', 'h', 'r', 'e', 'e'],
        vec!['f', 'o', 'u', 'r'],
        vec!['f', 'i', 'v', 'e'],
        vec!['s', 'i', 'x'],
        vec!['s', 'e', 'v', 'e', 'n'],
        vec!['e', 'i', 'g', 'h', 't'],
        vec!['n', 'i', 'n', 'e'],
    ];
    assert(rows(numbers@) =~= digit_names());
    let mut i: usize = 0;
    while i < 10
        invariant
            i <= 10,
            numbers@.len() == 10,
            rows(numbers@) == digit_names(),
            rest@ == s@.skip(1),
            name_prefix_from(s@, 0) == name_prefix_from(s@, i as int),
        decreases 10 - i,
    {
        assert(numbers@[i as int]@ == digit_names()[i as int]);
        if starts_with(s, &numbers[i]) {
            return (i as i64, rest);
        }
        i = i + 1;
    }
    (-1, rest)
}

/// Whether `s` begins with `p`.
pub fn starts_with(s: &[char], p: &Vec<char>) -> (res: bool)
    ensures
        res == p@.is_prefix_of(s@),
{
    if p.len() > s.len() {
        return false;
    }
    let mut i: usize = 0;
    while i < p.len()
        invariant
            i <= p@.len() <= s@.len(),
            forall|k: int| 0 <= k < i ==> p@[k] == s@[k],
        decreases p@.len() - i,
    {
        if p[i] != s[i] {
            return false;
        }
        i = i + 1;
    }
    true
}

/// The digits found reading `s` one starting position at a time.
pub open spec fn found_digits(s: Seq<char>) -> Seq<i64>
    decreases s.len(),
{
    if s.len() == 0 {
        Seq::empty()
    } else {
        let n = mapnum_spec(s);
        let rest = found_digits(s.skip(1));
        if n != -1 {
            seq![n].add(rest)
        } else {
            rest
        }
    }
}

/// The line is ASCII, so every step of the scan advances by one character.
pub open spec fn ascii_line(s: Seq<char>) -> bool {
    forall|i: int| 0 <= i < s.len() ==> (#[trigger] s[i] as u32) < 0x80
}

/// The calibration value of a line: ten times its first digit plus its last.
pub open spec fn calibration_spec(line: Seq<char>) -> int {
    let v = found_digits(line);
    v[0] * 10 + v.last()
}

proof fn lemma_found_digits_range(s: Seq<char>)
    ensures
        forall|i: int| 0 <= i < found_digits(s).len() ==> 0 <= #[trigger] found_digits(s)[i] <= 9,
    decreases s.len(),
{
    if s.len() > 0 {
        lemma_found_digits_range(s.skip(1));
        if is_digit(s[0]) {
        } else {
            lemma_name_prefix_range(s, 0);
        }
        let n = mapnum_spec(s);
        let rest = found_digits(s.skip(1));
        if n != -1 {
            assert forall|i: int| 0 <= i < found_digits(s).len() implies 0 <= #[trigger] found_digits(s)[i] <= 9 by {
                if i > 0 {
                    assert(found_digits(s)[i] == rest[i - 1]);
                }
            }
        }
    }
}

proof fn lemma_name_prefix_range(s: Seq<char>, i: int)
    requires
        0 <= i,
    ensures
        -1 <= name_prefix_from(s, i) <= 9,
    decreases 10 - i,
{
    if i < 10 {
        lemma_name_prefix_range(s, i + 1);
    }
}

/// The calibration value of an ASCII line, or `None` when the line holds no digit.
pub fn calibration_value(line: &[char]) -> (res: Option<i64>)
    requires
        ascii_line(line@),
    ensures
        match res {
            Some(v) => found_digits(line@).len() > 0 && v == calibration_spec(line@),
            None => found_digits(line@).len() == 0,
        },
{
    let mut first: i64 = -1;
    let mut last: i64 = -1;
    let mut s: Vec<char> = Vec::new();
    let mut k: usize = 0;
    while k < line.len()
        invariant
            k <= line@.len(),
            s@ == line@.take(k as int),
        decreases line@.len() - k,
    {
        s.push(line[k]);
        k = k + 1;
    }
    assert(s@ =~= line@);
    let ghost full = line@;
    proof {
        lemma_found_digits_range(full);
    }
    let ghost mut pre: Seq<i64> = Seq::empty();
    while s.len() > 0
        invariant
            ascii_line(full),
            s@.len() <= full.len(),
            s@ == full.skip(full.len() - s@.len()),
            found_digits(full) == pre + found_digits(s@),
            pre.len() == 0 <==> first == -1,
            pre.len() > 0 ==> first == pre[0] && last == pre.last(),
            forall|i: int| 0 <= i < pre.len() ==> 0 <= #[trigger] pre[i] <= 9,
        decreases s@.len(),
    {
        assert(s@[0] == full[full.len() - s@.len()]);
        let ghost old_s = s@;
        let (n, rest) = mapnum(s.as_slice());
        assert(rest@ =~= full.skip(full.len() - rest@.len()));
        proof {
            lemma_found_digits_range(old_s);
            if n != -1 {
                assert(found_digits(old_s) == seq![n].add(found_digits(rest@)));
                assert(found_digits(old_s)[0] == n);
                assert(pre + found_digits(old_s) =~= pre.push(n) + found_digits(rest@));
                pre = pre.push(n);
            }
        }
        if n != -1 {
            if first == -1 {
                first = n;
            }
            last = n;
        }
        s = rest;
    }
    if first == -1 {
        assert(found_digits(full) =~= pre);
        return None;
    }
    proof {
        assert(found_digits(s@).len() == 0);
        assert(found_digits(full) =~= pre);
    }
    Some(first * 10 + last)
}

/// The sum of the calibration values of the first `n` lines.
pub open spec fn calibration_sum(ls: Seq<Seq<char>>) -> int
    decreases ls.len(),
{
    if ls.len() == 0 {
        0
    } else {
        calibration_sum(ls.drop_last()) + calibration_spec(ls.last())
    }
}

/// Every line is ASCII and holds a digit.
pub open spec fn all_calibrated(ls: Seq<Seq<char>>) -> bool {
    forall|i: int| 0 <= i < ls.len() ==> ascii_line(#[trigger] ls[i]) && found_digits(ls[i]).len() > 0
}

fn is_ascii_line(line: &[char]) -> (b: bool)
    ensures
        b == ascii_line(line@),
{
    let mut i: usize = 0;
    while i < line.len()
        invariant
            i <= line@.len(),
            forall|k: int| 0 <= k < i ==> (#[trigger] line@[k] as u32) < 0x80,
        decreases line@.len() - i,
    {
        if (line[i] as u32) >= 0x80 {
            return false;
        }
        i = i + 1;
    }
    true
}

/// The sum of the calibration values of all lines, every one of which is
/// ASCII and holds a digit; `None` when the sum does not fit in an `i64`.
pub fn calibration_total(data: &str) -> (res: Option<i64>)
    requires
        all_calibrated(lines_spec(data@)),
    ensures
        match res {
            Some(v) => all_calibrated(lines_spec(data@)) && v == calibration_sum(lines_spec(data@)),
            None => !all_calibrated(lines_spec(data@)) || calibration_sum(lines_spec(data@)) > i64::MAX,
        },
{
    let chars = crate::text::chars_of(data);
    let ls = lines(chars.as_slice());
    let ghost lv = rows(ls@);
    let mut sum: i64 = 0;
    let mut i: usize = 0;
    while i < ls.len()
        invariant
            i <= ls@.len(),
            lv == rows(ls@),
            lv == lines_spec(data@),
            all_calibrated(lv.take(i as int)),
            sum == calibration_sum(lv.take(i as int)),
            0 <= sum,
        decreases ls@.len() - i,
    {
        let line = &ls[i];
        assert(lv[i as int] == line@);
        assert(lv.take(i + 1).drop_last() =~= lv.take(i as int));
        if !is_ascii_line(line.as_slice()) {
            assert(!all_calibrated(lv)) by {
                assert(!ascii_line(lv[i as int]));
            }
            return None;
        }
        match calibration_value(line.as_slice()) {
            None => {
                assert(!all_calibrated(lv)) by {
                    assert(found_digits(lv[i as int]).len() == 0);
                }
                return None;
            },
            Some(v) => {
                proof {
                    lemma_found_digits_range(line@);
                    assert(0 <= found_digits(line@)[0] <= 9);
                    assert(0 <= found_digits(line@).last() <= 9) by {
                        assert(found_digits(line@).last() == found_digits(line@)[found_digits(line@).len() - 1]);
                    }
                }
                match sum.checked_add(v) {
                    Some(t) => {
                        sum = t;
                    },
                    None => {
                        proof {
                            lemma_sum_monotone(lv, i as int + 1);
                        }
                        return None;
                    },
                }
            },
        }
        assert(all_calibrated(lv.take(i + 1))) by {
            assert forall|k: int| 0 <= k < i + 1 implies ascii_line(#[trigger] lv.take(i + 1)[k])
                && found_digits(lv.take(i + 1)[k]).len() > 0 by {
                if k < i {
                    assert(lv.take(i + 1)[k] == lv.take(i as int)[k]);
                }
            }
        }
        i = i + 1;
    }
    assert(lv.take(i as int) =~= lv);
    Some(sum)
}

proof fn lemma_sum_monotone(ls: Seq<Seq<char>>, k: int)
    requires
        0 <= k <= ls.len(),
        all_calibrated(ls.take(k)),
        forall|i: int| 0 <= i < ls.len() ==> (ascii_line(#[trigger] ls[i]) && found_digits(ls[i]).len() > 0) || !all_calibrated(ls),
    ensures
        all_calibrated(ls) ==> calibration_sum(ls.take(k)) <= calibration_sum(ls),
    decreases ls.len() - k,
{
    if all_calibrated(ls) && k < ls.len() {
        lemma_sum_monotone(ls, k + 1);
        assert(ls.take(k + 1).drop_last() =~= ls.take(k));
        lemma_found_digits_range(ls[k]);
        assert(ls.take(k + 1).last() == ls[k]);
        assert(found_digits(ls[k]).last() == found_digits(ls[k])[found_digits(ls[k]).len() - 1]);
        assert(all_calibrated(ls.take(k + 1))) by {
            assert forall|t: int| 0 <= t < k + 1 implies ascii_line(#[trigger] ls.take(k + 1)[t])
                && found_digits(ls.take(k + 1)[t]).len() > 0 by {
                assert(ls.take(k + 1)[t] == ls[t]);
            }
        }
    } else if k == ls.len() {
        assert(ls.take(k) =~= ls);
    }
}

} // verus!
