//! Predicting the next value of a sequence by taking differences until they
//! are all zero.
use vstd::prelude::*;
use crate::text::{chars_of, lines, lines_spec, numbers_spec, parse_numbers, rows};

verus! {

/// The differences between neighbouring values.
pub open spec fn diffs(s: Seq<int>) -> Seq<int> {
    Seq::new((if s.len() == 0 { 0 } else { s.len() - 1 }) as nat, |i: int| s[i + 1] - s[i])
}

pub open spec fn all_zero(s: Seq<int>) -> bool {
    forall|i: int| 0 <= i < s.len() ==> s[i] == 0
}

/// The next value: the last value plus the next value of the differences,
/// where differences that are all zero contribute nothing.
pub open spec fn predict(s: Seq<int>) -> int
    decreases s.len(),
{
    if s.len() == 0 {
        0
    } else if all_zero(diffs(s)) {
        s.last()
    } else {
        s.last() + predict(diffs(s))
    }
}

/// Every difference sequence, and the running sum of last values, fits in an `i64`.
pub open spec fn fits(s: Seq<int>) -> bool
    decreases s.len(),
{
    &&& forall|i: int| 0 <= i < s.len() ==> i64::MIN <= #[trigger] s[i] <= i64::MAX
    &&& i64::MIN <= predict(s) <= i64::MAX
    &&& (s.len() > 0 && !all_zero(diffs(s)) ==> fits(diffs(s)))
}

pub open spec fn as_ints(v: Seq<i64>) -> Seq<int> {
    v.map_values(|x: i64| x as int)
}

/// The predicted next value of a non-empty sequence; `None` when some
/// difference or the running sum does not fit in an `i64`.
pub fn extrapolate(input: &Vec<i64>) -> (res: Option<i64>)
    requires
        input@.len() > 0,
    ensures
        match res {
            Some(v) => fits(as_ints(input@)) && v == predict(as_ints(input@)),
            None => !fits(as_ints(input@)),
        },
    decreases input@.len(),
{
    let n = input.len();
    let last = input[n - 1];
    let ghost s = as_ints(input@);
    let mut d: Vec<i64> = Vec::new();
    let mut zero = true;
    let mut i: usize = 0;
    while i + 1 < n
        invariant
            n == input@.len(),
            n > 0,
            i + 1 <= n,
            s == as_ints(input@),
            d@.len() == i,
            forall|k: int| 0 <= k < i ==> #[trigger] d@[k] == diffs(s)[k],
            zero == (forall|k: int| 0 <= k < i ==> d@[k] == 0),
        decreases n - i,
    {
        let a = input[i];
        let b = input[i + 1];
        match b.checked_sub(a) {
            Some(x) => {
                let ghost old_d = d@;
                d.push(x);
                assert(d@[i as int] == x);
                assert(forall|k: int| 0 <= k < i ==> d@[k] == old_d[k]);
                if x != 0 {
                    zero = false;
                }
            },
            None => {
                assert(diffs(s)[i as int] == b - a);
                assert(!all_zero(diffs(s)));
                assert(fits(s) ==> fits(diffs(s)));
                assert(fits(diffs(s)) ==> i64::MIN <= diffs(s)[i as int] <= i64::MAX);
                return None;
            },
        }
        i = i + 1;
    }
    assert(as_ints(d@) =~= diffs(s));
    if zero {
        assert(all_zero(diffs(s)));
        return Some(last);
    }
    assert(!all_zero(diffs(s))) by {
        let k = choose|k: int| 0 <= k < i && d@[k] != 0;
        assert(diffs(s)[k] == d@[k]);
    }
    match extrapolate(&d) {
        Some(p) => match last.checked_add(p) {
            Some(r) => Some(r),
            None => None,
        },
        None => None,
    }
}

/// The sum of the predicted next values of the sequences, one per line.
pub open spec fn prediction_sum(ls: Seq<Seq<int>>) -> int
    decreases ls.len(),
{
    if ls.len() == 0 {
        0
    } else {
        prediction_sum(ls.drop_last()) + predict(ls.last())
    }
}

/// Every line reads as a non-empty list of numbers whose prediction fits.
pub open spec fn lines_predictable(ls: Seq<Seq<char>>) -> bool {
    forall|i: int|
        0 <= i < ls.len() ==> (#[trigger] numbers_spec(ls[i])) is Some && numbers_spec(ls[i])->0.len() > 0
            && fits(as_ints(numbers_spec(ls[i])->0))
}

pub open spec fn line_sequences(ls: Seq<Seq<char>>) -> Seq<Seq<int>> {
    ls.map_values(|l: Seq<char>| as_ints(numbers_spec(l)->0))
}

/// The sum of the predictions for all lines, each a nonempty list of
/// numbers; `None` when a value does not fit in an `i64`.
pub fn prediction_total(data: &str) -> (res: Option<i64>)
    requires
        forall|i: int| 0 <= i < lines_spec(data@).len() ==> (#[trigger] numbers_spec(lines_spec(data@)[i])) is Some
            && numbers_spec(lines_spec(data@)[i])->0.len() > 0,
    ensures
        res matches Some(v) ==> lines_predictable(lines_spec(data@)) && v == prediction_sum(
            line_sequences(lines_spec(data@)),
        ),
        res is None ==> !lines_predictable(lines_spec(data@)) || !(i64::MIN <= prediction_sum(
            line_sequences(lines_spec(data@)),
        ) <= i64::MAX) || exists|k: int|
            0 <= k <= lines_spec(data@).len() && !(i64::MIN <= #[trigger] prediction_sum(
                line_sequences(lines_spec(data@).take(k)),
            ) <= i64::MAX),
{
    let chars = chars_of(data);
    let ls = lines(chars.as_slice());
    let ghost lv = rows(ls@);
    let mut sum: i64 = 0;
    let mut i: usize = 0;
    while i < ls.len()
        invariant
            i <= ls@.len(),
            lv == rows(ls@),
            lv == lines_spec(data@),
            lines_predictable(lv.take(i as int)),
            sum == prediction_sum(line_sequences(lv.take(i as int))),
        decreases ls@.len() - i,
    {
        assert(lv[i as int] == ls@[i as int]@);
        assert(lv.take(i + 1).drop_last() =~= lv.take(i as int));
        assert(line_sequences(lv.take(i + 1)).drop_last() =~= line_sequences(lv.take(i as int)));
        let nums = match parse_numbers(ls[i].as_slice()) {
            Some(v) => v,
            None => {
                assert(!lines_predictable(lv)) by {
                    assert(numbers_spec(lv[i as int]) is None);
                }
                return None;
            },
        };
        if nums.len() == 0 {
            assert(!lines_predictable(lv)) by {
                assert(numbers_spec(lv[i as int])->0.len() == 0);
            }
            return None;
        }
        let p = match extrapolate(&nums) {
            Some(p) => p,
            None => {
                assert(!lines_predictable(lv)) by {
                    assert(!fits(as_ints(numbers_spec(lv[i as int])->0)));
                }
                return None;
            },
        };
        assert(line_sequences(lv.take(i + 1)).last() == as_ints(nums@));
        match sum.checked_add(p) {
            Some(t) => {
                sum = t;
            },
            None => {
                assert(!(i64::MIN <= prediction_sum(line_sequences(lv.take(i + 1))) <= i64::MAX));
                return None;
            },
        }
        assert(lines_predictable(lv.take(i + 1))) by {
            assert forall|k: int| 0 <= k < i + 1 implies (#[trigger] numbers_spec(lv.take(i + 1)[k])) is Some
                && numbers_spec(lv.take(i + 1)[k])->0.len() > 0 && fits(as_ints(numbers_spec(lv.take(i + 1)[k])->0)) by {
                if k < i {
                    assert(lv.take(i + 1)[k] == lv.take(i as int)[k]);
                }
            }
        }
        i = i + 1;
    }
    assert(lv.take(i as int) =~= lv);
    Some(sum)
}

/// A sequence with constant differences `d` (not all zero) continues with
/// the last value plus `d`.
pub proof fn lemma_arithmetic_prediction(s: Seq<int>, d: int)
    requires
        s.len() >= 2,
        d != 0,
        forall|i: int| 0 <= i < s.len() - 1 ==> #[trigger] s[i + 1] - s[i] == d,
    ensures
        predict(s) == s.last() + d,
{
    let ds = diffs(s);
    assert(ds[0] == d);
    assert(!all_zero(ds));
    assert(all_zero(diffs(ds))) by {
        assert forall|i: int| 0 <= i < diffs(ds).len() implies diffs(ds)[i] == 0 by {
            assert(ds[i + 1] == s[i + 2] - s[i + 1]);
            assert(ds[i] == s[i + 1] - s[i]);
        }
    }
    assert(ds.last() == ds[ds.len() - 1]);
    assert(ds[ds.len() - 1] == s[s.len() - 1] - s[s.len() - 2]);
    assert(predict(ds) == ds.last());
    assert(predict(s) == s.last() + predict(ds));
}

} // verus!
