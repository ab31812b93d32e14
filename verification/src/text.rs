//! Text handling shared by the puzzle solvers: turning a `&str` into
//! characters, cutting it into lines and fields, and reading numbers.
use vstd::prelude::*;

verus! {

/// `c` is an ASCII decimal digit.
pub open spec fn is_digit(c: char) -> bool {
    '0' <= c && c <= '9'
}

/// The numeric value of a decimal digit.
pub open spec fn digit_value(c: char) -> int {
    c as int - '0' as int
}

/// Every character of `s` is a decimal digit.
pub open spec fn all_digits(s: Seq<char>) -> bool {
    forall|i: int| 0 <= i < s.len() ==> is_digit(#[trigger] s[i])
}

/// The number written by the decimal digits `s` (most significant first).
pub open spec fn digits_value(s: Seq<char>) -> int
    decreases s.len(),
{
    if s.len() == 0 {
        0
    } else {
        digits_value(s.drop_last()) * 10 + digit_value(s.last())
    }
}

/// What `str::parse` gives for an integer: an optional sign followed by at
/// least one decimal digit; `None` for anything else.
pub open spec fn int_literal(s: Seq<char>) -> Option<int> {
    if s.len() >= 2 && s[0] == '-' && all_digits(s.skip(1)) {
        Some(-digits_value(s.skip(1)))
    } else if s.len() >= 2 && s[0] == '+' && all_digits(s.skip(1)) {
        Some(digits_value(s.skip(1)))
    } else if s.len() >= 1 && all_digits(s) {
        Some(digits_value(s))
    } else {
        None
    }
}

/// The value `str::parse::<i64>` gives for `s`, if it succeeds.
pub open spec fn i64_literal(s: Seq<char>) -> Option<i64> {
    match int_literal(s) {
        Some(v) => if i64::MIN <= v <= i64::MAX {
            Some(v as i64)
        } else {
            None
        },
        None => None,
    }
}

/// The value `str::parse::<u64>` gives for `s`, if it succeeds.
pub open spec fn u64_literal(s: Seq<char>) -> Option<u64> {
    match int_literal(s) {
        Some(v) => if 0 <= v <= u64::MAX && !(s.len() > 0 && s[0] == '-') {
            Some(v as u64)
        } else {
            None
        },
        None => None,
    }
}

pub proof fn lemma_digits_value_nonneg(s: Seq<char>)
    requires
        all_digits(s),
    ensures
        digits_value(s) >= 0,
    decreases s.len(),
{
    if s.len() > 0 {
        assert(is_digit(s[s.len() - 1]));
        lemma_digits_value_nonneg(s.drop_last());
    }
}

pub proof fn lemma_digits_value_prefix(s: Seq<char>, i: int)
    requires
        all_digits(s),
        0 <= i <= s.len(),
    ensures
        digits_value(s.take(i)) <= digits_value(s),
    decreases s.len(),
{
    if i < s.len() {
        assert(s.take(i) =~= s.drop_last().take(i));
        lemma_digits_value_prefix(s.drop_last(), i);
        lemma_digits_value_nonneg(s.drop_last());
        assert(is_digit(s[s.len() - 1]));
    } else {
        assert(s.take(i) =~= s);
    }
}

/// Reads the decimal digits `s[from..]` as an unsigned number, or `None` when
/// the number does not fit in a `u64`.
fn digits_to_u64(s: &[char], from: usize) -> (res: Option<u64>)
    requires
        from <= s@.len(),
        all_digits(s@.skip(from as int)),
    ensures
        res matches Some(v) ==> v == digits_value(s@.skip(from as int)),
        res is None ==> digits_value(s@.skip(from as int)) > u64::MAX,
{
    let ghost t = s@.skip(from as int);
    let mut acc: u64 = 0;
    let mut i: usize = from;
    while i < s.len()
        invariant
            from <= i <= s@.len(),
            t == s@.skip(from as int),
            all_digits(t),
            acc == digits_value(t.take(i - from)),
        decreases s@.len() - i,
    {
        let c = s[i];
        assert(t[i - from] == c);
        assert(is_digit(c));
        let d = (c as u32 - '0' as u32) as u64;
        assert(t.take(i + 1 - from).drop_last() =~= t.take(i - from));
        assert(t.take(i + 1 - from).last() == c);
        match acc.checked_mul(10) {
            Some(m) => match m.checked_add(d) {
                Some(n) => {
                    acc = n;
                },
                None => {
                    proof {
                        lemma_digits_value_prefix(t, i + 1 - from);
                    }
                    return None;
                },
            },
            None => {
                proof {
                    lemma_digits_value_prefix(t, i + 1 - from);
                    lemma_digits_value_nonneg(t.take(i - from));
                }
                return None;
            },
        }
        i = i + 1;
    }
    assert(t.take(i - from) =~= t);
    Some(acc)
}

/// `str::parse::<i64>`: an optional sign and at least one decimal digit.
pub fn parse_i64(s: &[char]) -> (res: Option<i64>)
    ensures
        res == i64_literal(s@),
{
    let n = s.len();
    if n == 0 {
        return None;
    }
    let neg = s[0] == '-';
    let from: usize = if s[0] == '-' || s[0] == '+' {
        1
    } else {
        0
    };
    if from == 1 && n == 1 {
        return None;
    }
    let mut i = from;
    while i < n
        invariant
            from <= i <= n,
            n == s@.len(),
            forall|k: int| from <= k < i ==> is_digit(#[trigger] s@[k]),
            n >= 1,
            from <= 1,
            from == 1 ==> n >= 2 && (s@[0] == '-' || s@[0] == '+'),
            from == 0 ==> s@[0] != '-' && s@[0] != '+',
        decreases n - i,
    {
        if !('0' <= s[i] && s[i] <= '9') {
            proof {
                assert(s@.skip(from as int)[i - from] == s@[i as int]);
                if from == 0 {
                    assert(s@.skip(0) =~= s@);
                } else {
                    assert(!is_digit(s@[0]));
                }
                assert(!is_digit(s@.skip(from as int)[i - from]));
            }
            return None;
        }
        i = i + 1;
    }
    assert(all_digits(s@.skip(from as int))) by {
        assert forall|k: int| 0 <= k < s@.skip(from as int).len() implies is_digit(
            #[trigger] s@.skip(from as int)[k],
        ) by {
            assert(s@.skip(from as int)[k] == s@[from + k]);
        }
    }
    if from == 0 {
        assert(s@.skip(0) =~= s@);
    }
    match digits_to_u64(s, from) {
        None => None,
        Some(v) => {
            if neg {
                if v <= 9223372036854775808u64 {
                    if v == 9223372036854775808u64 {
                        Some(i64::MIN)
                    } else {
                        Some(-(v as i64))
                    }
                } else {
                    None
                }
            } else {
                if v <= 9223372036854775807u64 {
                    Some(v as i64)
                } else {
                    None
                }
            }
        },
    }
}

/// `str::parse::<u64>`: an optional `+` and at least one decimal digit.
pub fn parse_u64(s: &[char]) -> (res: Option<u64>)
    ensures
        res == u64_literal(s@),
{
    let n = s.len();
    if n == 0 {
        return None;
    }
    if s[0] == '-' {
        return None;
    }
    let from: usize = if s[0] == '+' {
        1
    } else {
        0
    };
    if from == 1 && n == 1 {
        return None;
    }
    let mut i = from;
    while i < n
        invariant
            from <= i <= n,
            n == s@.len(),
            forall|k: int| from <= k < i ==> is_digit(#[trigger] s@[k]),
            n >= 1,
            from <= 1,
            from == 1 ==> n >= 2 && (s@[0] == '-' || s@[0] == '+'),
            from == 0 ==> s@[0] != '-' && s@[0] != '+',
        decreases n - i,
    {
        if !('0' <= s[i] && s[i] <= '9') {
            proof {
                assert(s@.skip(from as int)[i - from] == s@[i as int]);
                if from == 0 {
                    assert(s@.skip(0) =~= s@);
                } else {
                    assert(!is_digit(s@[0]));
                }
                assert(!is_digit(s@.skip(from as int)[i - from]));
            }
            return None;
        }
        i = i + 1;
    }
    assert(all_digits(s@.skip(from as int))) by {
        assert forall|k: int| 0 <= k < s@.skip(from as int).len() implies is_digit(
            #[trigger] s@.skip(from as int)[k],
        ) by {
            assert(s@.skip(from as int)[k] == s@[from + k]);
        }
    }
    if from == 0 {
        assert(s@.skip(0) =~= s@);
    }
    proof {
        lemma_digits_value_nonneg(s@.skip(from as int));
    }
    digits_to_u64(s, from)
}

/// The characters of `s`, in order.
pub fn chars_of(s: &str) -> (v: Vec<char>)
    ensures
        v@ == s@,
{
    let mut v: Vec<char> = Vec::new();
    for c in it: s.chars()
        invariant
            v@ == it.seq().take(it.index() as int),
    {
        v.push(c);
    }
    assert(v@ =~= s@);
    v
}


/// The contents of a vector of character vectors.
pub open spec fn rows(v: Seq<Vec<char>>) -> Seq<Seq<char>> {
    v.map_values(|x: Vec<char>| x@)
}

/// The pieces of `s` between occurrences of `sep`, as `str::split` gives
/// them: always at least one piece, empty pieces kept.
pub open spec fn split_spec(s: Seq<char>, sep: char) -> Seq<Seq<char>>
    decreases s.len(),
{
    if s.len() == 0 {
        seq![Seq::<char>::empty()]
    } else {
        let pre = split_spec(s.drop_last(), sep);
        if s.last() == sep {
            pre.push(Seq::<char>::empty())
        } else {
            pre.update(pre.len() - 1, pre.last().push(s.last()))
        }
    }
}

pub proof fn lemma_split_spec_nonempty(s: Seq<char>, sep: char)
    ensures
        split_spec(s, sep).len() >= 1,
    decreases s.len(),
{
    if s.len() > 0 {
        lemma_split_spec_nonempty(s.drop_last(), sep);
    }
}

/// The pieces of `s` separated by `sep` (`str::split` with a character).
pub fn split_on(s: &[char], sep: char) -> (res: Vec<Vec<char>>)
    ensures
        rows(res@) == split_spec(s@, sep),
{
    let mut pieces: Vec<Vec<char>> = Vec::new();
    let mut cur: Vec<char> = Vec::new();
    let mut i: usize = 0;
    while i < s.len()
        invariant
            i <= s@.len(),
            rows(pieces@).push(cur@) == split_spec(s@.take(i as int), sep),
        decreases s@.len() - i,
    {
        let ghost before = rows(pieces@).push(cur@);
        assert(s@.take(i + 1).drop_last() =~= s@.take(i as int));
        proof {
            lemma_split_spec_nonempty(s@.take(i as int), sep);
        }
        if s[i] == sep {
            let done = cur;
            pieces.push(done);
            cur = Vec::new();
            assert(rows(pieces@).push(cur@) =~= before.push(Seq::<char>::empty()));
        } else {
            cur.push(s[i]);
            assert(rows(pieces@).push(cur@) =~= before.update(
                before.len() - 1,
                before.last().push(s@[i as int]),
            ));
        }
        i = i + 1;
    }
    assert(s@.take(i as int) =~= s@);
    pieces.push(cur);
    pieces
}

/// `line` with one trailing carriage return removed.
pub open spec fn strip_cr(line: Seq<char>) -> Seq<char> {
    if line.len() > 0 && line.last() == '\r' {
        line.drop_last()
    } else {
        line
    }
}

/// The lines of `s` as `str::lines` gives them: split at `'\n'`, a `"\r\n"`
/// ending counting as one line break, and no empty line after a final break.
pub open spec fn lines_spec(s: Seq<char>) -> Seq<Seq<char>> {
    let parts = split_spec(s, '\n');
    let body = parts.drop_last().map_values(|l: Seq<char>| strip_cr(l));
    if parts.last().len() == 0 {
        body
    } else {
        body.push(parts.last())
    }
}

/// The lines of `s` (`str::lines`).
pub fn lines(s: &[char]) -> (res: Vec<Vec<char>>)
    ensures
        rows(res@) == lines_spec(s@),
{
    let parts = split_on(s, '\n');
    proof {
        lemma_split_spec_nonempty(s@, '\n');
    }
    let ghost pv = rows(parts@);
    let n = parts.len();
    let mut res: Vec<Vec<char>> = Vec::new();
    let mut i: usize = 0;
    while i + 1 < n
        invariant
            n == parts@.len(),
            n >= 1,
            pv == rows(parts@),
            i + 1 <= n,
            rows(res@) == pv.take(i as int).map_values(|l: Seq<char>| strip_cr(l)),
        decreases n - i,
    {
        let p = &parts[i];
        let m = p.len();
        let mut line: Vec<char> = Vec::new();
        let keep = if m > 0 && p[m - 1] == '\r' {
            m - 1
        } else {
            m
        };
        let mut k: usize = 0;
        while k < keep
            invariant
                k <= keep <= m,
                m == p@.len(),
                line@ == p@.take(k as int),
            decreases keep - k,
        {
            line.push(p[k]);
            k = k + 1;
        }
        assert(pv[i as int] == p@);
        assert(line@ =~= strip_cr(p@));
        let ghost old_rows = rows(res@);
        res.push(line);
        assert(rows(res@) =~= old_rows.push(strip_cr(p@)));
        assert(pv.take(i + 1).map_values(|l: Seq<char>| strip_cr(l)) =~= pv.take(
            i as int,
        ).map_values(|l: Seq<char>| strip_cr(l)).push(strip_cr(pv[i as int])));
        i = i + 1;
    }
    assert(pv.take(i as int) =~= pv.drop_last());
    let last = &parts[n - 1];
    if last.len() > 0 {
        let mut line: Vec<char> = Vec::new();
        let mut k: usize = 0;
        while k < last.len()
            invariant
                k <= last@.len(),
                line@ == last@.take(k as int),
            decreases last@.len() - k,
        {
            line.push(last[k]);
            k = k + 1;
        }
        assert(line@ =~= last@);
        let ghost old_rows = rows(res@);
        res.push(line);
        assert(rows(res@) =~= old_rows.push(last@));
    }
    assert(rows(res@) =~= lines_spec(s@));
    res
}


/// `char::is_whitespace`: the characters with the Unicode White_Space property.
pub open spec fn is_ws(c: char) -> bool {
    ||| ('\u{9}' <= c && c <= '\u{d}')
    ||| c == ' '
    ||| c == '\u{85}'
    ||| c == '\u{a0}'
    ||| c == '\u{1680}'
    ||| ('\u{2000}' <= c && c <= '\u{200a}')
    ||| c == '\u{2028}'
    ||| c == '\u{2029}'
    ||| c == '\u{202f}'
    ||| c == '\u{205f}'
    ||| c == '\u{3000}'
}

pub fn is_whitespace(c: char) -> (b: bool)
    ensures
        b == is_ws(c),
{
    ('\u{9}' <= c && c <= '\u{d}') || c == ' ' || c == '\u{85}' || c == '\u{a0}' || c == '\u{1680}'
        || ('\u{2000}' <= c && c <= '\u{200a}') || c == '\u{2028}' || c == '\u{2029}' || c
        == '\u{202f}' || c == '\u{205f}' || c == '\u{3000}'
}

/// `s` without its leading whitespace.
pub open spec fn trim_start_spec(s: Seq<char>) -> Seq<char>
    decreases s.len(),
{
    if s.len() > 0 && is_ws(s[0]) {
        trim_start_spec(s.drop_first())
    } else {
        s
    }
}

/// `s` without its trailing whitespace.
pub open spec fn trim_end_spec(s: Seq<char>) -> Seq<char>
    decreases s.len(),
{
    if s.len() > 0 && is_ws(s.last()) {
        trim_end_spec(s.drop_last())
    } else {
        s
    }
}

/// `str::trim`: `s` without leading and trailing whitespace.
pub open spec fn trim_spec(s: Seq<char>) -> Seq<char> {
    trim_end_spec(trim_start_spec(s))
}

proof fn lemma_trim_start_at(s: Seq<char>, i: int)
    requires
        0 <= i <= s.len(),
        forall|k: int| 0 <= k < i ==> is_ws(#[trigger] s[k]),
        i == s.len() || !is_ws(s[i]),
    ensures
        trim_start_spec(s) == s.skip(i),
    decreases i,
{
    if i == 0 {
        assert(s.skip(0) =~= s);
    } else {
        assert forall|k: int| 0 <= k < i - 1 implies is_ws(#[trigger] s.drop_first()[k]) by {
            assert(s.drop_first()[k] == s[k + 1]);
        }
        if i < s.len() {
            assert(s.drop_first()[i - 1] == s[i]);
        }
        lemma_trim_start_at(s.drop_first(), i - 1);
        assert(s.drop_first().skip(i - 1) =~= s.skip(i));
    }
}

proof fn lemma_trim_end_at(s: Seq<char>, j: int)
    requires
        0 <= j <= s.len(),
        forall|k: int| j <= k < s.len() ==> is_ws(#[trigger] s[k]),
        j == 0 || !is_ws(s[j - 1]),
    ensures
        trim_end_spec(s) == s.take(j),
    decreases s.len() - j,
{
    if j == s.len() {
        assert(s.take(j) =~= s);
    } else {
        assert(is_ws(s[s.len() - 1]));
        assert forall|k: int| j <= k < s.len() - 1 implies is_ws(#[trigger] s.drop_last()[k]) by {
            assert(s.drop_last()[k] == s[k]);
        }
        if j > 0 {
            assert(s.drop_last()[j - 1] == s[j - 1]);
        }
        lemma_trim_end_at(s.drop_last(), j);
        assert(s.drop_last().take(j) =~= s.take(j));
    }
}

/// `str::trim`.
pub fn trim(s: &[char]) -> (res: Vec<char>)
    ensures
        res@ == trim_spec(s@),
{
    let n = s.len();
    let mut i: usize = 0;
    while i < n && is_whitespace(s[i])
        invariant
            i <= n,
            n == s@.len(),
            forall|k: int| 0 <= k < i ==> is_ws(#[trigger] s@[k]),
        decreases n - i,
    {
        i = i + 1;
    }
    proof {
        lemma_trim_start_at(s@, i as int);
    }
    let ghost t = s@.skip(i as int);
    let mut j: usize = n;
    while j > i && is_whitespace(s[j - 1])
        invariant
            i <= j <= n,
            n == s@.len(),
            t == s@.skip(i as int),
            forall|k: int| j <= k < n ==> is_ws(#[trigger] s@[k]),
        decreases j,
    {
        j = j - 1;
    }
    proof {
        assert forall|k: int| j - i <= k < t.len() implies is_ws(#[trigger] t[k]) by {
            assert(t[k] == s@[k + i]);
        }
        if j > i {
            assert(t[j - i - 1] == s@[j - 1]);
        }
        lemma_trim_end_at(t, j - i);
    }
    let mut res: Vec<char> = Vec::new();
    let mut k: usize = i;
    while k < j
        invariant
            i <= k <= j <= n,
            n == s@.len(),
            res@ == s@.subrange(i as int, k as int),
        decreases j - k,
    {
        res.push(s[k]);
        k = k + 1;
    }
    assert(res@ =~= t.take(j - i));
    res
}

/// The position of the first `c` in `s`.
pub open spec fn first_index(s: Seq<char>, c: char) -> Option<int> {
    if exists|i: int| 0 <= i < s.len() && s[i] == c {
        Some(choose|i: int| 0 <= i < s.len() && s[i] == c && forall|k: int| 0 <= k < i ==> s[k] != c)
    } else {
        None
    }
}

/// The position of the first `c` in `s`.
pub fn find_char(s: &[char], c: char) -> (res: Option<usize>)
    ensures
        match res {
            Some(i) => i < s@.len() && s@[i as int] == c && forall|k: int|
                0 <= k < i ==> s@[k] != c,
            None => forall|k: int| 0 <= k < s@.len() ==> s@[k] != c,
        },
        match res {
            Some(i) => first_index(s@, c) == Some(i as int),
            None => first_index(s@, c) is None,
        },
{
    let mut i: usize = 0;
    while i < s.len()
        invariant
            i <= s@.len(),
            forall|k: int| 0 <= k < i ==> s@[k] != c,
        decreases s@.len() - i,
    {
        if s[i] == c {
            proof {
                let w = choose|w: int| 0 <= w < s@.len() && s@[w] == c && forall|k: int|
                    0 <= k < w ==> s@[k] != c;
                assert(w == i as int) by {
                    if w < i {
                    } else if w > i {
                        assert(s@[i as int] != c);
                    }
                }
            }
            return Some(i);
        }
        i = i + 1;
    }
    None
}

/// The characters `s[from..to]`.
pub fn slice_chars(s: &[char], from: usize, to: usize) -> (res: Vec<char>)
    requires
        from <= to <= s@.len(),
    ensures
        res@ == s@.subrange(from as int, to as int),
{
    let mut res: Vec<char> = Vec::new();
    let mut k: usize = from;
    while k < to
        invariant
            from <= k <= to <= s@.len(),
            res@ == s@.subrange(from as int, k as int),
        decreases to - k,
    {
        res.push(s[k]);
        k = k + 1;
    }
    res
}

/// `p` occurs in `s` at position `i`.
pub open spec fn occurs_at(s: Seq<char>, p: Seq<char>, i: int) -> bool {
    0 <= i && i + p.len() <= s.len() && s.subrange(i, i + p.len()) == p
}

/// The first position where `p` occurs in `s`.
pub open spec fn first_occurrence(s: Seq<char>, p: Seq<char>) -> Option<int> {
    if exists|i: int| occurs_at(s, p, i) {
        Some(choose|i: int| occurs_at(s, p, i) && forall|k: int| 0 <= k < i ==> !occurs_at(s, p, k))
    } else {
        None
    }
}

/// The pieces of `s` between the occurrences of `p` (`str::split` with a
/// string pattern: leftmost occurrences, not overlapping).
#[verifier::opaque]
pub open spec fn split_pat_spec(s: Seq<char>, p: Seq<char>) -> Seq<Seq<char>>
    decreases s.len(),
{
    if p.len() == 0 {
        seq![s]
    } else {
        match first_occurrence(s, p) {
            None => seq![s],
            Some(i) => if 0 <= i && i + p.len() <= s.len() {
                seq![s.take(i)] + split_pat_spec(s.skip(i + p.len()), p)
            } else {
                seq![s]
            },
        }
    }
}

fn occurs_here(s: &[char], p: &[char], i: usize) -> (b: bool)
    requires
        i <= s@.len(),
    ensures
        b == occurs_at(s@, p@, i as int),
{
    let n = s.len();
    if p.len() > n - i {
        return false;
    }
    let mut k: usize = 0;
    while k < p.len()
        invariant
            k <= p@.len(),
            n == s@.len(),
            i + p@.len() <= n,
            forall|t: int| 0 <= t < k ==> s@[i + t] == p@[t],
        decreases p@.len() - k,
    {
        if s[i + k] != p[k] {
            assert(s@.subrange(i as int, i + p@.len())[k as int] != p@[k as int]);
            return false;
        }
        k = k + 1;
    }
    assert(s@.subrange(i as int, i + p@.len()) =~= p@);
    true
}

/// The first position at or after `from` where `p` occurs in `s`.
pub fn find_pat(s: &[char], p: &[char], from: usize) -> (res: Option<usize>)
    requires
        from <= s@.len(),
    ensures
        match res {
            Some(i) => from <= i && occurs_at(s@, p@, i as int) && forall|k: int|
                from <= k < i ==> !occurs_at(s@, p@, k),
            None => forall|k: int| from <= k ==> !occurs_at(s@, p@, k),
        },
{
    let n = s.len();
    let mut i: usize = from;
    while i < n
        invariant
            from <= i <= n,
            n == s@.len(),
            forall|k: int| from <= k < i ==> !occurs_at(s@, p@, k),
        decreases n - i,
    {
        if occurs_here(s, p, i) {
            return Some(i);
        }
        i = i + 1;
    }
    if occurs_here(s, p, n) {
        return Some(n);
    }
    None
}

proof fn lemma_first_occurrence(s: Seq<char>, p: Seq<char>, i: int)
    requires
        occurs_at(s, p, i),
        forall|k: int| 0 <= k < i ==> !occurs_at(s, p, k),
    ensures
        first_occurrence(s, p) == Some(i),
{
    let w = choose|w: int| occurs_at(s, p, w) && forall|k: int| 0 <= k < w ==> !occurs_at(s, p, k);
    if w < i {
        assert(!occurs_at(s, p, w));
    } else if w > i {
        assert(!occurs_at(s, p, i));
    }
}

proof fn lemma_occurs_shift(s: Seq<char>, p: Seq<char>, d: int, k: int)
    requires
        0 <= d <= s.len(),
    ensures
        occurs_at(s.skip(d), p, k) <==> (k >= 0 && occurs_at(s, p, k + d)),
{
    if k >= 0 && k + p.len() <= s.len() - d {
        assert(s.skip(d).subrange(k, k + p.len()) =~= s.subrange(k + d, k + d + p.len()));
    }
}

proof fn lemma_split_pat_step(s: Seq<char>, p: Seq<char>, i: int)
    requires
        p.len() > 0,
        first_occurrence(s, p) == Some(i),
        0 <= i && i + p.len() <= s.len(),
    ensures
        split_pat_spec(s, p) == seq![s.take(i)] + split_pat_spec(s.skip(i + p.len()), p),
{
    reveal_with_fuel(split_pat_spec, 2);
}

proof fn lemma_split_pat_none(s: Seq<char>, p: Seq<char>)
    requires
        p.len() > 0,
        first_occurrence(s, p) is None,
    ensures
        split_pat_spec(s, p) == seq![s],
{
    reveal_with_fuel(split_pat_spec, 2);
}

/// The pieces of `s` between the occurrences of the non-empty pattern `p`.
pub fn split_pat(s: &[char], p: &[char]) -> (res: Vec<Vec<char>>)
    requires
        p@.len() > 0,
    ensures
        rows(res@) == split_pat_spec(s@, p@),
{
    let mut res: Vec<Vec<char>> = Vec::new();
    let mut start: usize = 0;
    let n = s.len();
    assert(s@.skip(0) =~= s@);
    assert(rows(res@) =~= Seq::<Seq<char>>::empty());
    assert(rows(res@) + split_pat_spec(s@.skip(0), p@) =~= split_pat_spec(s@, p@));
    loop
        invariant
            n == s@.len(),
            start <= s@.len(),
            p@.len() > 0,
            rows(res@) + split_pat_spec(s@.skip(start as int), p@) == split_pat_spec(s@, p@),
        decreases s@.len() - start,
    {
        let ghost rest = s@.skip(start as int);
        match find_pat(s, p, start) {
            Some(i) => {
                proof {
                    assert forall|k: int| 0 <= k < i - start implies !occurs_at(rest, p@, k) by {
                        lemma_occurs_shift(s@, p@, start as int, k);
                    }
                    lemma_occurs_shift(s@, p@, start as int, i - start);
                    lemma_first_occurrence(rest, p@, i - start);
                    lemma_split_pat_step(rest, p@, i - start);
                    assert(rest.take(i - start) =~= s@.subrange(start as int, i as int));
                    assert(rest.skip(i - start + p@.len()) =~= s@.skip(i + p@.len()));
                }
                assert(i + p@.len() <= n);
                let piece = slice_chars(s, start, i);
                let ghost before = rows(res@);
                res.push(piece);
                assert(rows(res@) =~= before.push(piece@));
                assert(rows(res@) + split_pat_spec(s@.skip(i + p@.len()), p@) =~= before + split_pat_spec(rest, p@));
                start = i + p.len();
            },
            None => {
                proof {
                    assert forall|k: int| !occurs_at(rest, p@, k) by {
                        lemma_occurs_shift(s@, p@, start as int, k);
                    }
                    assert(rest =~= s@.subrange(start as int, s@.len() as int));
                    assert(first_occurrence(rest, p@) is None);
                    lemma_split_pat_none(rest, p@);
                }
                let piece = slice_chars(s, start, s.len());
                let ghost before = rows(res@);
                res.push(piece);
                assert(rows(res@) =~= before.push(piece@));
                assert(rows(res@) =~= rows(res@) + Seq::<Seq<char>>::empty());
                return res;
            },
        }
    }
}

/// `str::split_whitespace`: the maximal runs of non-whitespace characters.
pub open spec fn words_spec(s: Seq<char>) -> Seq<Seq<char>>
    decreases s.len(),
{
    if s.len() == 0 {
        Seq::empty()
    } else {
        let w = words_spec(s.drop_last());
        if is_ws(s.last()) {
            w
        } else if s.len() >= 2 && !is_ws(s[s.len() - 2]) {
            w.update(w.len() - 1, w.last().push(s.last()))
        } else {
            w.push(seq![s.last()])
        }
    }
}

proof fn lemma_words_nonempty(s: Seq<char>)
    requires
        s.len() >= 1,
        !is_ws(s.last()),
    ensures
        words_spec(s).len() >= 1,
    decreases s.len(),
{
    if s.len() >= 2 && !is_ws(s[s.len() - 2]) {
        assert(s.drop_last().last() == s[s.len() - 2]);
        lemma_words_nonempty(s.drop_last());
    }
}

/// `str::split_whitespace`.
pub fn words(s: &[char]) -> (res: Vec<Vec<char>>)
    ensures
        rows(res@) == words_spec(s@),
{
    let mut res: Vec<Vec<char>> = Vec::new();
    let mut cur: Vec<char> = Vec::new();
    let mut i: usize = 0;
    while i < s.len()
        invariant
            i <= s@.len(),
            cur@.len() > 0 ==> i > 0 && !is_ws(s@[i - 1]),
            i > 0 && !is_ws(s@[i - 1]) ==> cur@.len() > 0,
            (if cur@.len() > 0 {
                rows(res@).push(cur@)
            } else {
                rows(res@)
            }) == words_spec(s@.take(i as int)),
        decreases s@.len() - i,
    {
        let c = s[i];
        let ghost prev = s@.take(i as int);
        assert(s@.take(i + 1).drop_last() =~= prev);
        assert(s@.take(i + 1).last() == c);
        if is_whitespace(c) {
            if cur.len() > 0 {
                let ghost before = rows(res@);
                let done = cur;
                res.push(done);
                cur = Vec::new();
                assert(rows(res@) =~= before.push(done@));
            }
        } else {
            let ghost before = rows(res@);
            let ghost old_cur = cur@;
            if cur.len() > 0 {
                assert(s@.take(i + 1)[i - 1] == s@[i - 1]);
                proof {
                    lemma_words_nonempty(prev);
                }
            }
            cur.push(c);
            if cur.len() > 1 {
                assert(rows(res@).push(cur@) =~= before.push(old_cur).update(before.len() as int, old_cur.push(c)));
            } else {
                assert(cur@ =~= seq![c]);
                assert(rows(res@).push(cur@) =~= before.push(seq![c]));
            }
        }
        i = i + 1;
    }
    assert(s@.take(i as int) =~= s@);
    if cur.len() > 0 {
        res.push(cur);
    }
    res
}

/// The whitespace-separated words of `s` read as `i64`s; `None` when one does not read.
pub open spec fn numbers_spec(s: Seq<char>) -> Option<Seq<i64>> {
    let ws = words_spec(s);
    if forall|i: int| 0 <= i < ws.len() ==> (#[trigger] i64_literal(ws[i])) is Some {
        Some(Seq::new(ws.len(), |i: int| i64_literal(ws[i])->0))
    } else {
        None
    }
}

/// Reads the whitespace-separated numbers of `s`.
pub fn parse_numbers(s: &[char]) -> (res: Option<Vec<i64>>)
    ensures
        match res {
            Some(v) => numbers_spec(s@) == Some(v@),
            None => numbers_spec(s@) is None,
        },
{
    let ws = words(s);
    let ghost wv = rows(ws@);
    let mut v: Vec<i64> = Vec::new();
    let mut i: usize = 0;
    while i < ws.len()
        invariant
            i <= ws@.len(),
            wv == rows(ws@),
            wv == words_spec(s@),
            v@.len() == i,
            forall|k: int| 0 <= k < i ==> i64_literal(wv[k]) == Some(#[trigger] v@[k]),
        decreases ws@.len() - i,
    {
        assert(wv[i as int] == ws@[i as int]@);
        match parse_i64(ws[i].as_slice()) {
            Some(x) => {
                v.push(x);
            },
            None => {
                assert(i64_literal(wv[i as int]) is None);
                return None;
            },
        }
        i = i + 1;
    }
    proof {
        assert forall|k: int| 0 <= k < wv.len() implies (#[trigger] i64_literal(wv[k])) is Some by {
            assert(i64_literal(wv[k]) == Some(v@[k]));
        }
        assert(v@ =~= Seq::new(wv.len(), |k: int| i64_literal(wv[k])->0));
    }
    Some(v)
}

/// The fields of `s` between the separators `sep`, each read as an `i64`;
/// `None` when one does not read.
pub open spec fn fields_spec(s: Seq<char>, sep: char) -> Option<Seq<i64>> {
    let fs = split_spec(s, sep);
    if forall|i: int| 0 <= i < fs.len() ==> (#[trigger] i64_literal(fs[i])) is Some {
        Some(Seq::new(fs.len(), |i: int| i64_literal(fs[i])->0))
    } else {
        None
    }
}

/// Reads the `sep`-separated numbers of `s`.
pub fn parse_fields(s: &[char], sep: char) -> (res: Option<Vec<i64>>)
    ensures
        match res {
            Some(v) => fields_spec(s@, sep) == Some(v@),
            None => fields_spec(s@, sep) is None,
        },
{
    let fs = split_on(s, sep);
    let ghost fv = rows(fs@);
    let mut v: Vec<i64> = Vec::new();
    let mut i: usize = 0;
    while i < fs.len()
        invariant
            i <= fs@.len(),
            fv == rows(fs@),
            fv == split_spec(s@, sep),
            v@.len() == i,
            forall|k: int| 0 <= k < i ==> i64_literal(fv[k]) == Some(#[trigger] v@[k]),
        decreases fs@.len() - i,
    {
        assert(fv[i as int] == fs@[i as int]@);
        match parse_i64(fs[i].as_slice()) {
            Some(x) => {
                v.push(x);
            },
            None => {
                assert(i64_literal(fv[i as int]) is None);
                return None;
            },
        }
        i = i + 1;
    }
    proof {
        assert forall|k: int| 0 <= k < fv.len() implies (#[trigger] i64_literal(fv[k])) is Some by {
            assert(i64_literal(fv[k]) == Some(v@[k]));
        }
        assert(v@ =~= Seq::new(fv.len(), |k: int| i64_literal(fv[k])->0));
    }
    Some(v)
}

/// Whether two character vectors hold the same characters.
pub fn chars_equal(a: &Vec<char>, b: &Vec<char>) -> (res: bool)
    ensures
        res == (a@ == b@),
{
    if a.len() != b.len() {
        return false;
    }
    let mut i: usize = 0;
    while i < a.len()
        invariant
            i <= a@.len(),
            a@.len() == b@.len(),
            forall|k: int| 0 <= k < i ==> a@[k] == b@[k],
        decreases a@.len() - i,
    {
        if a[i] != b[i] {
            return false;
        }
        i = i + 1;
    }
    assert(a@ =~= b@);
    true
}

} // verus!
