//! Gear ratios: an engine schematic of numbers and symbols. A number next to
//! a symbol (diagonals included) is a part number; a `*` with exactly two
//! numbers around it is a gear.
use vstd::prelude::*;
use crate::text::{
    all_digits, chars_of, digits_value, i64_literal, is_digit, lemma_digits_value_nonneg, lines, lines_spec, parse_i64,
    rows, trim, trim_spec,
};

verus! {

/// Whether a character is numeric in the sense of `char::is_numeric`
/// (Unicode general categories Nd, Nl and No).
pub uninterp spec fn char_numeric(c: char) -> bool;

/// `char::is_numeric`. Claimed of it: the result is `char_numeric(c)`, and
/// among ASCII characters exactly the decimal digits are numeric. What it
/// gives outside ASCII rests on Unicode's tables and is left unsaid.
#[verifier::external_body]
fn is_numeric(c: char) -> (b: bool)
    ensures
        b == char_numeric(c),
        (c as u32) < 128 ==> (b <==> ('0' <= c && c <= '9')),
{
    c.is_numeric()
}

/// The schematic with a border of `.` around it: each line trimmed and given
/// a `.` at either end, and a row of `.` as long as the first row above and
/// below.
pub open spec fn engine_spec(ls: Seq<Seq<char>>) -> Seq<Seq<char>> {
    let body = ls.map_values(|l: Seq<char>| seq!['.'] + trim_spec(l) + seq!['.']);
    let pad = Seq::new(body[0].len(), |x: int| '.');
    seq![pad] + body + seq![pad]
}

/// The length of the run of numeric characters of `row` from `i`.
pub open spec fn num_len(row: Seq<char>, i: int) -> int
    decreases row.len() - i,
{
    if i < 0 || i >= row.len() || !char_numeric(row[i]) {
        0
    } else {
        1 + num_len(row, i + 1)
    }
}

pub proof fn lemma_num_len(row: Seq<char>, i: int)
    ensures
        0 <= num_len(row, i),
        0 <= i <= row.len() ==> i + num_len(row, i) <= row.len(),
    decreases row.len() - i,
{
    if 0 <= i < row.len() && char_numeric(row[i]) {
        lemma_num_len(row, i + 1);
    }
}

/// What `str::parse::<i32>` gives for a run of numeric characters.
pub open spec fn i32_value(s: Seq<char>) -> Option<int> {
    if s.len() > 0 && all_digits(s) && digits_value(s) <= i32::MAX {
        Some(digits_value(s))
    } else {
        None
    }
}

/// Whether a symbol (neither numeric nor `.`) lies in rows `yc..ymax` and
/// columns `xmin..xmax`, searching row by row from column `xc` of row `yc`
/// and stopping at the first; `None` where the search reaches a cell past
/// the end of its row.
pub open spec fn scan(e: Seq<Seq<char>>, yc: int, xc: int, ymax: int, xmin: int, xmax: int) -> Option<bool>
    decreases ymax - yc, xmax - xc,
{
    if yc >= ymax || yc < 0 {
        Some(false)
    } else if xc >= xmax {
        scan(e, yc + 1, xmin, ymax, xmin, xmax)
    } else if xc < 0 || xc >= e[yc].len() {
        None
    } else if !char_numeric(e[yc][xc]) && e[yc][xc] != '.' {
        Some(true)
    } else {
        scan(e, yc, xc + 1, ymax, xmin, xmax)
    }
}

/// Whether the number at column `i` of row `y`, `len` characters long, has a
/// symbol around it (see `scan`).
pub open spec fn touches_symbol(e: Seq<Seq<char>>, y: int, i: int, len: int) -> Option<bool> {
    let xmin = if i >= 1 { i - 1 } else { 0 };
    let xmax = if e[y].len() < i + len + 1 { e[y].len() as int } else { i + len + 1 };
    let ymin = if y >= 1 { y - 1 } else { 0 };
    let ymax = if e.len() < y + 2 { e.len() as int } else { y + 2 };
    scan(e, ymin, xmin, ymax, xmin, xmax)
}

/// The sum of the part numbers of row `y` from column `i` on; `None` where a
/// number does not fit in an `i32` or the search around one fails.
pub open spec fn row_sum(e: Seq<Seq<char>>, y: int, i: int) -> Option<int>
    decreases e[y].len() - i,
{
    if i < 0 || i >= e[y].len() {
        Some(0)
    } else if char_numeric(e[y][i]) {
        let len = num_len(e[y], i);
        if len <= 0 {
            None
        } else {
            proof {
                lemma_num_len(e[y], i);
            }
            match (i32_value(e[y].subrange(i, i + len)), touches_symbol(e, y, i, len)) {
                (Some(v), Some(hit)) => match row_sum(e, y, i + len) {
                    Some(r) => Some(r + if hit {
                        v
                    } else {
                        0
                    }),
                    None => None,
                },
                _ => None,
            }
        }
    } else {
        row_sum(e, y, i + 1)
    }
}

/// The sum of the part numbers of the first `y` rows.
pub open spec fn rows_sum(e: Seq<Seq<char>>, y: int) -> Option<int>
    decreases y,
{
    if y <= 0 {
        Some(0)
    } else {
        match (rows_sum(e, y - 1), row_sum(e, y - 1, 0)) {
            (Some(a), Some(b)) => Some(a + b),
            _ => None,
        }
    }
}

/// The sum of all part numbers of the schematic.
pub open spec fn part_sum_spec(ls: Seq<Seq<char>>) -> Option<int> {
    if ls.len() == 0 {
        None
    } else {
        rows_sum(engine_spec(ls), (ls.len() + 2) as int)
    }
}

/// The schematic with its border (see `engine_spec`).
fn build_engine(ls: &Vec<Vec<char>>) -> (e: Vec<Vec<char>>)
    requires
        ls@.len() > 0,
    ensures
        rows(e@) == engine_spec(rows(ls@)),
{
    let ghost lv = rows(ls@);
    let ghost body = lv.map_values(|l: Seq<char>| seq!['.'] + trim_spec(l) + seq!['.']);
    let mut mid: Vec<Vec<char>> = Vec::new();
    let mut y: usize = 0;
    while y < ls.len()
        invariant
            y <= ls@.len(),
            lv == rows(ls@),
            body == lv.map_values(|l: Seq<char>| seq!['.'] + trim_spec(l) + seq!['.']),
            rows(mid@) == body.take(y as int),
        decreases ls@.len() - y,
    {
        assert(lv[y as int] == ls@[y as int]@);
        let t = trim(ls[y].as_slice());
        let mut row: Vec<char> = Vec::new();
        row.push('.');
        let mut k: usize = 0;
        while k < t.len()
            invariant
                k <= t@.len(),
                row@ == seq!['.'] + t@.take(k as int),
            decreases t@.len() - k,
        {
            row.push(t[k]);
            assert(seq!['.'] + t@.take(k + 1) =~= (seq!['.'] + t@.take(k as int)).push(t@[k as int]));
            k = k + 1;
        }
        row.push('.');
        assert(row@ =~= seq!['.'] + trim_spec(lv[y as int]) + seq!['.']);
        let ghost old_rows = rows(mid@);
        mid.push(row);
        assert(rows(mid@) =~= old_rows.push(body[y as int]));
        assert(body.take(y + 1) =~= body.take(y as int).push(body[y as int]));
        y = y + 1;
    }
    assert(body.take(y as int) =~= body);
    let w = mid[0].len();
    assert(w == body[0].len());
    let mut e: Vec<Vec<char>> = Vec::new();
    let mut pad: Vec<char> = Vec::new();
    let mut x: usize = 0;
    while x < w
        invariant
            x <= w,
            pad@ == Seq::new(x as nat, |i: int| '.'),
        decreases w - x,
    {
        pad.push('.');
        assert(pad@ =~= Seq::new((x + 1) as nat, |i: int| '.'));
        x = x + 1;
    }
    let pad2 = pad.clone();
    e.push(pad);
    let mut j: usize = 0;
    while j < mid.len()
        invariant
            j <= mid@.len(),
            rows(mid@) == body,
            rows(e@) == seq![Seq::new(w as nat, |i: int| '.')] + body.take(j as int),
        decreases mid@.len() - j,
    {
        let ghost old_rows = rows(e@);
        let r = mid[j].clone();
        e.push(r);
        assert(rows(mid@)[j as int] == mid@[j as int]@);
        assert(rows(e@) =~= old_rows.push(body[j as int]));
        assert(body.take(j + 1) =~= body.take(j as int).push(body[j as int]));
        j = j + 1;
    }
    let ghost old_rows = rows(e@);
    e.push(pad2);
    assert(body.take(j as int) =~= body);
    assert(rows(e@) =~= old_rows.push(Seq::new(w as nat, |i: int| '.')));
    assert(rows(e@) =~= engine_spec(lv));
    e
}

/// The length of the run of numeric characters from `i` (see `num_len`);
/// every character of it is numeric.
fn numeric_run(row: &Vec<char>, i: usize) -> (n: usize)
    requires
        i <= row@.len(),
    ensures
        n == num_len(row@, i as int),
        i + n <= row@.len(),
        forall|k: int| i <= k < i + n ==> char_numeric(#[trigger] row@[k]),
        forall|k: int| i <= k < i + n ==> (row@[k] as u32) < 128 ==> is_digit(#[trigger] row@[k]),
{
    let mut j: usize = i;
    while j < row.len() && is_numeric(row[j])
        invariant
            i <= j <= row@.len(),
            num_len(row@, i as int) == (j - i) + num_len(row@, j as int),
            forall|k: int| i <= k < j ==> char_numeric(#[trigger] row@[k]),
            forall|k: int| i <= k < j ==> (row@[k] as u32) < 128 ==> is_digit(#[trigger] row@[k]),
        decreases row@.len() - j,
    {
        j = j + 1;
    }
    j - i
}

/// Whether the number at column `i` of row `y` has a symbol around it (see
/// `touches_symbol`).
fn symbol_near(e: &Vec<Vec<char>>, y: usize, i: usize, len: usize) -> (r: Option<bool>)
    requires
        y < e@.len(),
        i + len <= e@[y as int]@.len(),
    ensures
        r == touches_symbol(rows(e@), y as int, i as int, len as int),
{
    let ghost ev = rows(e@);
    let row_len = e[y].len();
    assert(ev[y as int] == e@[y as int]@);
    let xmin: usize = if i >= 1 { i - 1 } else { 0 };
    let xmax: usize = if row_len - i - len < 1 { row_len } else { i + len + 1 };
    let ymin: usize = if y >= 1 { y - 1 } else { 0 };
    let ymax: usize = if e.len() - y < 2 { e.len() } else { y + 2 };
    let mut yc: usize = ymin;
    let mut xc: usize = xmin;
    while yc < ymax
        invariant
            ev == rows(e@),
            ymax <= e@.len(),
            ymin <= yc <= ymax,
            xmin <= xc <= xmax || (xc == xmin),
            xmin <= xmax || xc == xmin,
            touches_symbol(ev, y as int, i as int, len as int) == scan(ev, yc as int, xc as int, ymax as int, xmin as int, xmax as int),
            touches_symbol(ev, y as int, i as int, len as int) == scan(ev, ymin as int, xmin as int, ymax as int, xmin as int, xmax as int),
        decreases ymax - yc, xmax - xc,
    {
        if xc >= xmax {
            yc = yc + 1;
            xc = xmin;
        } else {
            let r = &e[yc];
            assert(ev[yc as int] == r@);
            if xc >= r.len() {
                return None;
            }
            let c = r[xc];
            if !is_numeric(c) && c != '.' {
                return Some(true);
            }
            xc = xc + 1;
        }
    }
    Some(false)
}

/// `a` plus the value of `o`, where it has one.
pub open spec fn opt_add(o: Option<int>, a: int) -> Option<int> {
    match o {
        Some(r) => Some(r + a),
        None => None,
    }
}

proof fn lemma_row_sum_nonneg(e: Seq<Seq<char>>, y: int, i: int)
    ensures
        row_sum(e, y, i) matches Some(r) ==> r >= 0,
    decreases e[y].len() - i,
{
    if 0 <= i < e[y].len() {
        if char_numeric(e[y][i]) {
            let len = num_len(e[y], i);
            lemma_num_len(e[y], i);
            if len > 0 {
                lemma_row_sum_nonneg(e, y, i + len);
                let s = e[y].subrange(i, i + len);
                if s.len() > 0 && all_digits(s) {
                    lemma_digits_value_nonneg(s);
                }
            }
        } else {
            lemma_row_sum_nonneg(e, y, i + 1);
        }
    }
}

proof fn lemma_rows_sum_mono(e: Seq<Seq<char>>, y: int, z: int)
    requires
        0 <= y <= z,
        rows_sum(e, z) is Some,
    ensures
        rows_sum(e, y) is Some,
        rows_sum(e, y)->0 <= rows_sum(e, z)->0,
        rows_sum(e, y)->0 >= 0,
    decreases z,
{
    if z > 0 {
        lemma_row_sum_nonneg(e, z - 1, 0);
        if y < z {
            lemma_rows_sum_mono(e, y, z - 1);
        } else {
            lemma_rows_sum_mono(e, z - 1, z - 1);
        }
    }
}

proof fn lemma_run_digits(s: Seq<char>)
    requires
        s.len() > 0,
        forall|k: int| 0 <= k < s.len() ==> (s[k] as u32) < 128 ==> is_digit(#[trigger] s[k]),
    ensures
        i64_literal(s) == (if all_digits(s) && digits_value(s) <= i64::MAX {
            Some(digits_value(s) as i64)
        } else {
            None::<i64>
        }),
        all_digits(s) ==> digits_value(s) >= 0,
{
    assert(s[0] != '-' && s[0] != '+') by {
        assert((s[0] as u32) < 128 ==> is_digit(s[0]));
    }
    if all_digits(s) {
        lemma_digits_value_nonneg(s);
    }
}

/// The value of the numeric run `s` as `str::parse::<i32>` reads it (see
/// `i32_value`).
fn run_value(row: &Vec<char>, i: usize, len: usize) -> (r: Option<i32>)
    requires
        len > 0,
        i + len <= row@.len(),
        forall|k: int| i <= k < i + len ==> (row@[k] as u32) < 128 ==> is_digit(#[trigger] row@[k]),
    ensures
        match r {
            Some(v) => i32_value(row@.subrange(i as int, (i + len) as int)) == Some(v as int),
            None => i32_value(row@.subrange(i as int, (i + len) as int)) is None,
        },
{
    let n = row.len();
    let end = i + len;
    let mut s: Vec<char> = Vec::new();
    let mut k: usize = i;
    while k < end
        invariant
            end == i + len,
            i <= k <= i + len <= row@.len(),
            s@ == row@.subrange(i as int, k as int),
        decreases end - k,
    {
        s.push(row[k]);
        k = k + 1;
    }
    proof {
        assert forall|t: int| 0 <= t < s@.len() && (s@[t] as u32) < 128 implies is_digit(#[trigger] s@[t]) by {
            assert(s@[t] == row@[i + t]);
        }
        lemma_run_digits(s@);
    }
    match parse_i64(s.as_slice()) {
        Some(v) => {
            if v <= 2147483647 {
                Some(v as i32)
            } else {
                None
            }
        },
        None => None,
    }
}

/// The sum of the part numbers of row `y` (see `row_sum`); `None` where
/// that fails or exceeds `i64::MAX`.
fn row_total(e: &Vec<Vec<char>>, y: usize) -> (r: Option<i64>)
    requires
        y < e@.len(),
    ensures
        match r {
            Some(v) => row_sum(rows(e@), y as int, 0) == Some(v as int),
            None => row_sum(rows(e@), y as int, 0) is None || row_sum(rows(e@), y as int, 0)->0 > i64::MAX,
        },
{
    let ghost ev = rows(e@);
    let row = &e[y];
    assert(ev[y as int] == row@);
    let n = row.len();
    let mut acc: i64 = 0;
    let mut i: usize = 0;
    while i < n
        invariant
            ev == rows(e@),
            y < e@.len(),
            ev[y as int] == row@,
            n == row@.len(),
            i <= n,
            acc >= 0,
            row_sum(ev, y as int, 0) == opt_add(row_sum(ev, y as int, i as int), acc as int),
        decreases n - i,
    {
        if is_numeric(row[i]) {
            let len = numeric_run(row, i);
            proof {
                lemma_num_len(row@, i as int);
                lemma_num_len(row@, i + 1);
                assert(num_len(row@, i as int) == 1 + num_len(row@, i + 1));
            }
            let v = run_value(row, i, len);
            let hit = symbol_near(e, y, i, len);
            match (v, hit) {
                (Some(v), Some(hit)) => {
                    proof {
                        lemma_row_sum_nonneg(ev, y as int, (i + len) as int);
                        lemma_digits_value_nonneg(row@.subrange(i as int, (i + len) as int));
                    }
                    if hit {
                        match acc.checked_add(v as i64) {
                            Some(a) => {
                                acc = a;
                            },
                            None => {
                                return None;
                            },
                        }
                    }
                    i = i + len;
                },
                _ => {
                    return None;
                },
            }
        } else {
            i = i + 1;
        }
    }
    Some(acc)
}

/// The sum of all part numbers of the schematic of `data` (see
/// `part_sum_spec`); `None` where there is no line, a number does not fit in
/// an `i32`, a search runs past the end of a row, or the sum exceeds
/// `i64::MAX`.
pub fn part_sum(data: &str) -> (r: Option<i64>)
    ensures
        match r {
            Some(v) => part_sum_spec(lines_spec(data@)) == Some(v as int),
            None => part_sum_spec(lines_spec(data@)) is None || part_sum_spec(lines_spec(data@))->0 > i64::MAX,
        },
{
    let chars = chars_of(data);
    let ls = lines(chars.as_slice());
    if ls.len() == 0 {
        return None;
    }
    let e = build_engine(&ls);
    let ghost ev = rows(e@);
    let ghost total_rows = (ls@.len() + 2) as int;
    assert(ev.len() == total_rows);
    assert(part_sum_spec(lines_spec(data@)) == rows_sum(ev, total_rows));
    let mut total: i64 = 0;
    let mut y: usize = 0;
    while y < e.len()
        invariant
            ev == rows(e@),
            ev.len() == total_rows,
            part_sum_spec(lines_spec(data@)) == rows_sum(ev, total_rows),
            y <= e@.len(),
            rows_sum(ev, y as int) == Some(total as int),
        decreases e@.len() - y,
    {
        match row_total(&e, y) {
            Some(r) => {
                proof {
                    lemma_row_sum_nonneg(ev, y as int, 0);
                }
                match total.checked_add(r) {
                    Some(t) => {
                        total = t;
                    },
                    None => {
                        proof {
                            if rows_sum(ev, total_rows) is Some {
                                lemma_rows_sum_mono(ev, y + 1, total_rows);
                            }
                        }
                        return None;
                    },
                }
            },
            None => {
                proof {
                    lemma_row_sum_nonneg(ev, y as int, 0);
                    lemma_rows_sum_mono(ev, y as int, y as int);
                    if rows_sum(ev, total_rows) is Some {
                        lemma_rows_sum_mono(ev, y + 1, total_rows);
                    }
                }
                return None;
            },
        }
        y = y + 1;
    }
    Some(total)
}

/// How many numbers touch a star, from which of the eight cells around it
/// (`a b c` above, `d` and `e` beside, `f g h` below) are numeric: a row of
/// three counts one number where the middle cell is numeric or where two
/// neighbouring cells are, two where only both corners are, one where a
/// single corner is.
pub open spec fn around_count(a: bool, b: bool, c: bool, d: bool, e: bool, f: bool, g: bool, h: bool) -> int {
    let top = if (a && b && c) || (a && b) || (b && c) {
        1int
    } else if a && c {
        2
    } else if a || c {
        1
    } else {
        0
    };
    let bottom = if (f && g && h) || (f && g) || (g && h) {
        1int
    } else if f && h {
        2
    } else if f || h {
        1
    } else {
        0
    };
    top + (if d { 1int } else { 0 }) + (if e { 1int } else { 0 }) + bottom
}

/// Whether the star at column `x` of row `y` of the bordered schematic is a
/// gear; `None` where a row above or below is too short to look at.
pub open spec fn is_gear(e: Seq<Seq<char>>, y: int, x: int) -> Option<bool> {
    if x + 1 >= e[y - 1].len() || x + 1 >= e[y + 1].len() {
        None
    } else {
        Some(around_count(
            char_numeric(e[y - 1][x - 1]),
            char_numeric(e[y - 1][x]),
            char_numeric(e[y - 1][x + 1]),
            char_numeric(e[y][x - 1]),
            char_numeric(e[y][x + 1]),
            char_numeric(e[y + 1][x - 1]),
            char_numeric(e[y + 1][x]),
            char_numeric(e[y + 1][x + 1]),
        ) == 2)
    }
}

/// The gears of row `y` at columns from `x` up to the last but one, as
/// positions in the schematic without its border.
pub open spec fn row_gears(e: Seq<Seq<char>>, y: int, x: int) -> Option<Seq<(int, int)>>
    decreases e[y].len() - x,
{
    if x < 1 || x + 1 >= e[y].len() {
        Some(Seq::empty())
    } else if e[y][x] != '*' {
        row_gears(e, y, x + 1)
    } else {
        match (is_gear(e, y, x), row_gears(e, y, x + 1)) {
            (Some(g), Some(rest)) => Some(if g {
                seq![(x - 1, y - 1)] + rest
            } else {
                rest
            }),
            _ => None,
        }
    }
}

/// The gears of the inner rows before row `y`, row by row.
pub open spec fn gears_upto(e: Seq<Seq<char>>, y: int) -> Option<Seq<(int, int)>>
    decreases y,
{
    if y <= 1 {
        Some(Seq::empty())
    } else {
        match (gears_upto(e, y - 1), row_gears(e, y - 1, 1)) {
            (Some(a), Some(b)) => Some(a + b),
            _ => None,
        }
    }
}

/// The gears of the schematic of the lines.
pub open spec fn gears_spec(ls: Seq<Seq<char>>) -> Option<Seq<(int, int)>> {
    if ls.len() == 0 {
        None
    } else {
        gears_upto(engine_spec(ls), (ls.len() + 1) as int)
    }
}

proof fn lemma_gears_none(e: Seq<Seq<char>>, y: int, z: int)
    requires
        y <= z,
        gears_upto(e, y) is None,
    ensures
        gears_upto(e, z) is None,
    decreases z - y,
{
    if y < z {
        lemma_gears_none(e, y + 1, z);
    }
}

/// The positions as integers.
pub open spec fn positions_int(v: Seq<(usize, usize)>) -> Seq<(int, int)> {
    v.map_values(|p: (usize, usize)| (p.0 as int, p.1 as int))
}

/// Whether the star at column `x` of row `y` is a gear (see `is_gear`).
fn check_star(e: &Vec<Vec<char>>, y: usize, x: usize) -> (r: Option<bool>)
    requires
        1 <= y,
        y + 1 < e@.len(),
        1 <= x,
        x + 1 < e@[y as int]@.len(),
    ensures
        r == is_gear(rows(e@), y as int, x as int),
{
    let ghost ev = rows(e@);
    let ne = e.len();
    let up = &e[y - 1];
    let mid = &e[y];
    let ml = mid.len();
    let down = &e[y + 1];
    assert(ev[y - 1] == up@ && ev[y as int] == mid@ && ev[y + 1] == down@);
    if x + 1 >= up.len() || x + 1 >= down.len() {
        return None;
    }
    let a = is_numeric(up[x - 1]);
    let b = is_numeric(up[x]);
    let c = is_numeric(up[x + 1]);
    let d = is_numeric(mid[x - 1]);
    let ee = is_numeric(mid[x + 1]);
    let f = is_numeric(down[x - 1]);
    let g = is_numeric(down[x]);
    let h = is_numeric(down[x + 1]);
    let mut num_values: u32 = 0;
    if (a && b && c) || (a && b) || (b && c) {
        num_values += 1;
    } else if a && c {
        num_values += 2;
    } else if a || c {
        num_values += 1;
    }
    if d {
        num_values += 1;
    }
    if ee {
        num_values += 1;
    }
    if (f && g && h) || (f && g) || (g && h) {
        num_values += 1;
    } else if f && h {
        num_values += 2;
    } else if f || h {
        num_values += 1;
    }
    Some(num_values == 2)
}

/// The gears of the schematic of `data`, as positions (column, row) in the
/// schematic without its border, row by row (see `gears_spec`); `None` where
/// there is no line or a row next to a star is too short to look at.
pub fn gear_stars(data: &str) -> (r: Option<Vec<(usize, usize)>>)
    ensures
        match r {
            Some(v) => gears_spec(lines_spec(data@)) == Some(positions_int(v@)),
            None => gears_spec(lines_spec(data@)) is None,
        },
{
    let chars = chars_of(data);
    let ls = lines(chars.as_slice());
    if ls.len() == 0 {
        return None;
    }
    let e = build_engine(&ls);
    let ghost ev = rows(e@);
    let ne = e.len();
    assert(ev.len() == ls@.len() + 2);
    let mut out: Vec<(usize, usize)> = Vec::new();
    let mut y: usize = 1;
    while y + 1 < ne
        invariant
            ev == rows(e@),
            ne == ev.len(),
            ne >= 3,
            1 <= y < ne,
            y + 1 <= ne,
            gears_spec(lines_spec(data@)) == gears_upto(ev, (ne - 1) as int),
            gears_upto(ev, y as int) == Some(positions_int(out@)),
        decreases ne - y,
    {
        let row = &e[y];
        assert(ev[y as int] == row@);
        let rl = row.len();
        let ghost before = positions_int(out@);
        let mut x: usize = 1;
        while x < rl && x + 1 < rl
            invariant
                ev == rows(e@),
                ne == ev.len(),
                1 <= y,
                y + 1 < ne,
                ev[y as int] == row@,
                rl == row@.len(),
                gears_spec(lines_spec(data@)) == gears_upto(ev, (ne - 1) as int),
                1 <= x,
                x <= rl || rl < 2,
                row_gears(ev, y as int, 1) matches Some(all) ==> row_gears(ev, y as int, x as int) matches Some(rest)
                    && all == positions_int(out@).skip(before.len() as int) + rest,
                row_gears(ev, y as int, 1) is Some <==> row_gears(ev, y as int, x as int) is Some,
                positions_int(out@).take(before.len() as int) == before,
                positions_int(out@).len() >= before.len(),
            decreases rl - x,
        {
            if row[x] == '*' {
                match check_star(&e, y, x) {
                    Some(g) => {
                        if g {
                            let ghost old_out = positions_int(out@);
                            out.push((x - 1, y - 1));
                            assert(positions_int(out@) =~= old_out.push(((x - 1) as int, (y - 1) as int)));
                            assert(positions_int(out@).take(before.len() as int) =~= old_out.take(before.len() as int));
                            assert(positions_int(out@).skip(before.len() as int) =~= old_out.skip(before.len() as int).push(((x - 1) as int, (y - 1) as int)));
                        }
                    },
                    None => {
                        proof {
                            lemma_gears_none(ev, y + 1, (ne - 1) as int);
                        }
                        return None;
                    },
                }
            }
            x = x + 1;
        }
        assert(row_gears(ev, y as int, x as int) == Some(Seq::<(int, int)>::empty()));
        assert(positions_int(out@) =~= before + positions_int(out@).skip(before.len() as int));
        y = y + 1;
    }
    Some(out)
}

} // verus!
