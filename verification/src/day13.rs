//! Point of incidence: patterns of ash and rocks, each mirrored between two
//! rows or two columns, with exactly a given number of smudges.
use vstd::prelude::*;
use crate::text::{chars_of, lines, lines_spec, rows};
use crate::day04::seq_sum;

verus! {

/// A pattern, as rows of rocks, and the same pattern with rows and columns
/// exchanged.
#[derive(Debug, Clone, PartialEq, Eq)]
pub struct Pattern {
    pub normal: Vec<Vec<bool>>,
    pub transposed: Vec<Vec<bool>>,
}

/// The rows of a pattern as plain values.
pub open spec fn bool_rows(v: Seq<Vec<bool>>) -> Seq<Seq<bool>> {
    v.map_values(|r: Vec<bool>| r@)
}

/// The positions among the first `k` where two rows differ.
pub open spec fn diff_count(a: Seq<bool>, b: Seq<bool>, k: int) -> nat
    decreases k,
{
    if k <= 0 {
        0
    } else {
        diff_count(a, b, k - 1) + if a[k - 1] != b[k - 1] {
            1nat
        } else {
            0nat
        }
    }
}

/// The positions where two rows of one length differ.
pub open spec fn row_diff(a: Seq<bool>, b: Seq<bool>) -> nat {
    diff_count(a, b, a.len() as int)
}

proof fn lemma_diff_bound(a: Seq<bool>, b: Seq<bool>, k: int)
    requires
        0 <= k,
    ensures
        diff_count(a, b, k) <= k,
    decreases k,
{
    if k > 0 {
        lemma_diff_bound(a, b, k - 1);
    }
}

/// How many positions of two rows of one length differ.
pub fn cntdiff(a: &Vec<bool>, b: &Vec<bool>) -> (r: usize)
    requires
        a@.len() == b@.len(),
    ensures
        r == row_diff(a@, b@),
{
    let mut result: usize = 0;
    let mut i: usize = 0;
    while i < a.len()
        invariant
            i <= a@.len(),
            a@.len() == b@.len(),
            result == diff_count(a@, b@, i as int),
            result <= i,
        decreases a@.len() - i,
    {
        if a[i] != b[i] {
            result = result + 1;
        }
        i = i + 1;
    }
    result
}

/// The pattern with rows and columns exchanged: as many rows as the first
/// row has positions.
pub open spec fn transpose(p: Seq<Seq<bool>>) -> Seq<Seq<bool>> {
    Seq::new(p[0].len(), |j: int| Seq::new(p.len(), |i: int| p[i][j]))
}

/// Every row of the pattern is as long as the first.
pub open spec fn rows_even(p: Seq<Seq<bool>>) -> bool {
    forall|i: int| 0 <= i < p.len() ==> (#[trigger] p[i]).len() == p[0].len()
}

/// The differences summed over the rows mirrored about the line before row
/// `i`: rows `i + r` and `i - r - 1` for the first `k` values of `r`.
pub open spec fn mirror_diffs(p: Seq<Seq<bool>>, i: int, k: int) -> nat
    decreases k,
{
    if k <= 0 {
        0
    } else {
        mirror_diffs(p, i, k - 1) + row_diff(p[i + k - 1], p[i - k])
    }
}

pub open spec fn min(a: int, b: int) -> int {
    if a <= b {
        a
    } else {
        b
    }
}

/// The pattern mirrors about the line before row `i` with exactly `diffok`
/// differences, the two rows next to the line differing in at most `diffok`.
pub open spec fn mirrors_at(p: Seq<Seq<bool>>, i: int, diffok: int) -> bool {
    row_diff(p[i], p[i - 1]) <= diffok && mirror_diffs(p, i, min(i, p.len() - i)) == diffok
}

/// The first line, before row `i` or later, about which the pattern mirrors.
pub open spec fn first_mirror(p: Seq<Seq<bool>>, i: int, diffok: int) -> Option<int>
    decreases p.len() - i,
{
    if i < 1 || i >= p.len() {
        None
    } else if mirrors_at(p, i, diffok) {
        Some(i)
    } else {
        first_mirror(p, i + 1, diffok)
    }
}

impl Pattern {
    /// The pattern of these rows, with its transpose; every row must reach
    /// as far as the first.
    pub fn from_normal(normal: Vec<Vec<bool>>) -> (p: Pattern)
        requires
            normal@.len() > 0,
            forall|i: int| 0 <= i < normal@.len() ==> (#[trigger] normal@[i])@.len() >= normal@[0]@.len(),
        ensures
            p.normal@ == normal@,
            bool_rows(p.transposed@) == transpose(bool_rows(normal@)),
    {
        let h = normal.len();
        let w = normal[0].len();
        let ghost n = bool_rows(normal@);
        let mut transposed: Vec<Vec<bool>> = Vec::new();
        let mut j: usize = 0;
        while j < w
            invariant
                j <= w,
                h == normal@.len(),
                h > 0,
                w == normal@[0]@.len(),
                n == bool_rows(normal@),
                forall|i: int| 0 <= i < normal@.len() ==> (#[trigger] normal@[i])@.len() >= normal@[0]@.len(),
                bool_rows(transposed@) == transpose(n).take(j as int),
            decreases w - j,
        {
            let mut col: Vec<bool> = Vec::new();
            let mut i: usize = 0;
            while i < h
                invariant
                    i <= h,
                    j < w,
                    h == normal@.len(),
                    h > 0,
                    w == normal@[0]@.len(),
                    n == bool_rows(normal@),
                    forall|t: int| 0 <= t < normal@.len() ==> (#[trigger] normal@[t])@.len() >= normal@[0]@.len(),
                    col@ == Seq::new(i as nat, |t: int| n[t][j as int]),
                decreases h - i,
            {
                assert(normal@[i as int]@.len() >= w);
                assert(n[i as int] == normal@[i as int]@);
                col.push(normal[i][j]);
                assert(col@ =~= Seq::new((i + 1) as nat, |t: int| n[t][j as int]));
                i = i + 1;
            }
            let ghost old_t = transposed@;
            transposed.push(col);
            assert(bool_rows(transposed@) =~= bool_rows(old_t).push(col@));
            assert(n[0] == normal@[0]@);
            assert(transpose(n)[j as int] =~= col@);
            assert(bool_rows(transposed@) =~= transpose(n).take(j + 1));
            j = j + 1;
        }
        assert(n[0] == normal@[0]@);
        assert(transpose(n).take(j as int) =~= transpose(n));
        Pattern { normal, transposed }
    }

    /// The first line between rows about which `p` mirrors with exactly
    /// `diffok` differences (see `first_mirror`), as the number of rows
    /// above it.
    pub fn find_vert_reflection_inner(p: &Vec<Vec<bool>>, diffok: usize) -> (r: Option<usize>)
        requires
            rows_even(bool_rows(p@)),
            p@.len() == 0 || p@.len() * p@[0]@.len() <= usize::MAX,
        ensures
            match r {
                Some(i) => first_mirror(bool_rows(p@), 1, diffok as int) == Some(i as int),
                None => first_mirror(bool_rows(p@), 1, diffok as int) is None,
            },
    {
        let ghost q = bool_rows(p@);
        let n = p.len();
        if n == 0 {
            return None;
        }
        let w = p[0].len();
        assert(q[0] == p@[0]@);
        let mut i: usize = 1;
        while i < n
            invariant
                1 <= i <= n,
                n == q.len(),
                q == bool_rows(p@),
                w == q[0].len(),
                rows_even(q),
                n * w <= usize::MAX,
                first_mirror(q, 1, diffok as int) == first_mirror(q, i as int, diffok as int),
            decreases n - i,
        {
            assert(q[i as int] == p@[i as int]@ && q[i - 1] == p@[i - 1]@);
            assert(q[i as int].len() == w && q[i - 1].len() == w);
            if cntdiff(&p[i], &p[i - 1]) <= diffok {
                let top_lines = i;
                let bot_lines = n - i;
                let relevant = if top_lines < bot_lines { top_lines } else { bot_lines };
                let mut diffs: usize = 0;
                let mut r: usize = 0;
                while r < relevant
                    invariant
                        r <= relevant,
                        relevant == min(i as int, n - i),
                        1 <= i < n,
                        n == q.len(),
                        q == bool_rows(p@),
                        w == q[0].len(),
                        rows_even(q),
                        n * w <= usize::MAX,
                        diffs == mirror_diffs(q, i as int, r as int),
                        diffs <= r * w,
                    decreases relevant - r,
                {
                    assert(q[i + r] == p@[i + r]@ && q[i - r - 1] == p@[i - r - 1]@);
                    assert(q[i + r].len() == w && q[i - r - 1].len() == w);
                    let d = cntdiff(&p[i + r], &p[i - r - 1]);
                    proof {
                        lemma_diff_bound(q[i + r], q[i - r - 1], w as int);
                        assert((r + 1) * w <= n * w) by (nonlinear_arith)
                            requires
                                r + 1 <= n,
                        ;
                        assert((r + 1) * w == r * w + w) by (nonlinear_arith);
                    }
                    diffs = diffs + d;
                    r = r + 1;
                }
                if diffs == diffok {
                    return Some(top_lines);
                }
            }
            i = i + 1;
        }
        None
    }

    /// The first mirror line between rows (see `find_vert_reflection_inner`).
    pub fn find_reflection(&self, diffok: usize) -> (r: Option<usize>)
        requires
            rows_even(bool_rows(self.normal@)),
            self.normal@.len() == 0 || self.normal@.len() * self.normal@[0]@.len() <= usize::MAX,
        ensures
            match r {
                Some(i) => first_mirror(bool_rows(self.normal@), 1, diffok as int) == Some(i as int),
                None => first_mirror(bool_rows(self.normal@), 1, diffok as int) is None,
            },
    {
        Pattern::find_vert_reflection_inner(&self.normal, diffok)
    }

    /// The first mirror line between columns (see `find_vert_reflection_inner`).
    pub fn find_transposed_reflection(&self, diffok: usize) -> (r: Option<usize>)
        requires
            rows_even(bool_rows(self.transposed@)),
            self.transposed@.len() == 0 || self.transposed@.len() * self.transposed@[0]@.len() <= usize::MAX,
        ensures
            match r {
                Some(i) => first_mirror(bool_rows(self.transposed@), 1, diffok as int) == Some(i as int),
                None => first_mirror(bool_rows(self.transposed@), 1, diffok as int) is None,
            },
    {
        Pattern::find_vert_reflection_inner(&self.transposed, diffok)
    }
}


/// The rows of rocks of one line: `true` where it holds `'#'`.
pub open spec fn rocks_of(line: Seq<char>) -> Seq<bool> {
    line.map_values(|c: char| c == '#')
}

/// The rows of rocks of the lines of one block.
pub open spec fn block_rows(b: Seq<Seq<char>>) -> Seq<Seq<bool>> {
    b.map_values(|l: Seq<char>| rocks_of(l))
}

/// The blocks closed by the first `k` lines, and the lines of the block
/// still open after them: an empty line closes the open block.
pub open spec fn block_state(ls: Seq<Seq<char>>, k: int) -> (Seq<Seq<Seq<char>>>, Seq<Seq<char>>)
    decreases k,
{
    if k <= 0 {
        (Seq::empty(), Seq::empty())
    } else {
        let (done, cur) = block_state(ls, k - 1);
        if ls[k - 1].len() == 0 {
            (done.push(cur), Seq::empty())
        } else {
            (done, cur.push(ls[k - 1]))
        }
    }
}

/// The blocks of lines: those closed by an empty line, and the last one if
/// it holds a line.
pub open spec fn blocks_of(ls: Seq<Seq<char>>) -> Seq<Seq<Seq<char>>> {
    let (done, cur) = block_state(ls, ls.len() as int);
    if cur.len() > 0 {
        done.push(cur)
    } else {
        done
    }
}

/// A pattern can be built from these rows: there is one, and none is
/// shorter than the first.
pub open spec fn pattern_ok(p: Seq<Seq<bool>>) -> bool {
    p.len() > 0 && forall|i: int| 0 <= i < p.len() ==> (#[trigger] p[i]).len() >= p[0].len()
}

/// Every block of the lines makes a pattern.
pub open spec fn patterns_ok(ls: Seq<Seq<char>>) -> bool {
    forall|k: int| 0 <= k < blocks_of(ls).len() ==> pattern_ok(#[trigger] block_rows(blocks_of(ls)[k]))
}

/// The blocks closed by the first `k` lines come first among those closed
/// by the first `j`.
proof fn lemma_block_state_prefix(ls: Seq<Seq<char>>, k: int, j: int)
    requires
        0 <= k <= j <= ls.len(),
    ensures
        block_state(ls, k).0.len() <= block_state(ls, j).0.len(),
        forall|t: int| 0 <= t < block_state(ls, k).0.len() ==> #[trigger] block_state(ls, j).0[t] == block_state(ls, k).0[t],
    decreases j - k,
{
    if k < j {
        lemma_block_state_prefix(ls, k, j - 1);
    }
}

/// The blocks closed by the first `k` lines come first among all blocks.
proof fn lemma_blocks_prefix(ls: Seq<Seq<char>>, k: int)
    requires
        0 <= k <= ls.len(),
    ensures
        block_state(ls, k).0.len() <= blocks_of(ls).len(),
        forall|t: int| 0 <= t < block_state(ls, k).0.len() ==> #[trigger] blocks_of(ls)[t] == block_state(ls, k).0[t],
{
    lemma_block_state_prefix(ls, k, ls.len() as int);
}

/// Pattern `k` was built from block `k`, which makes a pattern.
pub open spec fn built_at(ps: Seq<Pattern>, bs: Seq<Seq<Seq<char>>>, k: int) -> bool {
    &&& pattern_ok(block_rows(bs[k]))
    &&& bool_rows(ps[k].normal@) == block_rows(bs[k])
    &&& bool_rows(ps[k].transposed@) == transpose(block_rows(bs[k]))
}

/// The patterns were built, one by one, from the blocks.
pub open spec fn built_from(ps: Seq<Pattern>, bs: Seq<Seq<Seq<char>>>) -> bool {
    ps.len() == bs.len() && forall|k: int| 0 <= k < ps.len() ==> #[trigger] built_at(ps, bs, k)
}

/// The rocks of one line (see `rocks_of`).
fn rocks_row(line: &Vec<char>) -> (row: Vec<bool>)
    ensures
        row@ == rocks_of(line@),
{
    let mut row: Vec<bool> = Vec::new();
    let mut x: usize = 0;
    while x < line.len()
        invariant
            x <= line@.len(),
            row@ == rocks_of(line@.take(x as int)),
        decreases line@.len() - x,
    {
        row.push(line[x] == '#');
        assert(rocks_of(line@.take(x + 1)) =~= rocks_of(line@.take(x as int)).push(line@[x as int] == '#'));
        x = x + 1;
    }
    assert(line@.take(x as int) =~= line@);
    row
}

/// Whether these rows make a pattern (see `pattern_ok`).
fn rows_make_pattern(rows: &Vec<Vec<bool>>) -> (b: bool)
    ensures
        b == pattern_ok(bool_rows(rows@)),
        b ==> rows@.len() > 0 && forall|i: int| 0 <= i < rows@.len() ==> (#[trigger] rows@[i])@.len() >= rows@[0]@.len(),
{
    if rows.len() == 0 {
        return false;
    }
    let w = rows[0].len();
    let mut i: usize = 0;
    while i < rows.len()
        invariant
            0 < rows@.len(),
            i <= rows@.len(),
            w == rows@[0]@.len(),
            forall|t: int| 0 <= t < i ==> (#[trigger] rows@[t])@.len() >= w,
        decreases rows@.len() - i,
    {
        if rows[i].len() < w {
            assert(bool_rows(rows@)[i as int] == rows@[i as int]@);
            return false;
        }
        i = i + 1;
    }
    assert forall|t: int| 0 <= t < bool_rows(rows@).len() implies (#[trigger] bool_rows(rows@)[t]).len()
        >= bool_rows(rows@)[0].len() by {
        assert(bool_rows(rows@)[t] == rows@[t]@);
    }
    true
}

/// The patterns of the blocks of lines of `data`, blocks being closed by
/// empty lines; `None` where a block makes no pattern (see `patterns_ok`).
pub fn parse_patterns(data: &str) -> (r: Option<Vec<Pattern>>)
    ensures
        match r {
            Some(ps) => patterns_ok(lines_spec(data@)) && built_from(ps@, blocks_of(lines_spec(data@))),
            None => !patterns_ok(lines_spec(data@)),
        },
{
    let chars = chars_of(data);
    let ls = lines(chars.as_slice());
    let ghost lv = rows(ls@);
    let mut result: Vec<Pattern> = Vec::new();
    let mut cur: Vec<Vec<bool>> = Vec::new();
    let mut y: usize = 0;
    while y < ls.len()
        invariant
            y <= ls@.len(),
            lv == rows(ls@),
            lv == lines_spec(data@),
            built_from(result@, block_state(lv, y as int).0),
            bool_rows(cur@) == block_rows(block_state(lv, y as int).1),
        decreases ls@.len() - y,
    {
        let line = &ls[y];
        assert(lv[y as int] == line@);
        if line.len() == 0 {
            if !rows_make_pattern(&cur) {
                proof {
                    lemma_blocks_prefix(lv, y + 1);
                    assert(blocks_of(lv)[result@.len() as int] == block_state(lv, y as int).1);
                }
                return None;
            }
            let ghost old_res = result@;
            let ghost st = block_state(lv, y as int);
            let p = Pattern::from_normal(cur);
            result.push(p);
            cur = Vec::new();
            assert(bool_rows(cur@) =~= block_rows(Seq::<Seq<char>>::empty()));
            let ghost next = block_state(lv, y + 1).0;
            assert(next == st.0.push(st.1));
            assert forall|k: int| 0 <= k < result@.len() implies #[trigger] built_at(result@, next, k) by {
                if k < old_res.len() {
                    assert(built_at(old_res, st.0, k));
                }
            }
        } else {
            let row = rocks_row(line);
            let ghost old_cur = cur@;
            cur.push(row);
            assert(bool_rows(cur@) =~= bool_rows(old_cur).push(rocks_of(line@)));
            assert(block_rows(block_state(lv, y as int).1.push(lv[y as int])) =~= block_rows(block_state(lv, y as int).1).push(rocks_of(lv[y as int])));
            assert(block_state(lv, y + 1).0 == block_state(lv, y as int).0);
            assert(block_state(lv, y + 1).1 == block_state(lv, y as int).1.push(lv[y as int]));
        }
        y = y + 1;
    }
    proof {
        lemma_blocks_prefix(lv, lv.len() as int);
    }
    let ghost st = block_state(lv, lv.len() as int);
    assert(y == lv.len());
    if cur.len() > 0 {
        assert(blocks_of(lv) == st.0.push(st.1));
        if !rows_make_pattern(&cur) {
            assert(blocks_of(lv)[result@.len() as int] == st.1);
            return None;
        }
        let ghost old_res = result@;
        let p = Pattern::from_normal(cur);
        result.push(p);
        assert forall|k: int| 0 <= k < result@.len() implies #[trigger] built_at(result@, blocks_of(lv), k) by {
            if k < old_res.len() {
                assert(built_at(old_res, st.0, k));
            }
        }
    } else {
        assert(blocks_of(lv) == st.0);
    }
    assert(built_from(result@, blocks_of(lv)));
    assert forall|k: int| 0 <= k < blocks_of(lv).len() implies pattern_ok(#[trigger] block_rows(blocks_of(lv)[k])) by {
        assert(built_at(result@, blocks_of(lv), k));
    }
    Some(result)
}


/// The summary of one pattern: a hundred times the rows above its mirror
/// line, or the columns left of it, taking first a line with exactly one
/// smudge, between rows and then between columns, and then a line with none.
pub open spec fn pattern_score(p: Seq<Seq<bool>>) -> Option<int> {
    let t = transpose(p);
    match first_mirror(p, 1, 1) {
        Some(r) => Some(100 * r),
        None => match first_mirror(t, 1, 1) {
            Some(c) => Some(c),
            None => match first_mirror(p, 1, 0) {
                Some(r) => Some(100 * r),
                None => first_mirror(t, 1, 0),
            },
        },
    }
}

proof fn lemma_transpose_twice(p: Seq<Seq<bool>>)
    requires
        p.len() > 0,
        p[0].len() > 0,
        rows_even(p),
    ensures
        transpose(transpose(p)) == p,
{
    let t = transpose(p);
    let tt = transpose(t);
    assert(t[0].len() == p.len());
    assert forall|j: int| 0 <= j < p.len() implies #[trigger] tt[j] == p[j] by {
        assert(p[j].len() == p[0].len());
        assert(tt[j] =~= p[j]);
    }
    assert(tt =~= p);
}

/// Scoring a pattern and its transpose swap rows and columns: one has a
/// summary exactly when the other has; and where the chosen mirror line of
/// the pattern lies between rows while its transpose has no line of that
/// kind between rows (no smudged one, or no line at all when the pattern
/// has no smudged line either), the pattern scores a hundred times what its
/// transpose scores, which counts the same line as columns.
pub proof fn lemma_score_transposed(p: Seq<Seq<bool>>)
    requires
        p.len() > 0,
        p[0].len() > 0,
        rows_even(p),
    ensures
        pattern_score(p) is Some <==> pattern_score(transpose(p)) is Some,
        first_mirror(p, 1, 1) is Some && first_mirror(transpose(p), 1, 1) is None ==> {
            &&& pattern_score(transpose(p)) == first_mirror(p, 1, 1)
            &&& pattern_score(p) == Some(100 * pattern_score(transpose(p))->0)
        },
        first_mirror(p, 1, 1) is None && first_mirror(transpose(p), 1, 1) is None && first_mirror(p, 1, 0) is Some
            && first_mirror(transpose(p), 1, 0) is None ==> {
            &&& pattern_score(transpose(p)) == first_mirror(p, 1, 0)
            &&& pattern_score(p) == Some(100 * pattern_score(transpose(p))->0)
        },
{
    lemma_transpose_twice(p);
}

/// The rows of block `k` of the lines.
pub open spec fn pattern_rows(ls: Seq<Seq<char>>, k: int) -> Seq<Seq<bool>> {
    block_rows(blocks_of(ls)[k])
}

/// Every block makes a pattern with rows of one length and a summary.
pub open spec fn patterns_scored(ls: Seq<Seq<char>>) -> bool {
    &&& patterns_ok(ls)
    &&& forall|k: int| 0 <= k < blocks_of(ls).len() ==> rows_even(#[trigger] pattern_rows(ls, k))
    &&& forall|k: int| 0 <= k < blocks_of(ls).len() ==> (#[trigger] pattern_score(pattern_rows(ls, k))) is Some
}

/// The summaries of the patterns of the lines, where every block has one.
pub open spec fn summary_spec(ls: Seq<Seq<char>>) -> Option<Seq<int>> {
    if patterns_scored(ls) {
        Some(Seq::new(blocks_of(ls).len(), |k: int| pattern_score(pattern_rows(ls, k))->0))
    } else {
        None
    }
}

/// Every pattern has at most `usize::MAX` cells.
pub open spec fn cells_fit(ls: Seq<Seq<char>>) -> bool {
    forall|k: int| 0 <= k < blocks_of(ls).len() ==>
        (#[trigger] pattern_rows(ls, k)).len() * pattern_rows(ls, k)[0].len() <= usize::MAX
}

proof fn lemma_first_mirror_pos(p: Seq<Seq<bool>>, i: int, d: int)
    requires
        i >= 1,
    ensures
        first_mirror(p, i, d) matches Some(r) ==> r >= i,
    decreases p.len() - i,
{
    if i < p.len() && !mirrors_at(p, i, d) {
        lemma_first_mirror_pos(p, i + 1, d);
    }
}

proof fn lemma_summary_nonneg(ls: Seq<Seq<char>>)
    requires
        summary_spec(ls) is Some,
    ensures
        forall|i: int| 0 <= i < summary_spec(ls)->0.len() ==> summary_spec(ls)->0[i] >= 0,
{
    assert forall|i: int| 0 <= i < summary_spec(ls)->0.len() implies summary_spec(ls)->0[i] >= 0 by {
        let p = pattern_rows(ls, i);
        lemma_first_mirror_pos(p, 1, 1);
        lemma_first_mirror_pos(p, 1, 0);
        lemma_first_mirror_pos(transpose(p), 1, 1);
        lemma_first_mirror_pos(transpose(p), 1, 0);
    }
}

proof fn lemma_seq_sum_step(s: Seq<int>, k: int)
    requires
        0 <= k < s.len(),
    ensures
        seq_sum(s.take(k + 1)) == seq_sum(s.take(k)) + s[k],
{
    assert(s.take(k + 1).drop_last() =~= s.take(k));
}

proof fn lemma_seq_sum_prefix(s: Seq<int>, k: int)
    requires
        0 <= k <= s.len(),
        forall|i: int| 0 <= i < s.len() ==> s[i] >= 0,
    ensures
        seq_sum(s.take(k)) <= seq_sum(s),
    decreases s.len(),
{
    if k == s.len() {
        assert(s.take(k) =~= s);
    } else {
        lemma_seq_sum_prefix(s.drop_last(), k);
        assert(s.drop_last().take(k) =~= s.take(k));
        lemma_seq_sum_nonneg(s.drop_last());
    }
}

proof fn lemma_seq_sum_nonneg(s: Seq<int>)
    requires
        forall|i: int| 0 <= i < s.len() ==> s[i] >= 0,
    ensures
        seq_sum(s) >= 0,
    decreases s.len(),
{
    if s.len() > 0 {
        lemma_seq_sum_nonneg(s.drop_last());
    }
}

/// Whether all rows are as long as the first.
fn rows_all_even(p: &Vec<Vec<bool>>) -> (b: bool)
    ensures
        b == rows_even(bool_rows(p@)),
{
    if p.len() == 0 {
        return true;
    }
    let w = p[0].len();
    let mut i: usize = 0;
    while i < p.len()
        invariant
            0 < p@.len(),
            i <= p@.len(),
            w == p@[0]@.len(),
            forall|t: int| 0 <= t < i ==> (#[trigger] p@[t])@.len() == w,
        decreases p@.len() - i,
    {
        if p[i].len() != w {
            assert(bool_rows(p@)[i as int] == p@[i as int]@);
            return false;
        }
        i = i + 1;
    }
    assert forall|t: int| 0 <= t < bool_rows(p@).len() implies (#[trigger] bool_rows(p@)[t]).len()
        == bool_rows(p@)[0].len() by {
        assert(bool_rows(p@)[t] == p@[t]@);
    }
    true
}

impl Pattern {
    /// The summary of the pattern (see `pattern_score`); `None` where it has
    /// no mirror line or the summary exceeds `usize::MAX`.
    pub fn score(&self) -> (r: Option<usize>)
        requires
            pattern_ok(bool_rows(self.normal@)),
            rows_even(bool_rows(self.normal@)),
            bool_rows(self.transposed@) == transpose(bool_rows(self.normal@)),
            self.normal@.len() * self.normal@[0]@.len() <= usize::MAX,
        ensures
            match r {
                Some(v) => pattern_score(bool_rows(self.normal@)) == Some(v as int),
                None => pattern_score(bool_rows(self.normal@)) is None
                    || pattern_score(bool_rows(self.normal@))->0 > usize::MAX,
            },
    {
        let ghost q = bool_rows(self.normal@);
        let ghost t = transpose(q);
        assert(q[0] == self.normal@[0]@);
        assert(bool_rows(self.transposed@).len() == self.transposed@.len());
        assert(rows_even(t)) by {
            assert forall|i: int| 0 <= i < t.len() implies (#[trigger] t[i]).len() == t[0].len() by {}
        }
        if self.transposed.len() > 0 {
            assert(bool_rows(self.transposed@)[0] == self.transposed@[0]@);
            assert(self.transposed@.len() * self.transposed@[0]@.len() == self.normal@.len()
                * self.normal@[0]@.len()) by (nonlinear_arith)
                requires
                    self.transposed@.len() == self.normal@[0]@.len(),
                    self.transposed@[0]@.len() == self.normal@.len(),
            ;
        }
        let a = self.find_reflection(1);
        let b = self.find_transposed_reflection(1);
        let c = self.find_reflection(0);
        let d = self.find_transposed_reflection(0);
        match (a, b, c, d) {
            (Some(r), _, _, _) => r.checked_mul(100),
            (None, Some(r), _, _) => Some(r),
            (None, None, Some(r), _) => r.checked_mul(100),
            (None, None, None, Some(r)) => Some(r),
            _ => None,
        }
    }
}

/// The summary of every pattern of `data` (each block a pattern with a
/// mirror line) and their total: `None` where a pattern has rows of two
/// lengths or a number exceeds `usize::MAX`.
pub fn reflection_summary(data: &str) -> (r: Option<(usize, Vec<usize>)>)
    requires
        patterns_ok(lines_spec(data@)),
        forall|k: int| 0 <= k < blocks_of(lines_spec(data@)).len() ==> (#[trigger] pattern_score(pattern_rows(lines_spec(data@), k))) is Some,
    ensures
        match r {
            Some((total, scores)) => summary_spec(lines_spec(data@)) == Some(scores@.map_values(|v: usize| v as int))
                && total == seq_sum(scores@.map_values(|v: usize| v as int)),
            None => summary_spec(lines_spec(data@)) is None || !cells_fit(lines_spec(data@))
                || seq_sum(summary_spec(lines_spec(data@))->0) > usize::MAX,
        },
{
    let ghost ls = lines_spec(data@);
    let parsed = parse_patterns(data);
    let ps = match parsed {
        Some(ps) => ps,
        None => {
            return None;
        },
    };
    let ghost bs = blocks_of(ls);
    let ghost want = Seq::new(bs.len(), |k: int| pattern_score(pattern_rows(ls, k))->0);
    let mut scores: Vec<usize> = Vec::new();
    let mut total: usize = 0;
    let mut k: usize = 0;
    while k < ps.len()
        invariant
            k <= ps@.len(),
            ls == lines_spec(data@),
            bs == blocks_of(ls),
            want == Seq::new(bs.len(), |k: int| pattern_score(pattern_rows(ls, k))->0),
            patterns_ok(ls),
            built_from(ps@, bs),
            scores@.len() == k,
            forall|j: int| 0 <= j < k ==> rows_even(#[trigger] pattern_rows(ls, j)),
            forall|j: int| 0 <= j < k ==> (#[trigger] pattern_score(pattern_rows(ls, j))) == Some(scores@[j] as int),
            total == seq_sum(scores@.map_values(|v: usize| v as int)),
        decreases ps@.len() - k,
    {
        let p = &ps[k];
        proof {
            assert(built_at(ps@, bs, k as int));
            assert(pattern_rows(ls, k as int) == bool_rows(p.normal@));
            assert(bool_rows(p.normal@)[0] == p.normal@[0]@);
        }
        if !rows_all_even(&p.normal) {
            return None;
        }
        let h = p.normal.len();
        let w = p.normal[0].len();
        if h.checked_mul(w).is_none() {
            return None;
        }
        let sc = match p.score() {
            Some(v) => v,
            None => {
                proof {
                    if patterns_scored(ls) {
                        lemma_summary_nonneg(ls);
                        let full = summary_spec(ls)->0;
                        assert(full[k as int] == want[k as int]);
                        lemma_seq_sum_prefix(full, k + 1);
                        lemma_seq_sum_step(full, k as int);
                        lemma_seq_sum_nonneg(full.take(k as int));
                    }
                }
                return None;
            },
        };
        let ghost old_scores = scores@;
        scores.push(sc);
        proof {
            assert(scores@.map_values(|v: usize| v as int).take(k as int) =~= old_scores.map_values(|v: usize| v as int));
            assert(scores@.map_values(|v: usize| v as int).take(k + 1) =~= scores@.map_values(|v: usize| v as int));
            lemma_seq_sum_step(scores@.map_values(|v: usize| v as int), k as int);
        }
        match total.checked_add(sc) {
            Some(t) => {
                total = t;
            },
            None => {
                proof {
                    if patterns_scored(ls) {
                        lemma_summary_nonneg(ls);
                        let full = summary_spec(ls)->0;
                        assert(full.take(k + 1) =~= scores@.map_values(|v: usize| v as int));
                        lemma_seq_sum_prefix(full, k + 1);
                    }
                }
                return None;
            },
        }
        k = k + 1;
    }
    assert(scores@.map_values(|v: usize| v as int) =~= want);
    Some((total, scores))
}

} // verus!
