//! Lava lagoon: read the dig plan (the steps hidden in the colour codes),
//! trace the outline, and measure it with the shoelace formula.
use vstd::prelude::*;
use crate::text::{chars_of, is_digit, lines, lines_spec, rows};

verus! {

/// A direction as a number.
pub type Direction = i32;

pub const RIGHT: Direction = 0;

pub const DOWN: Direction = 1;

pub const LEFT: Direction = 2;

pub const UP: Direction = 3;

pub const DIR_NONE: Direction = 4;

/// A point of the grid.
#[derive(Copy, Clone, PartialEq, Eq, PartialOrd, Ord, Hash, Debug)]
pub struct Vec2 {
    pub x: i64,
    pub y: i64,
}

impl Vec2 {
    /// The point moved by `dir`.
    pub fn go(&self, dir: Vec2) -> (r: Vec2)
        requires
            i64::MIN <= self.x + dir.x <= i64::MAX,
            i64::MIN <= self.y + dir.y <= i64::MAX,
        ensures
            r.x == self.x + dir.x,
            r.y == self.y + dir.y,
    {
        Vec2 { x: self.x + dir.x, y: self.y + dir.y }
    }

    /// The neighbouring point in direction `dir`.
    pub fn go_dir(&self, dir: Direction) -> (r: Vec2)
        requires
            0 <= dir <= 3,
            i64::MIN < self.x < i64::MAX,
            i64::MIN < self.y < i64::MAX,
        ensures
            r == (match dir {
                3 => Vec2 { x: self.x, y: (self.y - 1) as i64 },
                0 => Vec2 { x: (self.x + 1) as i64, y: self.y },
                1 => Vec2 { x: self.x, y: (self.y + 1) as i64 },
                _ => Vec2 { x: (self.x - 1) as i64, y: self.y },
            }),
    {
        match dir {
            UP => Vec2 { x: self.x, y: self.y - 1 },
            RIGHT => Vec2 { x: self.x + 1, y: self.y },
            DOWN => Vec2 { x: self.x, y: self.y + 1 },
            _ => Vec2 { x: self.x - 1, y: self.y },
        }
    }
}

/// A straight stretch of the outline, from its lower to its higher end.
#[derive(Copy, Clone, PartialEq, Eq, PartialOrd, Ord, Hash, Debug)]
pub struct Span {
    pub start: Vec2,
    pub end: Vec2,
    pub end_inside: Option<bool>,
    pub dig_dir: i32,
}

impl Span {
    /// A span with no direction recorded.
    pub fn new(start: Vec2, end: Vec2) -> (s: Span)
        ensures
            s == (Span { start, end, end_inside: None, dig_dir: DIR_NONE }),
    {
        Span { start, end, end_inside: None, dig_dir: DIR_NONE }
    }

    /// A span dug in direction `dir`.
    pub fn new_dir(start: Vec2, end: Vec2, dir: Direction) -> (s: Span)
        ensures
            s == (Span { start, end, end_inside: None, dig_dir: dir }),
    {
        Span { start, end, end_inside: None, dig_dir: dir }
    }
}

/// A grid cell: whether it is dug, and the colour of each of its edges.
#[derive(Copy, Clone, PartialEq, Eq, PartialOrd, Ord, Hash, Debug)]
pub struct Spot {
    pub dug: bool,
    pub color_up: Option<u32>,
    pub color_right: Option<u32>,
    pub color_down: Option<u32>,
    pub color_left: Option<u32>,
}

impl Spot {
    /// An undug cell with no colours.
    pub fn new() -> (s: Spot)
        ensures
            s == (Spot { dug: false, color_up: None, color_right: None, color_down: None, color_left: None }),
    {
        Spot { dug: false, color_up: None, color_right: None, color_down: None, color_left: None }
    }
}

/// One step of the dig plan.
#[derive(Copy, Clone, PartialEq, Eq, PartialOrd, Ord, Hash, Debug)]
pub struct Instruction {
    pub dir: Direction,
    pub count: usize,
    pub color: u32,
}

/// A lowercase hexadecimal digit.
pub open spec fn is_hex_lower(c: char) -> bool {
    ('0' <= c && c <= '9') || ('a' <= c && c <= 'f')
}

/// The value of a hexadecimal digit.
pub open spec fn hex_digit(c: char) -> int {
    if '0' <= c && c <= '9' {
        c as int - '0' as int
    } else {
        c as int - 'a' as int + 10
    }
}

/// The number written by hexadecimal digits.
pub open spec fn hex_value(s: Seq<char>) -> int
    decreases s.len(),
{
    if s.len() == 0 {
        0
    } else {
        hex_value(s.drop_last()) * 16 + hex_digit(s.last())
    }
}

/// The end of the run of decimal digits that starts at `i`.
pub open spec fn digits_end(s: Seq<char>, i: int) -> int
    decreases s.len() - i,
{
    if i < 0 || i >= s.len() || !is_digit(s[i]) {
        i
    } else {
        digits_end(s, i + 1)
    }
}

/// The end of the run of lowercase hexadecimal digits that starts at `i`.
pub open spec fn hex_end(s: Seq<char>, i: int) -> int
    decreases s.len() - i,
{
    if i < 0 || i >= s.len() || !is_hex_lower(s[i]) {
        i
    } else {
        hex_end(s, i + 1)
    }
}

/// A plan line `D 6 (#70c710)`: a direction letter, a count, and a colour
/// code of lowercase hexadecimal digits. The step it gives is hidden in the
/// colour: the first five digits are the length, the sixth the direction
/// (0 right, 1 down, 2 left, 3 up). `None` for a line of another shape, a
/// colour shorter than six digits, or a sixth digit that is no direction.
pub open spec fn step_spec(line: Seq<char>) -> Option<(int, int)> {
    if line.len() < 2 || !(line[0] == 'L' || line[0] == 'R' || line[0] == 'U' || line[0] == 'D')
        || line[1] != ' ' {
        None
    } else {
        let k = digits_end(line, 2);
        if k == 2 || k + 3 > line.len() || line[k] != ' ' || line[k + 1] != '(' || line[k + 2] != '#' {
            None
        } else {
            let m = hex_end(line, k + 3);
            if m == k + 3 || m != line.len() - 1 || line[m] != ')' {
                None
            } else {
                let color = line.subrange(k + 3, m);
                if color.len() < 6 || !('0' <= color[5] && color[5] <= '3') {
                    None
                } else {
                    Some((hex_value(color.take(5)), color[5] as int - '0' as int))
                }
            }
        }
    }
}

proof fn lemma_digits_end(s: Seq<char>, i: int)
    requires
        0 <= i <= s.len(),
    ensures
        i <= digits_end(s, i) <= s.len(),
        forall|t: int| i <= t < digits_end(s, i) ==> is_digit(s[t]),
        digits_end(s, i) < s.len() ==> !is_digit(s[digits_end(s, i)]),
    decreases s.len() - i,
{
    if i < s.len() && is_digit(s[i]) {
        lemma_digits_end(s, i + 1);
    }
}

proof fn lemma_hex_end(s: Seq<char>, i: int)
    requires
        0 <= i <= s.len(),
    ensures
        i <= hex_end(s, i) <= s.len(),
        forall|t: int| i <= t < hex_end(s, i) ==> is_hex_lower(s[t]),
        hex_end(s, i) < s.len() ==> !is_hex_lower(s[hex_end(s, i)]),
    decreases s.len() - i,
{
    if i < s.len() && is_hex_lower(s[i]) {
        lemma_hex_end(s, i + 1);
    }
}

/// Reads one plan line: the length and direction hidden in its colour.
pub fn parse_step(line: &[char]) -> (r: Option<(i64, i32)>)
    ensures
        match r {
            Some((c, d)) => step_spec(line@) == Some((c as int, d as int)),
            None => step_spec(line@) is None,
        },
        r matches Some((c, d)) ==> 0 <= c < 0x100000 && 0 <= d <= 3,
{
    let n = line.len();
    if n < 2 || !(line[0] == 'L' || line[0] == 'R' || line[0] == 'U' || line[0] == 'D') || line[1] != ' ' {
        return None;
    }
    proof {
        lemma_digits_end(line@, 2);
    }
    let mut k: usize = 2;
    while k < n && '0' <= line[k] && line[k] <= '9'
        invariant
            2 <= k <= n,
            n == line@.len(),
            digits_end(line@, k as int) == digits_end(line@, 2),
        decreases n - k,
    {
        k = k + 1;
    }
    if k == 2 || n - k < 3 || line[k] != ' ' || line[k + 1] != '(' || line[k + 2] != '#' {
        return None;
    }
    proof {
        lemma_hex_end(line@, k + 3);
    }
    let mut m: usize = k + 3;
    while m < n && (('0' <= line[m] && line[m] <= '9') || ('a' <= line[m] && line[m] <= 'f'))
        invariant
            k + 3 <= m <= n,
            n == line@.len(),
            hex_end(line@, m as int) == hex_end(line@, k + 3),
        decreases n - m,
    {
        m = m + 1;
    }
    if m == k + 3 || m != n - 1 || line[m] != ')' {
        return None;
    }
    let ghost color = line@.subrange(k + 3, m as int);
    if m - (k + 3) < 6 || !('0' <= line[k + 8] && line[k + 8] <= '3') {
        assert(color.len() < 6 || color[5] == line@[k + 8]);
        return None;
    }
    let mut count: i64 = 0;
    let mut t: usize = 0;
    proof {
        reveal_with_fuel(pow16, 6);
    }
    while t < 5
        invariant
            t <= 5,
            k + 8 < m,
            m <= n,
            n == line@.len(),
            color == line@.subrange(k + 3, m as int),
            forall|u: int| k + 3 <= u < m ==> is_hex_lower(line@[u]),
            count == hex_value(color.take(t as int)),
            0 <= count < pow16(t as int),
            pow16(t as int) <= 0x100000,
        decreases 5 - t,
    {
        let c = line[k + 3 + t];
        assert(color[t as int] == c);
        assert(is_hex_lower(c));
        let d: i64 = if '0' <= c && c <= '9' {
            (c as u32 - '0' as u32) as i64
        } else {
            (c as u32 - 'a' as u32 + 10) as i64
        };
        assert(d == hex_digit(c));
        assert(color.take(t + 1).drop_last() =~= color.take(t as int));
        assert(pow16(t + 1) == 16 * pow16(t as int));
        proof {
            reveal_with_fuel(pow16, 6);
        }
        count = count * 16 + d;
        t = t + 1;
    }
    let dir: i32 = (line[k + 8] as u32 - '0' as u32) as i32;
    assert(color[5] == line@[k + 8]);
    Some((count, dir))
}

/// Sixteen to the power `t`.
pub open spec fn pow16(t: int) -> int
    decreases t,
{
    if t <= 0 {
        1
    } else {
        16 * pow16(t - 1)
    }
}

/// How a step of `count` in direction `dir` moves a point.
pub open spec fn step_move(count: int, dir: int) -> (int, int) {
    if dir == 3 {
        (0, -count)
    } else if dir == 0 {
        (count, 0)
    } else if dir == 1 {
        (0, count)
    } else {
        (-count, 0)
    }
}

/// Where the first `k` steps lead from the origin.
pub open spec fn pos_after(steps: Seq<(int, int)>, k: int) -> (int, int)
    decreases k,
{
    if k <= 0 {
        (0, 0)
    } else {
        let p = pos_after(steps, k - 1);
        let a = step_move(steps[k - 1].0, steps[k - 1].1);
        (p.0 + a.0, p.1 + a.1)
    }
}

/// The point after the first `k` steps fits in `i64`.
pub open spec fn pos_fits(steps: Seq<(int, int)>, k: int) -> bool {
    i64::MIN <= pos_after(steps, k).0 <= i64::MAX && i64::MIN <= pos_after(steps, k).1 <= i64::MAX
}

/// Every point the steps reach fits in `i64`.
pub open spec fn plan_fits(steps: Seq<(int, int)>) -> bool {
    forall|k: int| 0 <= k <= steps.len() ==> #[trigger] pos_fits(steps, k)
}

/// The point as a `Vec2`.
pub open spec fn point(p: (int, int)) -> Vec2 {
    Vec2 { x: p.0 as i64, y: p.1 as i64 }
}

/// The corners of the outline: the origin and the end of every step.
pub open spec fn corners(steps: Seq<(int, int)>) -> Seq<Vec2> {
    Seq::new(steps.len() + 1, |k: int| point(pos_after(steps, k)))
}

/// The span of step `k`, from its lower to its higher end.
pub open spec fn span_of(steps: Seq<(int, int)>, k: int) -> Span {
    let p = point(pos_after(steps, k));
    let q = point(pos_after(steps, k + 1));
    let d = steps[k].1;
    if d == 3 || d == 1 {
        if p.y < q.y {
            Span { start: p, end: q, end_inside: None, dig_dir: DIR_NONE }
        } else {
            Span { start: q, end: p, end_inside: None, dig_dir: DIR_NONE }
        }
    } else {
        if p.x < q.x {
            Span { start: p, end: q, end_inside: None, dig_dir: DIR_NONE }
        } else {
            Span { start: q, end: p, end_inside: None, dig_dir: DIR_NONE }
        }
    }
}

/// The spans of the first `k` steps that go up or down (`vertical`) or
/// left or right (not `vertical`), in order.
pub open spec fn spans_upto(steps: Seq<(int, int)>, k: int, vertical: bool) -> Seq<Span>
    decreases k,
{
    if k <= 0 {
        Seq::empty()
    } else {
        let d = steps[k - 1].1;
        spans_upto(steps, k - 1, vertical) + if (d == 3 || d == 1) == vertical {
            seq![span_of(steps, k - 1)]
        } else {
            Seq::empty()
        }
    }
}

/// The smallest and largest coordinates among the first `k + 1` corners,
/// each starting from the origin.
pub open spec fn bounds_upto(steps: Seq<(int, int)>, k: int) -> (Vec2, Vec2)
    decreases k,
{
    if k <= 0 {
        (Vec2 { x: 0, y: 0 }, Vec2 { x: 0, y: 0 })
    } else {
        let (lo, hi) = bounds_upto(steps, k - 1);
        let p = point(pos_after(steps, k));
        (
            Vec2 { x: if p.x < lo.x { p.x } else { lo.x }, y: if p.y < lo.y { p.y } else { lo.y } },
            Vec2 { x: if p.x > hi.x { p.x } else { hi.x }, y: if p.y > hi.y { p.y } else { hi.y } },
        )
    }
}

/// The outline of the lagoon: its corners, its spans, and its bounds.
pub struct Plan {
    pub points: Vec<Vec2>,
    pub hspans: Vec<Span>,
    pub vspans: Vec<Span>,
    pub minv: Vec2,
    pub maxv: Vec2,
}

/// Every line is a plan line.
pub open spec fn steps_readable(ls: Seq<Seq<char>>) -> bool {
    forall|k: int| 0 <= k < ls.len() ==> (#[trigger] step_spec(ls[k])) is Some
}

/// The steps of the plan lines.
pub open spec fn steps_of(ls: Seq<Seq<char>>) -> Seq<(int, int)> {
    ls.map_values(|l: Seq<char>| step_spec(l)->0)
}

/// Span `a` starts before span `b`: by column, then by row.
pub open spec fn span_before(a: Span, b: Span) -> bool {
    a.start.x < b.start.x || (a.start.x == b.start.x && a.start.y < b.start.y)
}

/// `x` put into `s` just after the last span, counted from the back, that
/// does not start after it.
pub open spec fn insert_span(s: Seq<Span>, x: Span) -> Seq<Span>
    decreases s.len(),
{
    if s.len() == 0 || !span_before(x, s.last()) {
        s.push(x)
    } else {
        insert_span(s.drop_last(), x).push(s.last())
    }
}

/// The spans ordered by their start, by column and then by row, spans with
/// equal starts in their original order.
pub open spec fn sort_spans_spec(s: Seq<Span>) -> Seq<Span>
    decreases s.len(),
{
    if s.len() == 0 {
        s
    } else {
        insert_span(sort_spans_spec(s.drop_last()), s.last())
    }
}

/// No span starts before one that comes earlier.
pub open spec fn spans_sorted(s: Seq<Span>) -> bool {
    forall|a: int, b: int| 0 <= a <= b < s.len() ==> !span_before(#[trigger] s[b], #[trigger] s[a])
}

proof fn lemma_insert_span(s: Seq<Span>, x: Span)
    requires
        spans_sorted(s),
    ensures
        spans_sorted(insert_span(s, x)),
        insert_span(s, x).to_multiset() == s.to_multiset().insert(x),
        insert_span(s, x).len() == s.len() + 1,
        forall|k: int| 0 <= k < insert_span(s, x).len() ==> #[trigger] insert_span(s, x)[k] == x || s.contains(insert_span(s, x)[k]),
    decreases s.len(),
{
    broadcast use vstd::multiset::group_multiset_axioms, vstd::seq_lib::group_to_multiset_ensures;
    if s.len() == 0 || !span_before(x, s.last()) {
        assert forall|k: int| 0 <= k < s.len() + 1 implies #[trigger] s.push(x)[k] == x || s.contains(s.push(x)[k]) by {
            if k < s.len() {
                assert(s[k] == s.push(x)[k]);
            }
        }
        assert(spans_sorted(s.push(x))) by {
            assert forall|a: int, b: int| 0 <= a <= b < s.len() + 1 implies !span_before(#[trigger] s.push(x)[b], #[trigger] s.push(x)[a]) by {
                if b < s.len() {
                    assert(s.push(x)[a] == s[a]);
                    assert(s.push(x)[b] == s[b]);
                } else if a < s.len() {
                    assert(s.push(x)[a] == s[a]);
                    assert(!span_before(s.last(), s[a]));
                }
            }
        }
    } else {
        let t = s.drop_last();
        let l = s.last();
        assert(spans_sorted(t)) by {
            assert forall|a: int, b: int| 0 <= a <= b < t.len() implies !span_before(#[trigger] t[b], #[trigger] t[a]) by {
                assert(t[a] == s[a]);
                assert(t[b] == s[b]);
            }
        }
        lemma_insert_span(t, x);
        let u = insert_span(t, x);
        assert(s =~= t.push(l));
        assert forall|k: int| 0 <= k < u.len() implies !span_before(l, #[trigger] u[k]) by {
            if u[k] != x {
                let m = choose|m: int| 0 <= m < t.len() && t[m] == u[k];
                assert(s[m] == t[m]);
                assert(s[s.len() - 1] == l);
            }
        }
        assert forall|k: int| 0 <= k < u.len() + 1 implies #[trigger] u.push(l)[k] == x || s.contains(u.push(l)[k]) by {
            if k == u.len() {
                assert(s[s.len() - 1] == u.push(l)[k]);
            } else {
                assert(u.push(l)[k] == u[k]);
                if u[k] != x {
                    let m = choose|m: int| 0 <= m < t.len() && t[m] == u[k];
                    assert(s[m] == t[m]);
                }
            }
        }
        assert(spans_sorted(u.push(l))) by {
            assert forall|a: int, b: int| 0 <= a <= b < u.len() + 1 implies !span_before(#[trigger] u.push(l)[b], #[trigger] u.push(l)[a]) by {
                if b < u.len() {
                    assert(u.push(l)[a] == u[a]);
                    assert(u.push(l)[b] == u[b]);
                } else if a < u.len() {
                    assert(u.push(l)[a] == u[a]);
                }
            }
        }
    }
}

/// Ordering the spans yields them by start, none added or lost.
pub proof fn lemma_sort_spans(s: Seq<Span>)
    ensures
        spans_sorted(sort_spans_spec(s)),
        sort_spans_spec(s).to_multiset() == s.to_multiset(),
        sort_spans_spec(s).len() == s.len(),
    decreases s.len(),
{
    broadcast use vstd::multiset::group_multiset_axioms, vstd::seq_lib::group_to_multiset_ensures;
    if s.len() > 0 {
        lemma_sort_spans(s.drop_last());
        lemma_insert_span(sort_spans_spec(s.drop_last()), s.last());
        assert(s =~= s.drop_last().push(s.last()));
    }
}

/// Orders the spans by their start (see `sort_spans_spec`).
pub fn sort_spans(v: &mut Vec<Span>)
    ensures
        final(v)@ == sort_spans_spec(old(v)@),
        spans_sorted(final(v)@),
        final(v)@.to_multiset() == old(v)@.to_multiset(),
{
    let ghost orig = v@;
    let n = v.len();
    let mut i: usize = 0;
    while i < n
        invariant
            i <= n,
            n == v@.len(),
            orig == old(v)@,
            orig.len() == n,
            v@.take(i as int) == sort_spans_spec(orig.take(i as int)),
            v@.skip(i as int) == orig.skip(i as int),
        decreases n - i,
    {
        let x = v[i];
        let ghost prefix = v@.take(i as int);
        let ghost rest = v@.skip(i + 1);
        assert(orig[i as int] == x) by {
            assert(v@.skip(i as int)[0] == x);
        }
        let mut j: usize = i;
        assert(prefix.take(i as int) =~= prefix);
        assert(prefix.subrange(i as int, i as int) =~= Seq::<Span>::empty());
        assert(insert_span(prefix, x) =~= insert_span(prefix, x) + Seq::<Span>::empty());
        assert(v@ =~= prefix.take(j as int) + seq![x] + prefix.subrange(j as int, i as int) + rest);
        while j > 0 && (x.start.x < v[j - 1].start.x || (x.start.x == v[j - 1].start.x && x.start.y < v[j - 1].start.y))
            invariant
                0 <= j <= i < n,
                n == v@.len(),
                v@ == prefix.take(j as int) + seq![x] + prefix.subrange(j as int, i as int) + rest,
                insert_span(prefix, x) == insert_span(prefix.take(j as int), x) + prefix.subrange(j as int, i as int),
                prefix.len() == i,
            decreases j,
        {
            let y = v[j - 1];
            v.set(j, y);
            v.set(j - 1, x);
            proof {
                assert(y == prefix[j - 1]);
                let pj = prefix.take(j as int);
                assert(pj.drop_last() =~= prefix.take(j - 1));
                assert(pj.last() == y);
                assert(insert_span(pj, x) == insert_span(pj.drop_last(), x).push(y));
                assert(prefix.subrange(j - 1, i as int) =~= seq![y] + prefix.subrange(j as int, i as int));
                assert(insert_span(prefix, x) =~= insert_span(prefix.take(j - 1), x) + prefix.subrange(j - 1, i as int));
                assert(v@ =~= prefix.take(j - 1) + seq![x] + prefix.subrange(j - 1, i as int) + rest);
            }
            j = j - 1;
        }
        proof {
            let pj = prefix.take(j as int);
            if j > 0 {
                assert(v@[j - 1] == pj.last());
            }
            assert(insert_span(pj, x) == pj.push(x));
            assert(orig.take(i + 1).drop_last() =~= orig.take(i as int));
            assert(orig.take(i + 1).last() == x);
            assert(v@.take(i + 1) =~= insert_span(prefix, x));
            assert(v@.skip(i + 1) =~= orig.skip(i + 1)) by {
                assert(rest =~= orig.skip(i + 1)) by {
                    assert(orig.skip(i as int).skip(1) =~= orig.skip(i + 1));
                }
            }
        }
        i = i + 1;
    }
    assert(v@.take(n as int) =~= v@);
    assert(orig.take(n as int) =~= orig);
    proof {
        lemma_sort_spans(orig);
    }
}

/// Whether every line of `data` is a plan line (see `step_spec`).
pub fn plan_readable(data: &str) -> (b: bool)
    ensures
        b == steps_readable(lines_spec(data@)),
{
    let chars = chars_of(data);
    let ls = lines(chars.as_slice());
    let ghost lv = rows(ls@);
    let mut i: usize = 0;
    while i < ls.len()
        invariant
            i <= ls@.len(),
            lv == rows(ls@),
            lv == lines_spec(data@),
            steps_readable(lv.take(i as int)),
        decreases ls@.len() - i,
    {
        assert(lv[i as int] == ls@[i as int]@);
        if parse_step(ls[i].as_slice()).is_none() {
            assert(step_spec(lv[i as int]) is None);
            return false;
        }
        assert forall|k: int| 0 <= k < i + 1 implies (#[trigger] step_spec(lv.take(i + 1)[k])) is Some by {
            if k < i {
                assert(lv.take(i + 1)[k] == lv.take(i as int)[k]);
            }
        }
        i = i + 1;
    }
    assert(lv.take(i as int) =~= lv);
    true
}

/// Reads the dig plan, every line of which is a plan line, and traces its
/// outline from the origin, the upright spans ordered by their start (see
/// `sort_spans_spec`); `None` when a point does not fit in `i64`.
pub fn dig_plan(data: &str) -> (r: Option<Plan>)
    requires
        steps_readable(lines_spec(data@)),
    ensures
        match r {
            Some(p) => {
                let steps = steps_of(lines_spec(data@));
                &&& steps_readable(lines_spec(data@))
                &&& plan_fits(steps)
                &&& p.points@ == corners(steps)
                &&& p.hspans@ == spans_upto(steps, steps.len() as int, false)
                &&& p.vspans@ == sort_spans_spec(spans_upto(steps, steps.len() as int, true))
                &&& (p.minv, p.maxv) == bounds_upto(steps, steps.len() as int)
            },
            None => !plan_fits(steps_of(lines_spec(data@))),
        },
{
    let chars = chars_of(data);
    let ls = lines(chars.as_slice());
    let ghost lv = rows(ls@);
    let ghost steps = steps_of(lv);
    let mut minv = Vec2 { x: 0, y: 0 };
    let mut maxv = Vec2 { x: 0, y: 0 };
    let mut pos = Vec2 { x: 0, y: 0 };
    let mut hspans: Vec<Span> = Vec::new();
    let mut vspans: Vec<Span> = Vec::new();
    let mut points: Vec<Vec2> = Vec::new();
    points.push(pos);
    assert(points@ =~= corners(steps.take(0)));
    let mut i: usize = 0;
    while i < ls.len()
        invariant
            i <= ls@.len(),
            lv == rows(ls@),
            lv == lines_spec(data@),
            steps == steps_of(lv),
            steps_readable(lv),
            steps_readable(lv.take(i as int)),
            forall|k: int| 0 <= k <= i ==> #[trigger] pos_fits(steps, k),
            pos == point(pos_after(steps, i as int)),
            points@ == corners(steps.take(i as int)),
            hspans@ == spans_upto(steps, i as int, false),
            vspans@ == spans_upto(steps, i as int, true),
            (minv, maxv) == bounds_upto(steps, i as int),
        decreases ls@.len() - i,
    {
        assert(lv[i as int] == ls@[i as int]@);
        let (count, dir) = match parse_step(ls[i].as_slice()) {
            Some(s) => s,
            None => {
                assert(!steps_readable(lv)) by {
                    assert(step_spec(lv[i as int]) is None);
                }
                return None;
            },
        };
        assert(steps[i as int] == (count as int, dir as int));
        assert(pos_fits(steps, i as int));
        let addend = if dir == UP {
            Vec2 { x: 0, y: -count }
        } else if dir == RIGHT {
            Vec2 { x: count, y: 0 }
        } else if dir == DOWN {
            Vec2 { x: 0, y: count }
        } else {
            Vec2 { x: -count, y: 0 }
        };
        assert(steps.len() == ls@.len());
        assert(addend.x == step_move(count as int, dir as int).0);
        assert(addend.y == step_move(count as int, dir as int).1);
        let nx = pos.x.checked_add(addend.x);
        let ny = pos.y.checked_add(addend.y);
        if nx.is_none() || ny.is_none() {
            assert(!plan_fits(steps)) by {
                let p = pos_after(steps, i as int);
                assert(pos.x == p.0 && pos.y == p.1);
                let a = step_move(steps[i as int].0, steps[i as int].1);
                assert(pos_after(steps, i + 1) == (p.0 + a.0, p.1 + a.1));
                assert(a.0 == addend.x && a.1 == addend.y);
                assert(!(i64::MIN <= pos_after(steps, i + 1).0 <= i64::MAX && i64::MIN <= pos_after(steps, i + 1).1 <= i64::MAX));
                assert(0 <= i + 1 <= steps.len());
                assert(!pos_fits(steps, i + 1));
            }
            return None;
        }
        let new_pos = pos.go(addend);
        proof {
            let p = pos_after(steps, i as int);
            let a = step_move(steps[i as int].0, steps[i as int].1);
            assert(pos_after(steps, i + 1) == (p.0 + a.0, p.1 + a.1));
            assert(pos_fits(steps, i + 1));
            assert(new_pos == point(pos_after(steps, i + 1)));
        }
        if dir == UP || dir == DOWN {
            if pos.y < new_pos.y {
                vspans.push(Span::new(pos, new_pos));
            } else {
                vspans.push(Span::new(new_pos, pos));
            }
        } else {
            if pos.x < new_pos.x {
                hspans.push(Span::new(pos, new_pos));
            } else {
                hspans.push(Span::new(new_pos, pos));
            }
        }
        let ghost old_points = points@;
        points.push(new_pos);
        proof {
            assert(steps.take(i + 1) =~= steps.take(i as int).push(steps[i as int]));
            assert forall|k: int| 0 <= k <= i + 1 implies pos_after(steps.take(i + 1), k) == pos_after(steps, k) by {
                lemma_pos_prefix(steps, i + 1, k);
            }
            assert forall|k: int| 0 <= k <= i implies pos_after(steps.take(i as int), k) == pos_after(steps, k) by {
                lemma_pos_prefix(steps, i as int, k);
            }
            assert forall|k: int| 0 <= k < i + 2 implies #[trigger] points@[k] == corners(steps.take(i + 1))[k] by {
                lemma_pos_prefix(steps, i + 1, k);
                if k < i + 1 {
                    lemma_pos_prefix(steps, i as int, k);
                    assert(points@[k] == old_points[k]);
                    assert(old_points[k] == point(pos_after(steps.take(i as int), k)));
                }
            }
            assert(points@ =~= corners(steps.take(i + 1)));
        }
        pos = new_pos;
        minv = Vec2 { x: if new_pos.x < minv.x { new_pos.x } else { minv.x }, y: if new_pos.y < minv.y { new_pos.y } else { minv.y } };
        maxv = Vec2 { x: if new_pos.x > maxv.x { new_pos.x } else { maxv.x }, y: if new_pos.y > maxv.y { new_pos.y } else { maxv.y } };
        assert(steps_readable(lv.take(i + 1))) by {
            assert forall|k: int| 0 <= k < i + 1 implies (#[trigger] step_spec(lv.take(i + 1)[k])) is Some by {
                if k < i {
                    assert(lv.take(i + 1)[k] == lv.take(i as int)[k]);
                }
            }
        }
        i = i + 1;
    }
    assert(lv.take(i as int) =~= lv);
    assert(steps.take(i as int) =~= steps);
    sort_spans(&mut vspans);
    Some(Plan { points, hspans, vspans, minv, maxv })
}

proof fn lemma_pos_prefix(steps: Seq<(int, int)>, n: int, k: int)
    requires
        0 <= k <= n <= steps.len(),
    ensures
        pos_after(steps.take(n), k) == pos_after(steps, k),
    decreases k,
{
    if k > 0 {
        lemma_pos_prefix(steps, n, k - 1);
        assert(steps.take(n)[k - 1] == steps[k - 1]);
    }
}

/// The value fits in an `i64`.
pub open spec fn fits(v: int) -> bool {
    i64::MIN <= v <= i64::MAX
}

/// The index after `i`, going round.
pub open spec fn next_index(n: int, i: int) -> int {
    (i + 1) % n
}

/// The shoelace term of corner `i`: the cross product with the next corner.
pub open spec fn cross_term(ps: Seq<Vec2>, i: int) -> int {
    let j = next_index(ps.len() as int, i);
    ps[i].x * ps[j].y - ps[j].x * ps[i].y
}

/// The length of the edge from corner `i` to the next.
pub open spec fn edge_len(ps: Seq<Vec2>, i: int) -> int {
    let j = next_index(ps.len() as int, i);
    abs(ps[i].x - ps[j].x) + abs(ps[i].y - ps[j].y)
}

pub open spec fn abs(v: int) -> int {
    if v < 0 {
        -v
    } else {
        v
    }
}

/// The sum of the first `k` cross terms.
pub open spec fn cross_sum(ps: Seq<Vec2>, k: int) -> int
    decreases k,
{
    if k <= 0 {
        0
    } else {
        cross_sum(ps, k - 1) + cross_term(ps, k - 1)
    }
}

/// The sum of the first `k` edge lengths.
pub open spec fn path_sum(ps: Seq<Vec2>, k: int) -> int
    decreases k,
{
    if k <= 0 {
        0
    } else {
        path_sum(ps, k - 1) + edge_len(ps, k - 1)
    }
}

/// Both products of cross term `i` and their difference fit in `i64`.
pub open spec fn cross_ok(ps: Seq<Vec2>, i: int) -> bool {
    let j = next_index(ps.len() as int, i);
    fits(ps[i].x * ps[j].y) && fits(ps[j].x * ps[i].y) && fits(cross_term(ps, i))
}

/// Both differences of edge `i` fit in `i64` and are not `i64::MIN`, and so
/// does the sum of their absolute values.
pub open spec fn edge_ok(ps: Seq<Vec2>, i: int) -> bool {
    let j = next_index(ps.len() as int, i);
    i64::MIN < ps[i].x - ps[j].x <= i64::MAX && i64::MIN < ps[i].y - ps[j].y <= i64::MAX && fits(
        edge_len(ps, i),
    )
}

/// Every step of the shoelace sum fits in `i64`: both products, their
/// difference and each partial sum, and the sum is not `i64::MIN`.
pub open spec fn cross_fits(ps: Seq<Vec2>) -> bool {
    &&& forall|i: int| 0 <= i < ps.len() ==> #[trigger] cross_ok(ps, i)
    &&& forall|k: int| 0 <= k <= ps.len() ==> fits(#[trigger] cross_sum(ps, k))
    &&& cross_sum(ps, ps.len() as int) != i64::MIN
}

/// Every step of the perimeter sum fits in `i64`: both differences (and not
/// `i64::MIN`), their absolute values' sum, and each partial sum.
pub open spec fn path_fits(ps: Seq<Vec2>) -> bool {
    &&& forall|i: int| 0 <= i < ps.len() ==> #[trigger] edge_ok(ps, i)
    &&& forall|k: int| 0 <= k <= ps.len() ==> fits(#[trigger] path_sum(ps, k))
}

proof fn lemma_cross_breaks(ps: Seq<Vec2>, i: int)
    requires
        0 <= i < ps.len(),
        !cross_ok(ps, i),
    ensures
        !cross_fits(ps),
{
}

proof fn lemma_path_breaks(ps: Seq<Vec2>, i: int)
    requires
        0 <= i < ps.len(),
        !edge_ok(ps, i),
    ensures
        !path_fits(ps),
{
}

/// The area inside the outline by the shoelace formula, the length of the
/// outline, and the cells dug counted as area plus half the outline plus one.
pub open spec fn shoelace_spec(ps: Seq<Vec2>) -> (int, int, int) {
    let area = abs(cross_sum(ps, ps.len() as int)) / 2;
    let len = path_sum(ps, ps.len() as int);
    (area, len, area + len / 2 + 1)
}

/// The corners starting from the second, the first put last.
pub open spec fn rotate_once(ps: Seq<Vec2>) -> Seq<Vec2> {
    ps.skip(1).push(ps[0])
}

proof fn lemma_next_index(n: int, i: int)
    requires
        0 <= i < n,
    ensures
        next_index(n, i) == if i + 1 < n { i + 1 } else { 0 },
{
    if i + 1 < n {
        vstd::arithmetic::div_mod::lemma_small_mod((i + 1) as nat, n as nat);
    } else {
        vstd::arithmetic::div_mod::lemma_mod_self_0(n);
    }
}

proof fn lemma_rotate_terms(ps: Seq<Vec2>, i: int)
    requires
        0 <= i < ps.len(),
    ensures
        cross_term(rotate_once(ps), i) == cross_term(ps, next_index(ps.len() as int, i)),
        edge_len(rotate_once(ps), i) == edge_len(ps, next_index(ps.len() as int, i)),
{
    let n = ps.len() as int;
    let q = rotate_once(ps);
    assert(q.len() == n);
    lemma_next_index(n, i);
    if i + 1 < n {
        lemma_next_index(n, i + 1);
    }
    lemma_next_index(n, 0);
    if i < n - 1 {
        assert(next_index(n, i) == i + 1);
        assert(q[i] == ps[i + 1]);
        if i + 1 < n - 1 {
            assert(next_index(n, i + 1) == i + 2);
            assert(q[i + 1] == ps[i + 2]);
        } else {
            assert(next_index(n, i + 1) == 0);
            assert(q[i + 1] == ps[0]);
        }
    } else {
        assert(next_index(n, i) == 0);
        assert(q[i] == ps[0]);
        assert(q[0] == ps[1int % n]) by {
            if n > 1 {
                assert(q[0] == ps[1]);
            }
        }
        assert(next_index(n, 0) == 1int % n);
    }
}

proof fn lemma_rotate_sums(ps: Seq<Vec2>, k: int)
    requires
        ps.len() > 0,
        0 <= k < ps.len(),
    ensures
        cross_sum(rotate_once(ps), k) == cross_sum(ps, k + 1) - cross_term(ps, 0),
        path_sum(rotate_once(ps), k) == path_sum(ps, k + 1) - edge_len(ps, 0),
    decreases k,
{
    let q = rotate_once(ps);
    if k > 0 {
        lemma_rotate_sums(ps, k - 1);
        lemma_rotate_terms(ps, k - 1);
        lemma_next_index(ps.len() as int, k - 1);
        assert(cross_sum(q, k) == cross_sum(q, k - 1) + cross_term(q, k - 1));
        assert(cross_sum(ps, k + 1) == cross_sum(ps, k) + cross_term(ps, k));
        assert(path_sum(q, k) == path_sum(q, k - 1) + edge_len(q, k - 1));
        assert(path_sum(ps, k + 1) == path_sum(ps, k) + edge_len(ps, k));
    } else {
        assert(cross_sum(ps, 1) == cross_sum(ps, 0) + cross_term(ps, 0));
        assert(path_sum(ps, 1) == path_sum(ps, 0) + edge_len(ps, 0));
    }
}

/// The shoelace area, the outline's length and the dug count do not change
/// when the outline starts from the next corner.
pub proof fn lemma_shoelace_rotation(ps: Seq<Vec2>)
    requires
        ps.len() > 0,
    ensures
        shoelace_spec(rotate_once(ps)) == shoelace_spec(ps),
{
    let n = ps.len() as int;
    lemma_rotate_sums(ps, n - 1);
    lemma_rotate_terms(ps, n - 1);
    lemma_next_index(n, n - 1);
    assert(rotate_once(ps).len() == n);
}

/// The corners starting from corner `k`, those before it put last.
pub open spec fn rotate(ps: Seq<Vec2>, k: int) -> Seq<Vec2> {
    ps.skip(k) + ps.take(k)
}

/// The shoelace area, the outline's length and the dug count do not depend
/// on which corner the outline starts from.
pub proof fn lemma_shoelace_rotate(ps: Seq<Vec2>, k: int)
    requires
        ps.len() > 0,
        0 <= k <= ps.len(),
    ensures
        shoelace_spec(rotate(ps, k)) == shoelace_spec(ps),
    decreases k,
{
    if k == 0 {
        assert(rotate(ps, 0) =~= ps);
    } else {
        lemma_shoelace_rotate(ps, k - 1);
        let q = rotate(ps, k - 1);
        assert(q.len() == ps.len());
        assert(q[0] == ps[k - 1]);
        assert(rotate_once(q) =~= rotate(ps, k));
        lemma_shoelace_rotation(q);
    }
}

/// The corners in the opposite order.
pub open spec fn reversed(ps: Seq<Vec2>) -> Seq<Vec2> {
    Seq::new(ps.len(), |i: int| ps[ps.len() - 1 - i])
}

proof fn lemma_reverse_terms(ps: Seq<Vec2>, i: int)
    requires
        0 <= i < ps.len(),
    ensures
        i < ps.len() - 1 ==> cross_term(reversed(ps), i) == -cross_term(ps, ps.len() - 2 - i)
            && edge_len(reversed(ps), i) == edge_len(ps, ps.len() - 2 - i),
        i == ps.len() - 1 ==> cross_term(reversed(ps), i) == -cross_term(ps, i) && edge_len(reversed(ps), i)
            == edge_len(ps, i),
{
    let n = ps.len() as int;
    let r = reversed(ps);
    lemma_next_index(n, i);
    if i < n - 1 {
        lemma_next_index(n, n - 2 - i);
        assert(r[i] == ps[n - 1 - i]);
        assert(r[i + 1] == ps[n - 2 - i]);
    } else {
        lemma_next_index(n, n - 1);
        assert(r[i] == ps[0]);
        assert(r[0] == ps[n - 1]);
    }
}

proof fn lemma_reverse_sums(ps: Seq<Vec2>, k: int)
    requires
        0 <= k < ps.len(),
    ensures
        cross_sum(reversed(ps), k) == cross_sum(ps, ps.len() - 1 - k) - cross_sum(ps, ps.len() - 1),
        path_sum(reversed(ps), k) == path_sum(ps, ps.len() - 1) - path_sum(ps, ps.len() - 1 - k),
    decreases k,
{
    let n = ps.len() as int;
    let r = reversed(ps);
    if k > 0 {
        lemma_reverse_sums(ps, k - 1);
        lemma_reverse_terms(ps, k - 1);
        assert(cross_sum(r, k) == cross_sum(r, k - 1) + cross_term(r, k - 1));
        assert(cross_sum(ps, n - k) == cross_sum(ps, n - 1 - k) + cross_term(ps, n - 1 - k));
        assert(path_sum(r, k) == path_sum(r, k - 1) + edge_len(r, k - 1));
        assert(path_sum(ps, n - k) == path_sum(ps, n - 1 - k) + edge_len(ps, n - 1 - k));
    }
}

/// The shoelace area, the outline's length and the dug count do not depend
/// on the direction in which the outline is walked.
pub proof fn lemma_shoelace_reverse(ps: Seq<Vec2>)
    requires
        ps.len() > 0,
    ensures
        shoelace_spec(reversed(ps)) == shoelace_spec(ps),
{
    let n = ps.len() as int;
    let r = reversed(ps);
    lemma_reverse_sums(ps, n - 1);
    lemma_reverse_terms(ps, n - 1);
    assert(cross_sum(r, n) == cross_sum(r, n - 1) + cross_term(r, n - 1));
    assert(cross_sum(ps, n) == cross_sum(ps, n - 1) + cross_term(ps, n - 1));
    assert(path_sum(r, n) == path_sum(r, n - 1) + edge_len(r, n - 1));
    assert(path_sum(ps, n) == path_sum(ps, n - 1) + edge_len(ps, n - 1));
    assert(cross_sum(ps, 0) == 0 && path_sum(ps, 0) == 0);
    assert(r.len() == n);
}

/// Every corner moved by `d`.
pub open spec fn shift(ps: Seq<Vec2>, d: Vec2) -> Seq<Vec2> {
    ps.map_values(|p: Vec2| Vec2 { x: (p.x + d.x) as i64, y: (p.y + d.y) as i64 })
}

/// Every corner moved by `d` stays within `i64`.
pub open spec fn shift_fits(ps: Seq<Vec2>, d: Vec2) -> bool {
    forall|i: int| 0 <= i < ps.len() ==> fits(#[trigger] ps[i].x + d.x) && fits(ps[i].y + d.y)
}

proof fn lemma_moved_cross(xi: int, yi: int, xj: int, yj: int, dx: int, dy: int)
    ensures
        (xi + dx) * (yj + dy) - (xj + dx) * (yi + dy) == xi * yj - xj * yi + dy * (xi - xj) + dx * (yj - yi),
{
    vstd::arithmetic::mul::lemma_mul_is_distributive_add(xi + dx, yj, dy);
    vstd::arithmetic::mul::lemma_mul_is_distributive_add_other_way(yj, xi, dx);
    vstd::arithmetic::mul::lemma_mul_is_distributive_add_other_way(dy, xi, dx);
    vstd::arithmetic::mul::lemma_mul_is_distributive_add(xj + dx, yi, dy);
    vstd::arithmetic::mul::lemma_mul_is_distributive_add_other_way(yi, xj, dx);
    vstd::arithmetic::mul::lemma_mul_is_distributive_add_other_way(dy, xj, dx);
    vstd::arithmetic::mul::lemma_mul_is_distributive_sub(dy, xi, xj);
    vstd::arithmetic::mul::lemma_mul_is_distributive_sub(dx, yj, yi);
    vstd::arithmetic::mul::lemma_mul_is_commutative(xi, dy);
    vstd::arithmetic::mul::lemma_mul_is_commutative(xj, dy);
    vstd::arithmetic::mul::lemma_mul_is_commutative(dx, yj);
    vstd::arithmetic::mul::lemma_mul_is_commutative(dx, yi);
}

proof fn lemma_shift_term(ps: Seq<Vec2>, d: Vec2, i: int)
    requires
        0 <= i < ps.len(),
        shift_fits(ps, d),
    ensures
        cross_term(shift(ps, d), i) == cross_term(ps, i) + d.y * (ps[i].x - ps[next_index(ps.len() as int, i)].x)
            + d.x * (ps[next_index(ps.len() as int, i)].y - ps[i].y),
        edge_len(shift(ps, d), i) == edge_len(ps, i),
{
    let n = ps.len() as int;
    let j = next_index(n, i);
    lemma_next_index(n, i);
    let q = shift(ps, d);
    assert(fits(ps[i].x + d.x) && fits(ps[i].y + d.y));
    assert(fits(ps[j].x + d.x) && fits(ps[j].y + d.y));
    let xi: int = ps[i].x as int;
    let yi: int = ps[i].y as int;
    let xj: int = ps[j].x as int;
    let yj: int = ps[j].y as int;
    let dx: int = d.x as int;
    let dy: int = d.y as int;
    assert(q[i].x == xi + dx && q[i].y == yi + dy);
    assert(q[j].x == xj + dx && q[j].y == yj + dy);
    lemma_moved_cross(xi, yi, xj, yj, dx, dy);
}

proof fn lemma_shift_sums(ps: Seq<Vec2>, d: Vec2, k: int)
    requires
        0 <= k < ps.len(),
        shift_fits(ps, d),
    ensures
        cross_sum(shift(ps, d), k) == cross_sum(ps, k) + d.y * (ps[0].x - ps[k].x) + d.x * (ps[k].y - ps[0].y),
        path_sum(shift(ps, d), k) == path_sum(ps, k),
    decreases k,
{
    let q = shift(ps, d);
    if k > 0 {
        lemma_shift_sums(ps, d, k - 1);
        lemma_shift_term(ps, d, k - 1);
        lemma_next_index(ps.len() as int, k - 1);
        assert(cross_sum(q, k) == cross_sum(q, k - 1) + cross_term(q, k - 1));
        assert(cross_sum(ps, k) == cross_sum(ps, k - 1) + cross_term(ps, k - 1));
        let x0: int = ps[0].x as int;
        let y0: int = ps[0].y as int;
        let xa: int = ps[k - 1].x as int;
        let ya: int = ps[k - 1].y as int;
        let xb: int = ps[k].x as int;
        let yb: int = ps[k].y as int;
        let dx: int = d.x as int;
        let dy: int = d.y as int;
        assert(dy * (x0 - xa) + dx * (ya - y0) + dy * (xa - xb) + dx * (yb - ya) == dy * (x0 - xb) + dx * (yb - y0))
            by (nonlinear_arith);
    } else {
        assert(d.y * (ps[0].x - ps[0].x) == 0) by (nonlinear_arith);
        assert(d.x * (ps[0].y - ps[0].y) == 0) by (nonlinear_arith);
    }
}

/// The shoelace area, the outline's length and the dug count do not change
/// when every corner moves by the same amount.
pub proof fn lemma_shoelace_translation(ps: Seq<Vec2>, d: Vec2)
    requires
        ps.len() > 0,
        shift_fits(ps, d),
    ensures
        shoelace_spec(shift(ps, d)) == shoelace_spec(ps),
{
    let n = ps.len() as int;
    let q = shift(ps, d);
    lemma_shift_sums(ps, d, n - 1);
    lemma_shift_term(ps, d, n - 1);
    lemma_next_index(n, n - 1);
    assert(cross_sum(q, n) == cross_sum(q, n - 1) + cross_term(q, n - 1));
    assert(cross_sum(ps, n) == cross_sum(ps, n - 1) + cross_term(ps, n - 1));
    let x0: int = ps[0].x as int;
    let y0: int = ps[0].y as int;
    let xl: int = ps[n - 1].x as int;
    let yl: int = ps[n - 1].y as int;
    let dx: int = d.x as int;
    let dy: int = d.y as int;
    assert(dy * (x0 - xl) + dx * (yl - y0) + dy * (xl - x0) + dx * (y0 - yl) == 0) by (nonlinear_arith);
    assert(q.len() == n);
}

/// The area of the polygon with corners `points` by the shoelace formula,
/// with the length of its outline and the count of dug cells; `None` when a
/// step of the sums does not fit in `i64`.
pub fn shoelace(points: &Vec<Vec2>) -> (r: Option<(i64, i64, i64)>)
    ensures
        match r {
            Some((a, l, t)) => cross_fits(points@) && path_fits(points@) && fits(shoelace_spec(points@).2)
                && (a as int, l as int, t as int) == shoelace_spec(points@),
            None => !(cross_fits(points@) && path_fits(points@) && fits(shoelace_spec(points@).2)),
        },
{
    let n = points.len();
    let ghost ps = points@;
    let mut sum: i64 = 0;
    let mut i: usize = 0;
    while i < n
        invariant
            i <= n,
            n == ps.len(),
            ps == points@,
            sum == cross_sum(ps, i as int),
            forall|t: int| 0 <= t < i ==> #[trigger] cross_ok(ps, t),
            forall|k: int| 0 <= k <= i ==> fits(#[trigger] cross_sum(ps, k)),
        decreases n - i,
    {
        let j = (i + 1) % n;
        assert(j == next_index(n as int, i as int));
        let a = match points[i].x.checked_mul(points[j].y) {
            Some(v) => v,
            None => {
                proof {
                    lemma_cross_breaks(ps, i as int);
                }
                return None;
            },
        };
        let b = match points[j].x.checked_mul(points[i].y) {
            Some(v) => v,
            None => {
                proof {
                    lemma_cross_breaks(ps, i as int);
                }
                return None;
            },
        };
        let d = match a.checked_sub(b) {
            Some(v) => v,
            None => {
                proof {
                    lemma_cross_breaks(ps, i as int);
                }
                return None;
            },
        };
        assert(d == cross_term(ps, i as int));
        assert(cross_ok(ps, i as int));
        match sum.checked_add(d) {
            Some(v) => {
                sum = v;
            },
            None => {
                assert(!fits(cross_sum(ps, i + 1)));
                return None;
            },
        }
        i = i + 1;
    }
    if sum == i64::MIN {
        return None;
    }
    assert(cross_fits(ps));
    let result = (if sum < 0 { -sum } else { sum }) / 2;
    let mut pathlen: i64 = 0;
    let mut i: usize = 0;
    while i < n
        invariant
            i <= n,
            n == ps.len(),
            ps == points@,
            cross_fits(ps),
            pathlen == path_sum(ps, i as int),
            0 <= pathlen,
            forall|t: int| 0 <= t < i ==> #[trigger] edge_ok(ps, t),
            forall|k: int| 0 <= k <= i ==> fits(#[trigger] path_sum(ps, k)),
        decreases n - i,
    {
        let j = (i + 1) % n;
        assert(j == next_index(n as int, i as int));
        let dx = match points[i].x.checked_sub(points[j].x) {
            Some(v) => v,
            None => {
                proof {
                    lemma_path_breaks(ps, i as int);
                }
                return None;
            },
        };
        if dx == i64::MIN {
            proof {
                lemma_path_breaks(ps, i as int);
            }
            return None;
        }
        let dy = match points[i].y.checked_sub(points[j].y) {
            Some(v) => v,
            None => {
                proof {
                    lemma_path_breaks(ps, i as int);
                }
                return None;
            },
        };
        if dy == i64::MIN {
            proof {
                lemma_path_breaks(ps, i as int);
            }
            return None;
        }
        let ax = if dx < 0 { -dx } else { dx };
        let ay = if dy < 0 { -dy } else { dy };
        let e = match ax.checked_add(ay) {
            Some(v) => v,
            None => {
                proof {
                    lemma_path_breaks(ps, i as int);
                }
                return None;
            },
        };
        assert(e == edge_len(ps, i as int));
        assert(edge_ok(ps, i as int));
        match pathlen.checked_add(e) {
            Some(v) => {
                pathlen = v;
            },
            None => {
                assert(!fits(path_sum(ps, i + 1)));
                return None;
            },
        }
        i = i + 1;
    }
    assert(path_fits(ps));
    let total = match result.checked_add(pathlen / 2) {
        Some(v) => match v.checked_add(1) {
            Some(w) => w,
            None => {
                return None;
            },
        },
        None => {
            return None;
        },
    };
    Some((result, pathlen, total))
}

/// The lowest corner of the first `k` spans' starts, and the origin.
pub open spec fn span_min(spans: Seq<Span>, k: int) -> (int, int)
    decreases k,
{
    if k <= 0 {
        (0, 0)
    } else {
        let (x, y) = span_min(spans, k - 1);
        (if spans[k - 1].start.x < x { spans[k - 1].start.x as int } else { x }, if spans[k - 1].start.y < y {
            spans[k - 1].start.y as int
        } else {
            y
        })
    }
}

/// The highest corner of the first `k` spans' ends, and the origin.
pub open spec fn span_max(spans: Seq<Span>, k: int) -> (int, int)
    decreases k,
{
    if k <= 0 {
        (0, 0)
    } else {
        let (x, y) = span_max(spans, k - 1);
        (if spans[k - 1].end.x > x { spans[k - 1].end.x as int } else { x }, if spans[k - 1].end.y > y {
            spans[k - 1].end.y as int
        } else {
            y
        })
    }
}

/// Span `s` covers the point `(x, y)`.
pub open spec fn covers(s: Span, x: int, y: int) -> bool {
    s.start.x <= x <= s.end.x && s.start.y <= y <= s.end.y
}

/// The picture of the spans: a grid from the lowest to the highest corner
/// (the origin included), `#` where a span covers the cell and `.` elsewhere.
pub open spec fn span_picture(spans: Seq<Span>) -> Seq<Seq<char>> {
    let (mx, my) = span_min(spans, spans.len() as int);
    let (hx, hy) = span_max(spans, spans.len() as int);
    Seq::new(
        (hy - my + 1) as nat,
        |r: int|
            Seq::new(
                (hx - mx + 1) as nat,
                |c: int|
                    if exists|k: int| 0 <= k < spans.len() && covers(spans[k], mx + c, my + r) {
                        '#'
                    } else {
                        '.'
                    },
            ),
    )
}

proof fn lemma_span_bounds(spans: Seq<Span>, k: int, j: int)
    requires
        0 <= j < k <= spans.len(),
    ensures
        span_min(spans, k).0 <= spans[j].start.x,
        span_min(spans, k).1 <= spans[j].start.y,
        span_max(spans, k).0 >= spans[j].end.x,
        span_max(spans, k).1 >= spans[j].end.y,
    decreases k,
{
    if j < k - 1 {
        lemma_span_bounds(spans, k - 1, j);
    }
}

proof fn lemma_span_origin(spans: Seq<Span>, k: int)
    ensures
        span_min(spans, k).0 <= 0,
        span_min(spans, k).1 <= 0,
        span_max(spans, k).0 >= 0,
        span_max(spans, k).1 >= 0,
        i64::MIN <= span_min(spans, k).0,
        i64::MIN <= span_min(spans, k).1,
        span_max(spans, k).0 <= i64::MAX,
        span_max(spans, k).1 <= i64::MAX,
    decreases k,
{
    if k > 0 {
        lemma_span_origin(spans, k - 1);
    }
}

/// The picture of the spans (see `span_picture`); `None` where its width or
/// height does not fit in an `i64` or a `usize`.
pub fn span_map(spans: &Vec<Span>) -> (r: Option<Vec<Vec<char>>>)
    ensures
        match r {
            Some(m) => rows(m@) == span_picture(spans@),
            None => span_max(spans@, spans@.len() as int).0 - span_min(spans@, spans@.len() as int).0 + 1 > i64::MAX
                || span_max(spans@, spans@.len() as int).1 - span_min(spans@, spans@.len() as int).1 + 1 > i64::MAX
                || span_max(spans@, spans@.len() as int).0 - span_min(spans@, spans@.len() as int).0 + 1 > usize::MAX
                || span_max(spans@, spans@.len() as int).1 - span_min(spans@, spans@.len() as int).1 + 1 > usize::MAX,
        },
{
    let ghost sv = spans@;
    let n = spans.len();
    let mut minx: i64 = 0;
    let mut miny: i64 = 0;
    let mut maxx: i64 = 0;
    let mut maxy: i64 = 0;
    let mut k: usize = 0;
    while k < n
        invariant
            k <= n,
            n == sv.len(),
            sv == spans@,
            (minx as int, miny as int) == span_min(sv, k as int),
            (maxx as int, maxy as int) == span_max(sv, k as int),
        decreases n - k,
    {
        let s = spans[k];
        if s.start.x < minx {
            minx = s.start.x;
        }
        if s.start.y < miny {
            miny = s.start.y;
        }
        if s.end.x > maxx {
            maxx = s.end.x;
        }
        if s.end.y > maxy {
            maxy = s.end.y;
        }
        k = k + 1;
    }
    proof {
        lemma_span_origin(sv, n as int);
    }
    // width and height, as in the picture
    let wx: i128 = maxx as i128 - minx as i128 + 1;
    let hy: i128 = maxy as i128 - miny as i128 + 1;
    if wx > 0x7fff_ffff_ffff_ffff || hy > 0x7fff_ffff_ffff_ffff {
        return None;
    }
    if wx as u128 > usize::MAX as u128 || hy as u128 > usize::MAX as u128 {
        return None;
    }
    let width = wx as usize;
    let height = hy as usize;
    let mut map: Vec<Vec<char>> = Vec::new();
    let mut r: usize = 0;
    while r < height
        invariant
            r <= height,
            map@.len() == r,
            forall|j: int| 0 <= j < r ==> (#[trigger] map@[j])@ == Seq::new(width as nat, |c: int| '.'),
        decreases height - r,
    {
        let mut row: Vec<char> = Vec::new();
        let mut c: usize = 0;
        while c < width
            invariant
                c <= width,
                row@ == Seq::new(c as nat, |i: int| '.'),
            decreases width - c,
        {
            row.push('.');
            assert(row@ =~= Seq::new((c + 1) as nat, |i: int| '.'));
            c = c + 1;
        }
        map.push(row);
        r = r + 1;
    }
    let ghost mx = minx as int;
    let ghost my = miny as int;
    // paint the spans, one after another
    let mut k: usize = 0;
    while k < n
        invariant
            k <= n,
            n == sv.len(),
            sv == spans@,
            mx == minx,
            my == miny,
            (minx as int, miny as int) == span_min(sv, n as int),
            (maxx as int, maxy as int) == span_max(sv, n as int),
            width == maxx - minx + 1,
            height == maxy - miny + 1,
            minx <= 0,
            miny <= 0,
            maxx - minx + 1 <= i64::MAX,
            maxy - miny + 1 <= i64::MAX,
            map@.len() == height,
            forall|j: int| 0 <= j < height ==> (#[trigger] map@[j])@.len() == width,
            forall|rr: int, cc: int| 0 <= rr < height && 0 <= cc < width ==> #[trigger] map@[rr]@[cc] == '#' || map@[rr]@[cc] == '.',
            forall|rr: int, cc: int|
                0 <= rr < height && 0 <= cc < width ==> (#[trigger] map@[rr]@[cc] == '#' <==> exists|q: int|
                    0 <= q < k && covers(sv[q], mx + cc, my + rr)),
        decreases n - k,
    {
        let s = spans[k];
        proof {
            lemma_span_bounds(sv, n as int, k as int);
        }
        let xe = s.end.x + 1;
        let ye = s.end.y + 1;
        let mut x: i64 = s.start.x;
        while x < xe
            invariant
                k < n,
                n == sv.len(),
                sv == spans@,
                s == sv[k as int],
                mx == minx,
                my == miny,
                minx <= s.start.x,
                miny <= s.start.y,
                s.end.x <= maxx,
                s.end.y <= maxy,
                xe == s.end.x + 1,
                ye == s.end.y + 1,
                s.start.x <= x,
                x <= xe || x == s.start.x,
                width == maxx - minx + 1,
                height == maxy - miny + 1,
                minx <= 0,
                miny <= 0,
                maxx - minx + 1 <= i64::MAX,
                maxy - miny + 1 <= i64::MAX,
                map@.len() == height,
                forall|j: int| 0 <= j < height ==> (#[trigger] map@[j])@.len() == width,
                forall|rr: int, cc: int| 0 <= rr < height && 0 <= cc < width ==> #[trigger] map@[rr]@[cc] == '#' || map@[rr]@[cc] == '.',
                forall|rr: int, cc: int|
                    0 <= rr < height && 0 <= cc < width ==> (#[trigger] map@[rr]@[cc] == '#' <==> (exists|q: int|
                        0 <= q < k && covers(sv[q], mx + cc, my + rr)) || (covers(s, mx + cc, my + rr) && mx + cc
                        < x)),
            decreases xe - x,
        {
            let mut y: i64 = s.start.y;
            while y < ye
                invariant
                    k < n,
                    n == sv.len(),
                    s == sv[k as int],
                    mx == minx,
                    my == miny,
                    minx <= s.start.x,
                    miny <= s.start.y,
                    s.end.x <= maxx,
                    s.end.y <= maxy,
                    xe == s.end.x + 1,
                    ye == s.end.y + 1,
                    s.start.x <= x < xe,
                    s.start.y <= y,
                    y <= ye || y == s.start.y,
                    width == maxx - minx + 1,
                    height == maxy - miny + 1,
                    minx <= 0,
                    miny <= 0,
                    maxx - minx + 1 <= i64::MAX,
                    maxy - miny + 1 <= i64::MAX,
                    map@.len() == height,
                    forall|j: int| 0 <= j < height ==> (#[trigger] map@[j])@.len() == width,
                    forall|rr: int, cc: int| 0 <= rr < height && 0 <= cc < width ==> #[trigger] map@[rr]@[cc] == '#' || map@[rr]@[cc] == '.',
                    forall|rr: int, cc: int|
                        0 <= rr < height && 0 <= cc < width ==> (#[trigger] map@[rr]@[cc] == '#' <==> (exists|q: int|
                            0 <= q < k && covers(sv[q], mx + cc, my + rr)) || (covers(s, mx + cc, my + rr) && (mx + cc
                            < x || (mx + cc == x && my + rr < y)))),
                decreases ye - y,
            {
                let ri = (y - miny) as usize;
                let ci = (x - minx) as usize;
                let ghost m0 = map@;
                let mut row: Vec<char> = Vec::new();
                std::mem::swap(&mut row, &mut map[ri]);
                row.set(ci, '#');
                std::mem::swap(&mut row, &mut map[ri]);
                proof {
                    assert forall|j: int| 0 <= j < height implies (#[trigger] map@[j])@.len() == width by {
                        if j != ri {
                            assert(map@[j] == m0[j]);
                        }
                    }
                    assert forall|rr: int, cc: int| 0 <= rr < height && 0 <= cc < width implies (#[trigger] map@[rr]@[cc]
                        == '#' <==> (exists|q: int| 0 <= q < k && covers(sv[q], mx + cc, my + rr)) || (covers(
                        s,
                        mx + cc,
                        my + rr,
                    ) && (mx + cc < x || (mx + cc == x && my + rr < y + 1)))) by {
                        if rr == ri && cc == ci {
                        } else if rr == ri {
                            assert(map@[rr]@[cc] == m0[rr]@[cc]);
                        } else {
                            assert(map@[rr] == m0[rr]);
                        }
                    }
                    assert forall|rr: int, cc: int| 0 <= rr < height && 0 <= cc < width implies #[trigger] map@[rr]@[cc]
                        == '#' || map@[rr]@[cc] == '.' by {
                        if rr == ri && cc == ci {
                        } else if rr == ri {
                            assert(map@[rr]@[cc] == m0[rr]@[cc]);
                        } else {
                            assert(map@[rr] == m0[rr]);
                        }
                    }
                }
                y = y + 1;
            }
            proof {
                assert forall|rr: int, cc: int| 0 <= rr < height && 0 <= cc < width implies (#[trigger] map@[rr]@[cc]
                    == '#' <==> (exists|q: int| 0 <= q < k && covers(sv[q], mx + cc, my + rr)) || (covers(
                    s,
                    mx + cc,
                    my + rr,
                ) && mx + cc < x + 1)) by {
                }
            }
            x = x + 1;
        }
        proof {
            assert forall|rr: int, cc: int| 0 <= rr < height && 0 <= cc < width implies (#[trigger] map@[rr]@[cc] == '#'
                <==> exists|q: int| 0 <= q < k + 1 && covers(sv[q], mx + cc, my + rr)) by {
                if covers(s, mx + cc, my + rr) {
                    assert(0 <= k < k + 1 && covers(sv[k as int], mx + cc, my + rr));
                }
                if exists|q: int| 0 <= q < k + 1 && covers(sv[q], mx + cc, my + rr) {
                    let q = choose|q: int| 0 <= q < k + 1 && covers(sv[q], mx + cc, my + rr);
                    if q < k {
                        assert(exists|q2: int| 0 <= q2 < k && covers(sv[q2], mx + cc, my + rr));
                    }
                }
            }
        }
        k = k + 1;
    }
    proof {
        let pic = span_picture(sv);
        assert(span_min(sv, sv.len() as int) == (mx, my));
        assert(pic.len() == height);
        assert forall|rr: int| 0 <= rr < height implies #[trigger] rows(map@)[rr] =~= pic[rr] by {
            assert(rows(map@)[rr] == map@[rr]@);
            assert(pic[rr].len() == width);
            assert forall|cc: int| 0 <= cc < width implies map@[rr]@[cc] == pic[rr][cc] by {
                assert(map@[rr]@[cc] == '#' <==> exists|q: int| 0 <= q < n && covers(sv[q], mx + cc, my + rr));
                assert(pic[rr][cc] == if exists|q: int| 0 <= q < sv.len() && covers(sv[q], mx + cc, my + rr) {
                    '#'
                } else {
                    '.'
                });
                assert(map@[rr]@[cc] == '#' || map@[rr]@[cc] == '.');
            }
        }
        assert(rows(map@) =~= pic);
    }
    Some(map)
}

} // verus!
