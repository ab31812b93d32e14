//! Parabolic reflector dish: round rocks roll across a platform until they
//! meet a cube rock, another round rock or the edge; spin the platform (tilt
//! north, west, south, east) until it repeats, and read the load on the
//! north beams after a billion spins.
use vstd::prelude::*;
use crate::text::{chars_of, lines, lines_spec, rows};

verus! {

/// A direction to tilt the platform in.
#[derive(Debug, Clone, Copy, PartialEq, Eq, Structural)]
pub enum Direction {
    North,
    East,
    South,
    West,
}

/// What a position of the platform holds.
#[derive(Debug, Clone, Copy, PartialEq, Eq, Structural)]
pub enum Item {
    Empty,
    Moving,
    Fixed,
}

/// The item a character shows: `.` empty, `#` a cube rock, `O` a round rock.
pub open spec fn item_of(c: char) -> Item {
    if c == '.' {
        Item::Empty
    } else if c == '#' {
        Item::Fixed
    } else {
        Item::Moving
    }
}

/// The character is one of `.`, `#` and `O`.
pub open spec fn item_char(c: char) -> bool {
    c == '.' || c == '#' || c == 'O'
}

/// The character that shows an item.
pub open spec fn char_of_item(i: Item) -> char {
    match i {
        Item::Empty => '.',
        Item::Fixed => '#',
        Item::Moving => 'O',
    }
}

impl Item {
    /// The item a character shows.
    pub fn from_char(c: char) -> (i: Item)
        requires
            item_char(c),
        ensures
            i == item_of(c),
    {
        match c {
            '.' => Item::Empty,
            '#' => Item::Fixed,
            _ => Item::Moving,
        }
    }
}

/// Where a round rock at `j` stops rolling towards the start of the line:
/// just after the nearest non-empty position before it, or at the start.
pub open spec fn stop_start(c: Seq<Item>, j: int) -> int
    decreases j,
{
    if j <= 0 || c[j - 1] != Item::Empty {
        j
    } else {
        stop_start(c, j - 1)
    }
}

/// Where a round rock at `j` stops rolling towards the end of the line.
pub open spec fn stop_end(c: Seq<Item>, j: int) -> int
    decreases c.len() - j,
{
    if j >= c.len() - 1 || j < 0 || c[j + 1] != Item::Empty {
        j
    } else {
        stop_end(c, j + 1)
    }
}

/// The line after the item at `j`, if a round rock, rolls to the start.
pub open spec fn roll_step_start(c: Seq<Item>, j: int) -> Seq<Item> {
    if 0 <= j < c.len() && c[j] == Item::Moving {
        c.update(j, Item::Empty).update(stop_start(c, j), Item::Moving)
    } else {
        c
    }
}

/// The line after the item at `j`, if a round rock, rolls to the end.
pub open spec fn roll_step_end(c: Seq<Item>, j: int) -> Seq<Item> {
    if 0 <= j < c.len() && c[j] == Item::Moving {
        c.update(j, Item::Empty).update(stop_end(c, j), Item::Moving)
    } else {
        c
    }
}

/// The line after the first `k` positions, from the start, roll to the start.
pub open spec fn roll_start_upto(c: Seq<Item>, k: int) -> Seq<Item>
    decreases k,
{
    if k <= 0 {
        c
    } else {
        roll_step_start(roll_start_upto(c, k - 1), k - 1)
    }
}

/// The line after the last `k` positions, from the end, roll to the end.
pub open spec fn roll_end_upto(c: Seq<Item>, k: int) -> Seq<Item>
    decreases k,
{
    if k <= 0 {
        c
    } else {
        roll_step_end(roll_end_upto(c, k - 1), c.len() - k)
    }
}

/// The line with every round rock rolled towards its start, nearest first.
pub open spec fn roll_start(c: Seq<Item>) -> Seq<Item> {
    roll_start_upto(c, c.len() as int)
}

/// The line with every round rock rolled towards its end, nearest first.
pub open spec fn roll_end(c: Seq<Item>) -> Seq<Item> {
    roll_end_upto(c, c.len() as int)
}

proof fn lemma_stop_start(c: Seq<Item>, j: int)
    requires
        0 <= j < c.len(),
    ensures
        0 <= stop_start(c, j) <= j,
        forall|k: int| stop_start(c, j) <= k < j ==> c[k] == Item::Empty,
        stop_start(c, j) > 0 ==> c[stop_start(c, j) - 1] != Item::Empty,
    decreases j,
{
    if j > 0 && c[j - 1] == Item::Empty {
        lemma_stop_start(c, j - 1);
    }
}

proof fn lemma_stop_end(c: Seq<Item>, j: int)
    requires
        0 <= j < c.len(),
    ensures
        j <= stop_end(c, j) < c.len(),
        forall|k: int| j < k <= stop_end(c, j) ==> c[k] == Item::Empty,
        stop_end(c, j) < c.len() - 1 ==> c[stop_end(c, j) + 1] != Item::Empty,
    decreases c.len() - j,
{
    if j < c.len() - 1 && c[j + 1] == Item::Empty {
        lemma_stop_end(c, j + 1);
    }
}

/// Rolls the item at `j`, if a round rock, to the start of the line.
fn roll_one_start(line: &mut Vec<Item>, j: usize)
    requires
        j < old(line)@.len(),
    ensures
        final(line)@ == roll_step_start(old(line)@, j as int),
{
    if line[j] != Item::Moving || j == 0 {
        return;
    }
    let ghost c = line@;
    proof {
        lemma_stop_start(c, j as int);
    }
    let mut mj: usize = j - 1;
    loop
        invariant
            mj < j,
            j < c.len(),
            c == old(line)@,
            c[j as int] == Item::Moving,
            0 <= stop_start(c, j as int) <= mj + 1,
            forall|k: int| mj < k < j ==> c[k] == Item::Empty,
            forall|k: int| stop_start(c, j as int) <= k < j ==> c[k] == Item::Empty,
            stop_start(c, j as int) > 0 ==> c[stop_start(c, j as int) - 1] != Item::Empty,
            line@ == c.update(j as int, Item::Empty).update(mj + 1, Item::Moving),
        decreases mj,
    {
        if line[mj] != Item::Empty {
            proof {
                assert(line@[mj as int] == c[mj as int]);
                assert(stop_start(c, j as int) == mj + 1);
            }
            return;
        }
        assert(line@[mj as int] == c[mj as int]);
        assert(c[mj as int] == Item::Empty);
        line.set(mj + 1, Item::Empty);
        line.set(mj, Item::Moving);
        assert(line@ =~= c.update(j as int, Item::Empty).update(mj as int, Item::Moving));
        if mj == 0 {
            assert(stop_start(c, j as int) == 0);
            return;
        }
        mj = mj - 1;
    }
}

/// Rolls the item at `j`, if a round rock, to the end of the line.
fn roll_one_end(line: &mut Vec<Item>, j: usize)
    requires
        j < old(line)@.len(),
    ensures
        final(line)@ == roll_step_end(old(line)@, j as int),
{
    let n = line.len();
    if line[j] != Item::Moving || j == n - 1 {
        return;
    }
    let ghost c = line@;
    proof {
        lemma_stop_end(c, j as int);
    }
    let mut mj: usize = j + 1;
    loop
        invariant
            j < mj < n,
            n == c.len(),
            c == old(line)@,
            c[j as int] == Item::Moving,
            mj - 1 <= stop_end(c, j as int),
            forall|k: int| j < k < mj ==> c[k] == Item::Empty,
            forall|k: int| j < k <= stop_end(c, j as int) ==> c[k] == Item::Empty,
            stop_end(c, j as int) < n - 1 ==> c[stop_end(c, j as int) + 1] != Item::Empty,
            j <= stop_end(c, j as int) < n,
            line@ == c.update(j as int, Item::Empty).update(mj - 1, Item::Moving),
        decreases n - mj,
    {
        assert(line@[mj as int] == c[mj as int]);
        if line[mj] != Item::Empty {
            assert(stop_end(c, j as int) == mj - 1);
            return;
        }
        line.set(mj - 1, Item::Empty);
        line.set(mj, Item::Moving);
        assert(line@ =~= c.update(j as int, Item::Empty).update(mj as int, Item::Moving));
        mj = mj + 1;
        if mj == n {
            assert(stop_end(c, j as int) == n - 1);
            return;
        }
    }
}

/// Rolls every round rock of the line towards its start, nearest first.
pub fn roll_line_start(line: &mut Vec<Item>)
    ensures
        final(line)@ == roll_start(old(line)@),
{
    let n = line.len();
    let mut j: usize = 0;
    while j < n
        invariant
            j <= n,
            n == old(line)@.len(),
            line@ == roll_start_upto(old(line)@, j as int),
            line@.len() == n,
        decreases n - j,
    {
        roll_one_start(line, j);
        proof {
            lemma_roll_len(old(line)@, j + 1);
        }
        j = j + 1;
    }
}

/// Rolls every round rock of the line towards its end, nearest first.
pub fn roll_line_end(line: &mut Vec<Item>)
    ensures
        final(line)@ == roll_end(old(line)@),
{
    let n = line.len();
    let mut k: usize = 0;
    while k < n
        invariant
            k <= n,
            n == old(line)@.len(),
            line@ == roll_end_upto(old(line)@, k as int),
            line@.len() == n,
        decreases n - k,
    {
        roll_one_end(line, n - 1 - k);
        proof {
            lemma_roll_len(old(line)@, k + 1);
        }
        k = k + 1;
    }
}

proof fn lemma_roll_len(c: Seq<Item>, k: int)
    ensures
        roll_start_upto(c, k).len() == c.len(),
        roll_end_upto(c, k).len() == c.len(),
    decreases k,
{
    if k > 0 {
        lemma_roll_len(c, k - 1);
        let a = roll_start_upto(c, k - 1);
        if 0 <= k - 1 < a.len() && a[k - 1] == Item::Moving {
            lemma_stop_start(a, k - 1);
        }
        let b = roll_end_upto(c, k - 1);
        if 0 <= c.len() - k < b.len() && b[c.len() - k] == Item::Moving {
            lemma_stop_end(b, c.len() - k);
        }
    }
}

/// The round rock at `k`, if any, rests against the start of the line, a
/// cube rock or another round rock.
pub open spec fn rests_start(c: Seq<Item>, k: int) -> bool {
    c[k] == Item::Moving && k > 0 ==> c[k - 1] != Item::Empty
}

/// The round rock at `k`, if any, rests against the end of the line, a cube
/// rock or another round rock.
pub open spec fn rests_end(c: Seq<Item>, k: int) -> bool {
    c[k] == Item::Moving && k < c.len() - 1 ==> c[k + 1] != Item::Empty
}

/// No round rock of the line can roll any further towards its start.
pub open spec fn settled_start(c: Seq<Item>) -> bool {
    forall|k: int| 0 <= k < c.len() ==> #[trigger] rests_start(c, k)
}

/// No round rock of the line can roll any further towards its end.
pub open spec fn settled_end(c: Seq<Item>) -> bool {
    forall|k: int| 0 <= k < c.len() ==> #[trigger] rests_end(c, k)
}

/// The line holds the same items as `c` (as many empty places, round rocks
/// and cube rocks), with its cube rocks where `c` has them.
pub open spec fn same_rocks(r: Seq<Item>, c: Seq<Item>) -> bool {
    &&& r.len() == c.len()
    &&& r.to_multiset() == c.to_multiset()
    &&& forall|k: int| 0 <= k < c.len() ==> (#[trigger] r[k] == Item::Fixed) == (c[k] == Item::Fixed)
}

proof fn lemma_step_start_keeps(c: Seq<Item>, j: int)
    requires
        0 <= j < c.len(),
    ensures
        same_rocks(roll_step_start(c, j), c),
{
    broadcast use vstd::multiset::group_multiset_axioms, vstd::seq_lib::group_to_multiset_ensures;
    if c[j] == Item::Moving {
        lemma_stop_start(c, j);
        let st = stop_start(c, j);
        let d = c.update(j, Item::Empty);
        let e = d.update(st, Item::Moving);
        if st == j {
            assert(e =~= c);
        } else {
            assert(d[st] == Item::Empty);
            assert(c.to_multiset().count(Item::Moving) > 0) by {
                assert(c.contains(Item::Moving)) by {
                    assert(c[j] == Item::Moving);
                }
            }
            assert(e.to_multiset() =~= c.to_multiset());
        }
    }
}

proof fn lemma_step_end_keeps(c: Seq<Item>, j: int)
    requires
        0 <= j < c.len(),
    ensures
        same_rocks(roll_step_end(c, j), c),
{
    broadcast use vstd::multiset::group_multiset_axioms, vstd::seq_lib::group_to_multiset_ensures;
    if c[j] == Item::Moving {
        lemma_stop_end(c, j);
        let st = stop_end(c, j);
        let d = c.update(j, Item::Empty);
        let e = d.update(st, Item::Moving);
        if st == j {
            assert(e =~= c);
        } else {
            assert(d[st] == Item::Empty);
            assert(c.to_multiset().count(Item::Moving) > 0) by {
                assert(c.contains(Item::Moving)) by {
                    assert(c[j] == Item::Moving);
                }
            }
            assert(e.to_multiset() =~= c.to_multiset());
        }
    }
}

proof fn lemma_same_rocks_trans(a: Seq<Item>, b: Seq<Item>, c: Seq<Item>)
    requires
        same_rocks(a, b),
        same_rocks(b, c),
    ensures
        same_rocks(a, c),
{
    assert forall|k: int| 0 <= k < c.len() implies (#[trigger] a[k] == Item::Fixed) == (c[k] == Item::Fixed) by {
        assert((a[k] == Item::Fixed) == (b[k] == Item::Fixed));
    }
}

proof fn lemma_roll_keeps(c: Seq<Item>, k: int)
    requires
        0 <= k <= c.len(),
    ensures
        same_rocks(roll_start_upto(c, k), c),
        same_rocks(roll_end_upto(c, k), c),
    decreases k,
{
    if k > 0 {
        lemma_roll_keeps(c, k - 1);
        lemma_roll_len(c, k - 1);
        lemma_step_start_keeps(roll_start_upto(c, k - 1), k - 1);
        lemma_same_rocks_trans(roll_start_upto(c, k), roll_start_upto(c, k - 1), c);
        lemma_step_end_keeps(roll_end_upto(c, k - 1), c.len() - k);
        lemma_same_rocks_trans(roll_end_upto(c, k), roll_end_upto(c, k - 1), c);
    }
}

/// Rolling the first `k` positions leaves them settled and the rest as
/// they were.
proof fn lemma_roll_start_settles(c: Seq<Item>, k: int)
    requires
        0 <= k <= c.len(),
    ensures
        forall|i: int| 0 <= i < k ==> #[trigger] rests_start(roll_start_upto(c, k), i),
        forall|i: int| k <= i < c.len() ==> #[trigger] roll_start_upto(c, k)[i] == c[i],
    decreases k,
{
    if k > 0 {
        lemma_roll_start_settles(c, k - 1);
        lemma_roll_len(c, k - 1);
        let r = roll_start_upto(c, k - 1);
        let j = k - 1;
        if r[j] == Item::Moving {
            lemma_stop_start(r, j);
            let st = stop_start(r, j);
            let e = r.update(j, Item::Empty).update(st, Item::Moving);
            assert(roll_start_upto(c, k) == e);
            assert forall|i: int| 0 <= i < k implies #[trigger] rests_start(e, i) by {
                if i < st {
                    assert(rests_start(r, i));
                } else if i > st {
                    assert(e[i] == Item::Empty);
                }
            }
        } else {
            assert forall|i: int| 0 <= i < k implies #[trigger] rests_start(r, i) by {
                if i < j {
                    assert(rests_start(r, i));
                }
            }
        }
    }
}

/// Rolling the last `k` positions leaves them settled and the rest as they
/// were.
proof fn lemma_roll_end_settles(c: Seq<Item>, k: int)
    requires
        0 <= k <= c.len(),
    ensures
        forall|i: int| c.len() - k <= i < c.len() ==> #[trigger] rests_end(roll_end_upto(c, k), i),
        forall|i: int| 0 <= i < c.len() - k ==> #[trigger] roll_end_upto(c, k)[i] == c[i],
    decreases k,
{
    if k > 0 {
        lemma_roll_end_settles(c, k - 1);
        lemma_roll_len(c, k - 1);
        let r = roll_end_upto(c, k - 1);
        let j = c.len() - k;
        if r[j] == Item::Moving {
            lemma_stop_end(r, j);
            let st = stop_end(r, j);
            let e = r.update(j, Item::Empty).update(st, Item::Moving);
            assert(roll_end_upto(c, k) == e);
            assert forall|i: int| c.len() - k <= i < c.len() implies #[trigger] rests_end(e, i) by {
                if i > st {
                    assert(rests_end(r, i));
                } else if i < st {
                    assert(e[i] == Item::Empty);
                }
            }
        } else {
            assert forall|i: int| c.len() - k <= i < c.len() implies #[trigger] rests_end(r, i) by {
                if i > j {
                    assert(rests_end(r, i));
                }
            }
        }
    }
}

/// A settled line does not change when rolled again.
proof fn lemma_settled_stays(c: Seq<Item>, k: int)
    requires
        0 <= k <= c.len(),
    ensures
        settled_start(c) ==> roll_start_upto(c, k) == c,
        settled_end(c) ==> roll_end_upto(c, k) == c,
    decreases k,
{
    if k > 0 {
        lemma_settled_stays(c, k - 1);
        if settled_start(c) {
            let j = k - 1;
            assert(rests_start(c, j));
            if c[j] == Item::Moving {
                assert(stop_start(c, j) == j);
                assert(c.update(j, Item::Empty).update(j, Item::Moving) =~= c);
            }
        }
        if settled_end(c) {
            let j = c.len() - k;
            assert(rests_end(c, j));
            if c[j] == Item::Moving {
                assert(stop_end(c, j) == j);
                assert(c.update(j, Item::Empty).update(j, Item::Moving) =~= c);
            }
        }
    }
}

/// Rolling a line keeps its cube rocks in place and loses or adds no rock;
/// afterwards no round rock can roll any further, so rolling again changes
/// nothing.
pub proof fn lemma_roll_line(c: Seq<Item>)
    ensures
        same_rocks(roll_start(c), c),
        same_rocks(roll_end(c), c),
        settled_start(roll_start(c)),
        settled_end(roll_end(c)),
        roll_start(roll_start(c)) == roll_start(c),
        roll_end(roll_end(c)) == roll_end(c),
{
    let n = c.len() as int;
    lemma_roll_keeps(c, n);
    lemma_roll_start_settles(c, n);
    lemma_roll_end_settles(c, n);
    lemma_settled_stays(roll_start(c), n);
    lemma_settled_stays(roll_end(c), n);
}

/// Rolls the round rocks among the first `w` items of the row, towards the
/// row's start (`west`) or towards position `w - 1`, leaving the rest.
fn roll_row_prefix(row: &mut Vec<Item>, w: usize, west: bool)
    requires
        w <= old(row)@.len(),
    ensures
        final(row)@ == (if west { roll_start(old(row)@.take(w as int)) } else { roll_end(old(row)@.take(w as int)) })
            + old(row)@.skip(w as int),
{
    let ghost o = row@;
    let mut pre: Vec<Item> = Vec::new();
    let mut k: usize = 0;
    while k < w
        invariant
            k <= w,
            w <= o.len(),
            row@ == o,
            pre@ == o.take(k as int),
        decreases w - k,
    {
        pre.push(row[k]);
        assert(pre@ =~= o.take(k + 1));
        k = k + 1;
    }
    assert(pre@ =~= o.take(w as int));
    if west {
        roll_line_start(&mut pre);
    } else {
        roll_line_end(&mut pre);
    }
    proof {
        lemma_roll_len(o.take(w as int), w as int);
    }
    let ghost r = pre@;
    let mut k: usize = 0;
    while k < w
        invariant
            k <= w,
            w <= o.len(),
            pre@ == r,
            r.len() == w,
            row@.len() == o.len(),
            forall|t: int| 0 <= t < k ==> row@[t] == r[t],
            forall|t: int| k <= t < o.len() ==> row@[t] == o[t],
        decreases w - k,
    {
        row.set(k, pre[k]);
        k = k + 1;
    }
    assert(row@ =~= r + o.skip(w as int));
}

/// The rows of items as plain values.
pub open spec fn grid_of(v: Seq<Vec<Item>>) -> Seq<Seq<Item>> {
    v.map_values(|r: Vec<Item>| r@)
}

/// The platform has a first row and no row is shorter than the first.
pub open spec fn wide_rows(g: Seq<Seq<Item>>) -> bool {
    &&& g.len() > 0
    &&& forall|y: int| 0 <= y < g.len() ==> (#[trigger] g[y]).len() >= g[0].len()
}

/// Column `x` of the platform, from north to south.
pub open spec fn column(g: Seq<Seq<Item>>, x: int) -> Seq<Item> {
    Seq::new(g.len(), |y: int| g[y][x])
}

/// The platform after tilting it in direction `dir`: within the first
/// row's width, every round rock rolls that way, those nearest that side
/// first, until it meets a cube rock, another round rock or the edge of
/// that width; what lies beyond it stays.
pub open spec fn tilt_spec(g: Seq<Seq<Item>>, dir: Direction) -> Seq<Seq<Item>> {
    let w = g[0].len() as int;
    match dir {
        Direction::North => Seq::new(g.len(), |y: int| Seq::new(g[y].len(), |x: int| if x < w { roll_start(column(g, x))[y] } else { g[y][x] })),
        Direction::South => Seq::new(g.len(), |y: int| Seq::new(g[y].len(), |x: int| if x < w { roll_end(column(g, x))[y] } else { g[y][x] })),
        Direction::West => Seq::new(g.len(), |y: int| roll_start(g[y].take(w)) + g[y].skip(w)),
        Direction::East => Seq::new(g.len(), |y: int| roll_end(g[y].take(w)) + g[y].skip(w)),
    }
}

/// Tilting keeps the platform's shape and its cube rocks in place, and
/// moves round rocks only along the tilt and within the first row's width:
/// each column of that width (tilting north or south) or each row's part
/// within that width (west or east) keeps its items, and what lies beyond
/// the width stays. Tilting the same way again changes nothing.
pub proof fn lemma_tilt(g: Seq<Seq<Item>>, dir: Direction)
    requires
        wide_rows(g),
    ensures
        wide_rows(tilt_spec(g, dir)),
        tilt_spec(g, dir).len() == g.len(),
        forall|y: int| 0 <= y < g.len() ==> (#[trigger] tilt_spec(g, dir)[y]).len() == g[y].len(),
        forall|y: int, x: int| 0 <= y < g.len() && 0 <= x < g[y].len() ==> (#[trigger] tilt_spec(g, dir)[y][x] == Item::Fixed) == (g[y][x] == Item::Fixed),
        forall|y: int, x: int| 0 <= y < g.len() && g[0].len() <= x < g[y].len() ==> #[trigger] tilt_spec(g, dir)[y][x] == g[y][x],
        dir == Direction::North || dir == Direction::South ==> forall|x: int| 0 <= x < g[0].len() ==> (#[trigger] column(tilt_spec(g, dir), x)).to_multiset() == column(g, x).to_multiset(),
        dir == Direction::West || dir == Direction::East ==> forall|y: int| 0 <= y < g.len() ==> (#[trigger] tilt_spec(g, dir)[y]).take(g[0].len() as int).to_multiset() == g[y].take(g[0].len() as int).to_multiset(),
        tilt_spec(tilt_spec(g, dir), dir) == tilt_spec(g, dir),
{
    let t = tilt_spec(g, dir);
    let n = g.len() as int;
    let w = g[0].len() as int;
    if dir == Direction::North || dir == Direction::South {
        assert forall|x: int| 0 <= x < w implies #[trigger] column(t, x) == (if dir == Direction::North { roll_start(column(g, x)) } else { roll_end(column(g, x)) }) by {
            lemma_roll_len(column(g, x), n);
            assert forall|y: int| 0 <= y < n implies #[trigger] column(t, x)[y] == (if dir == Direction::North { roll_start(column(g, x)) } else { roll_end(column(g, x)) })[y] by {
                assert(g[y].len() >= w);
            }
            assert(column(t, x) =~= (if dir == Direction::North { roll_start(column(g, x)) } else { roll_end(column(g, x)) }));
        }
        assert(t[0].len() == w);
        assert forall|x: int| 0 <= x < w implies (#[trigger] column(t, x)).to_multiset() == column(g, x).to_multiset() by {
            lemma_roll_line(column(g, x));
        }
        assert forall|y: int, x: int| 0 <= y < n && 0 <= x < g[y].len() implies (#[trigger] t[y][x] == Item::Fixed) == (g[y][x] == Item::Fixed) by {
            if x < w {
                lemma_roll_line(column(g, x));
                assert(column(t, x)[y] == t[y][x]);
                assert(column(g, x)[y] == g[y][x]);
            }
        }
        assert forall|y: int| 0 <= y < n implies #[trigger] tilt_spec(t, dir)[y] == t[y] by {
            assert forall|x: int| 0 <= x < t[y].len() implies #[trigger] tilt_spec(t, dir)[y][x] == t[y][x] by {
                if x < w {
                    lemma_roll_line(column(g, x));
                    assert(column(t, x)[y] == t[y][x]);
                }
            }
            assert(tilt_spec(t, dir)[y] =~= t[y]);
        }
        assert(tilt_spec(t, dir) =~= t);
    } else {
        assert forall|y: int| 0 <= y < n implies (#[trigger] t[y]).len() == g[y].len()
            && t[y].take(w) == (if dir == Direction::West { roll_start(g[y].take(w)) } else { roll_end(g[y].take(w)) })
            && t[y].skip(w) == g[y].skip(w) by {
            assert(g[y].len() >= w);
            lemma_roll_line(g[y].take(w));
            lemma_roll_len(g[y].take(w), w);
            assert(t[y].take(w) =~= (if dir == Direction::West { roll_start(g[y].take(w)) } else { roll_end(g[y].take(w)) }));
            assert(t[y].skip(w) =~= g[y].skip(w));
        }
        assert(t[0].len() == w);
        assert forall|y: int| 0 <= y < n implies (#[trigger] t[y]).take(w).to_multiset() == g[y].take(w).to_multiset() by {
            lemma_roll_line(g[y].take(w));
        }
        assert forall|y: int, x: int| 0 <= y < n && 0 <= x < g[y].len() implies (#[trigger] t[y][x] == Item::Fixed) == (g[y][x] == Item::Fixed) by {
            lemma_roll_line(g[y].take(w));
            if x < w {
                assert(t[y][x] == t[y].take(w)[x]);
                assert(g[y][x] == g[y].take(w)[x]);
            } else {
                assert(t[y][x] == t[y].skip(w)[x - w]);
                assert(g[y][x] == g[y].skip(w)[x - w]);
            }
        }
        assert forall|y: int| 0 <= y < n implies #[trigger] tilt_spec(t, dir)[y] == t[y] by {
            lemma_roll_line(g[y].take(w));
            assert(t[y] =~= t[y].take(w) + t[y].skip(w));
        }
        assert(tilt_spec(t, dir) =~= t);
    }
    assert forall|y: int, x: int| 0 <= y < n && w <= x < g[y].len() implies #[trigger] t[y][x] == g[y][x] by {
        if !(dir == Direction::North || dir == Direction::South) {
            assert(t[y][x] == t[y].skip(w)[x - w]);
            assert(g[y][x] == g[y].skip(w)[x - w]);
        }
    }
}

/// A platform of items, row by row from north to south.
#[derive(Debug, Clone, PartialEq, Eq)]
pub struct Platform {
    pub data: Vec<Vec<Item>>,
}

/// The characters of the items, row after row.
pub open spec fn key_of(g: Seq<Seq<Item>>) -> Seq<char>
    decreases g.len(),
{
    if g.len() == 0 {
        Seq::empty()
    } else {
        key_of(g.drop_last()) + g.last().map_values(|i: Item| char_of_item(i))
    }
}

/// The round rocks in a row.
pub open spec fn rocks(r: Seq<Item>) -> int
    decreases r.len(),
{
    if r.len() == 0 {
        0
    } else {
        rocks(r.drop_last()) + if r.last() == Item::Moving {
            1int
        } else {
            0int
        }
    }
}

/// The load of the first `k` rows on the north beams: each round rock
/// within the first row's width weighs its distance from the south edge,
/// counting its own row.
pub open spec fn load_upto(g: Seq<Seq<Item>>, k: int) -> int
    decreases k,
{
    if k <= 0 {
        0
    } else {
        load_upto(g, k - 1) + (g.len() - (k - 1)) * rocks(g[k - 1].take(g[0].len() as int))
    }
}

/// The load of the platform on the north beams.
pub open spec fn north_load(g: Seq<Seq<Item>>) -> int {
    load_upto(g, g.len() as int)
}

proof fn lemma_rocks_bound(r: Seq<Item>)
    ensures
        0 <= rocks(r) <= r.len(),
    decreases r.len(),
{
    if r.len() > 0 {
        lemma_rocks_bound(r.drop_last());
    }
}

impl Platform {
    /// The platform with these rows.
    pub fn from_vec(data: Vec<Vec<Item>>) -> (p: Platform)
        ensures
            p.data@ == data@,
    {
        Platform { data }
    }

    /// The platform written out as characters, row after row.
    pub fn hashkey(&self) -> (k: Vec<char>)
        ensures
            k@ == key_of(grid_of(self.data@)),
    {
        let mut k: Vec<char> = Vec::new();
        let mut y: usize = 0;
        while y < self.data.len()
            invariant
                y <= self.data@.len(),
                k@ == key_of(grid_of(self.data@).take(y as int)),
            decreases self.data@.len() - y,
        {
            let row = &self.data[y];
            let ghost start = k@;
            let mut x: usize = 0;
            while x < row.len()
                invariant
                    x <= row@.len(),
                    k@ == start + row@.take(x as int).map_values(|i: Item| char_of_item(i)),
                decreases row@.len() - x,
            {
                let c = match row[x] {
                    Item::Empty => '.',
                    Item::Fixed => '#',
                    Item::Moving => 'O',
                };
                k.push(c);
                assert(row@.take(x + 1).map_values(|i: Item| char_of_item(i)) =~= row@.take(x as int).map_values(|i: Item| char_of_item(i)).push(c));
                x = x + 1;
            }
            assert(row@.take(x as int) =~= row@);
            assert(grid_of(self.data@).take(y + 1).drop_last() =~= grid_of(self.data@).take(y as int));
            y = y + 1;
        }
        assert(grid_of(self.data@).take(y as int) =~= grid_of(self.data@));
        k
    }

    /// Tilts the platform so every round rock within the first row's width
    /// rolls in direction `dir` (see `tilt_spec`).
    pub fn tilt(&mut self, dir: Direction)
        requires
            wide_rows(grid_of(old(self).data@)),
        ensures
            grid_of(final(self).data@) == tilt_spec(grid_of(old(self).data@), dir),
            wide_rows(grid_of(final(self).data@)),
    {
        let ghost g = grid_of(self.data@);
        let ghost t = tilt_spec(g, dir);
        let jmax = self.data.len();
        let imax = self.data[0].len();
        assert(g[0] == self.data@[0]@);
        assert forall|y: int| 0 <= y < jmax implies (#[trigger] self.data@[y])@.len() == g[y].len() && g[y].len() >= imax by {
            assert(g[y] == self.data@[y]@);
        }
        if dir == Direction::North || dir == Direction::South {
            let mut i: usize = 0;
            while i < imax
                invariant
                    i <= imax,
                    g.len() == jmax,
                    wide_rows(g),
                    imax == g[0].len(),
                    t == tilt_spec(g, dir),
                    dir == Direction::North || dir == Direction::South,
                    self.data@.len() == jmax,
                    forall|y: int| 0 <= y < jmax ==> (#[trigger] self.data@[y])@.len() == g[y].len() && g[y].len() >= imax,
                    forall|y: int, x: int| 0 <= y < jmax && 0 <= x < g[y].len() ==> #[trigger] self.data@[y]@[x] == if x < i {
                        t[y][x]
                    } else {
                        g[y][x]
                    },
                decreases imax - i,
            {
                let mut col: Vec<Item> = Vec::new();
                let mut j: usize = 0;
                while j < jmax
                    invariant
                        j <= jmax,
                        i < imax,
                        imax == g[0].len(),
                        self.data@.len() == jmax,
                        forall|y: int| 0 <= y < jmax ==> (#[trigger] self.data@[y])@.len() == g[y].len() && g[y].len() >= imax,
                        forall|y: int, x: int| 0 <= y < jmax && 0 <= x < g[y].len() ==> #[trigger] self.data@[y]@[x] == if x < i {
                            t[y][x]
                        } else {
                            g[y][x]
                        },
                        col@ == column(g, i as int).take(j as int),
                        g.len() == jmax,
                    decreases jmax - j,
                {
                    assert(self.data@[j as int]@.len() >= imax);
                    assert(self.data@[j as int]@[i as int] == g[j as int][i as int]);
                    col.push(self.data[j][i]);
                    assert(col@ =~= column(g, i as int).take(j + 1));
                    j = j + 1;
                }
                assert(column(g, i as int).take(j as int) =~= column(g, i as int));
                if dir == Direction::North {
                    roll_line_start(&mut col);
                } else {
                    roll_line_end(&mut col);
                }
                proof {
                    lemma_roll_len(column(g, i as int), jmax as int);
                }
                let mut j: usize = 0;
                while j < jmax
                    invariant
                        j <= jmax,
                        i < imax,
                        self.data@.len() == jmax,
                        col@.len() == jmax,
                        col@ == if dir == Direction::North { roll_start(column(g, i as int)) } else { roll_end(column(g, i as int)) },
                        forall|y: int| 0 <= y < jmax ==> (#[trigger] self.data@[y])@.len() == g[y].len() && g[y].len() >= imax,
                        forall|y: int, x: int| 0 <= y < jmax && 0 <= x < g[y].len() ==> #[trigger] self.data@[y]@[x] == if x < i || (x == i && y < j) {
                            t[y][x]
                        } else {
                            g[y][x]
                        },
                        g.len() == jmax,
                        wide_rows(g),
                        imax == g[0].len(),
                        t == tilt_spec(g, dir),
                        dir == Direction::North || dir == Direction::South,
                    decreases jmax - j,
                {
                    let ghost before = self.data@;
                    let mut row: Vec<Item> = Vec::new();
                    std::mem::swap(&mut row, &mut self.data[j]);
                    row.set(i, col[j]);
                    std::mem::swap(&mut row, &mut self.data[j]);
                    assert forall|y: int, x: int| 0 <= y < jmax && 0 <= x < g[y].len() implies #[trigger] self.data@[y]@[x] == if x < i || (x == i && y < j + 1) {
                        t[y][x]
                    } else {
                        g[y][x]
                    } by {
                        if y != j {
                            assert(self.data@[y] == before[y]);
                        }
                    }
                    j = j + 1;
                }
                i = i + 1;
            }
            proof {
                assert forall|y: int| 0 <= y < jmax implies #[trigger] grid_of(self.data@)[y] == t[y] by {
                    assert forall|x: int| 0 <= x < g[y].len() implies #[trigger] grid_of(self.data@)[y][x] == t[y][x] by {
                        assert(grid_of(self.data@)[y] == self.data@[y]@);
                    }
                    assert(grid_of(self.data@)[y] =~= t[y]);
                }
            }
        } else {
            let mut j: usize = 0;
            while j < jmax
                invariant
                    j <= jmax,
                    g.len() == jmax,
                    wide_rows(g),
                    imax == g[0].len(),
                    t == tilt_spec(g, dir),
                    dir == Direction::West || dir == Direction::East,
                    self.data@.len() == jmax,
                    forall|y: int| 0 <= y < jmax ==> g[y].len() >= imax,
                    forall|y: int| 0 <= y < jmax ==> (#[trigger] self.data@[y])@ == if y < j {
                        t[y]
                    } else {
                        g[y]
                    },
                decreases jmax - j,
            {
                let ghost before = self.data@;
                let mut row: Vec<Item> = Vec::new();
                std::mem::swap(&mut row, &mut self.data[j]);
                roll_row_prefix(&mut row, imax, dir == Direction::West);
                std::mem::swap(&mut row, &mut self.data[j]);
                assert forall|y: int| 0 <= y < jmax implies (#[trigger] self.data@[y])@ == if y < j + 1 {
                    t[y]
                } else {
                    g[y]
                } by {
                    if y != j {
                        assert(self.data@[y] == before[y]);
                    }
                }
                j = j + 1;
            }
            proof {
                assert forall|y: int| 0 <= y < jmax implies #[trigger] grid_of(self.data@)[y] == t[y] by {}
            }
        }
        proof {
            assert(grid_of(self.data@) =~= t);
            lemma_tilt(g, dir);
        }
    }

    /// The load on the north beams; `None` when it does not fit in an `i64`.
    pub fn count_load_north(&self) -> (r: Option<i64>)
        requires
            self.data@.len() < i64::MAX,
            forall|y: int| 0 <= y < self.data@.len() ==> (#[trigger] self.data@[y])@.len() >= self.data@[0]@.len(),
        ensures
            match r {
                Some(v) => v == north_load(grid_of(self.data@)),
                None => north_load(grid_of(self.data@)) > i64::MAX,
            },
    {
        let ghost g = grid_of(self.data@);
        let jmax = self.data.len();
        if jmax == 0 {
            return Some(0);
        }
        let w = self.data[0].len();
        assert(g[0] == self.data@[0]@);
        let mut result: i64 = 0;
        let mut j: usize = 0;
        while j < jmax
            invariant
                j <= jmax,
                jmax == g.len(),
                w == g[0].len(),
                forall|y: int| 0 <= y < jmax ==> (#[trigger] g[y]).len() >= w,
                jmax < i64::MAX,
                g == grid_of(self.data@),
                result == load_upto(g, j as int),
                result >= 0,
            decreases jmax - j,
        {
            let row = &self.data[j];
            assert(g[j as int] == row@);
            let ghost base = result as int;
            let ghost rw = row@.take(w as int);
            let mut i: usize = 0;
            while i < w
                invariant
                    i <= w,
                    w <= row@.len(),
                    rw == row@.take(w as int),
                    j < jmax,
                    jmax == g.len(),
                    jmax < i64::MAX,
                    g == grid_of(self.data@),
                    result == base + (jmax - j) * rocks(row@.take(i as int)),
                    base >= 0,
                    result >= 0,
                    base + (jmax - j) * rocks(rw) == load_upto(g, j + 1),
                decreases w - i,
            {
                assert(row@.take(i + 1).drop_last() =~= row@.take(i as int));
                proof {
                    lemma_rocks_bound(row@.take(i as int));
                    lemma_rocks_prefix(rw, i as int + 1);
                    assert(rw.take(i + 1) =~= row@.take(i + 1));
                    lemma_rocks_bound(row@.take(i + 1));
                }
                if row[i] == Item::Moving {
                    match result.checked_add((jmax - j) as i64) {
                        Some(v) => {
                            result = v;
                        },
                        None => {
                            proof {
                                assert(rocks(row@.take(i + 1)) == rocks(row@.take(i as int)) + 1);
                                assert((jmax - j) * rocks(row@.take(i + 1)) == (jmax - j) * rocks(row@.take(i as int)) + (jmax - j)) by (nonlinear_arith)
                                    requires
                                        rocks(row@.take(i + 1)) == rocks(row@.take(i as int)) + 1,
                                ;
                                assert((jmax - j) * rocks(row@.take(i + 1)) <= (jmax - j) * rocks(rw)) by (nonlinear_arith)
                                    requires
                                        rocks(row@.take(i + 1)) <= rocks(rw),
                                        jmax - j >= 0,
                                ;
                                lemma_load_grows(g, j + 1);
                            }
                            return None;
                        },
                    }
                }
                proof {
                    if row@[i as int] == Item::Moving {
                        assert((jmax - j) * rocks(row@.take(i + 1)) == (jmax - j) * rocks(row@.take(i as int)) + (jmax - j)) by (nonlinear_arith)
                            requires
                                rocks(row@.take(i + 1)) == rocks(row@.take(i as int)) + 1,
                        ;
                    }
                }
                i = i + 1;
            }
            assert(row@.take(i as int) =~= rw);
            j = j + 1;
        }
        Some(result)
    }
}

proof fn lemma_rocks_prefix(r: Seq<Item>, k: int)
    requires
        0 <= k <= r.len(),
    ensures
        rocks(r.take(k)) <= rocks(r),
    decreases r.len() - k,
{
    if k < r.len() {
        lemma_rocks_prefix(r, k + 1);
        assert(r.take(k + 1).drop_last() =~= r.take(k));
    } else {
        assert(r.take(k) =~= r);
    }
}

proof fn lemma_load_grows(g: Seq<Seq<Item>>, k: int)
    requires
        0 <= k <= g.len(),
    ensures
        load_upto(g, k) <= north_load(g),
    decreases g.len() - k,
{
    if k < g.len() {
        lemma_load_grows(g, k + 1);
        lemma_rocks_bound(g[k].take(g[0].len() as int));
        assert((g.len() - k) * rocks(g[k].take(g[0].len() as int)) >= 0) by (nonlinear_arith)
            requires
                g.len() - k > 0,
                rocks(g[k].take(g[0].len() as int)) >= 0,
        ;
    }
}

/// One spin: tilt north, then west, then south, then east.
pub open spec fn spin_spec(g: Seq<Seq<Item>>) -> Seq<Seq<Item>> {
    tilt_spec(tilt_spec(tilt_spec(tilt_spec(g, Direction::North), Direction::West), Direction::South), Direction::East)
}

/// The platform after `k` spins.
pub open spec fn spins(g: Seq<Seq<Item>>, k: int) -> Seq<Seq<Item>>
    decreases k,
{
    if k <= 0 {
        g
    } else {
        spin_spec(spins(g, k - 1))
    }
}

/// The platform after spin `k` (counting from 0).
pub open spec fn after_spin(g: Seq<Seq<Item>>, k: int) -> Seq<Seq<Item>> {
    spins(g, k + 1)
}

/// The number of spins the platform is given.
pub open spec fn spin_total() -> int {
    1_000_000_000
}

/// The first spin at or after `t`, and before `s`, that left the platform as
/// spin `s` left it.
pub open spec fn seen_from(g: Seq<Seq<Item>>, s: int, t: int) -> Option<int>
    decreases s - t,
{
    if t < 0 || t >= s {
        None
    } else if after_spin(g, t) == after_spin(g, s) {
        Some(t)
    } else {
        seen_from(g, s, t + 1)
    }
}

/// The first spin at or after `s` (before the last) that repeats an earlier
/// one, with the earlier one.
pub open spec fn repeat_from(g: Seq<Seq<Item>>, s: int) -> Option<(int, int)>
    decreases spin_total() - s,
{
    if s < 0 || s >= spin_total() {
        None
    } else {
        match seen_from(g, s, 0) {
            Some(t) => Some((s, t)),
            None => repeat_from(g, s + 1),
        }
    }
}

/// The load after a billion spins, found from the first repeat: the spins
/// from the first one repeated onwards come round in a cycle. `None` when no
/// spin repeats, the billionth spin would fall on the cycle's position zero
/// (which is read before the cycle), or a load before the repeat does not
/// fit in an `i64`.
pub open spec fn spin_result(g: Seq<Seq<Item>>) -> Option<int> {
    match repeat_from(g, 0) {
        None => None,
        Some((s, t)) => {
            let ri = (spin_total() - t) % (s - t);
            if !(forall|k: int| 0 <= k < s ==> #[trigger] north_load(after_spin(g, k)) <= i64::MAX) || ri == 0 {
                None
            } else {
                Some(north_load(after_spin(g, t + ri - 1)))
            }
        },
    }
}

fn copy_grid(data: &Vec<Vec<Item>>) -> (r: Vec<Vec<Item>>)
    ensures
        grid_of(r@) == grid_of(data@),
{
    let mut r: Vec<Vec<Item>> = Vec::new();
    let mut y: usize = 0;
    while y < data.len()
        invariant
            y <= data@.len(),
            grid_of(r@) == grid_of(data@).take(y as int),
        decreases data@.len() - y,
    {
        let row = &data[y];
        let mut nr: Vec<Item> = Vec::new();
        let mut x: usize = 0;
        while x < row.len()
            invariant
                x <= row@.len(),
                nr@ == row@.take(x as int),
            decreases row@.len() - x,
        {
            nr.push(row[x]);
            assert(nr@ =~= row@.take(x + 1));
            x = x + 1;
        }
        assert(row@.take(x as int) =~= row@);
        let ghost old_r = r@;
        r.push(nr);
        assert(r@ == old_r.push(nr));
        assert(grid_of(data@)[y as int] == row@);
        assert(grid_of(r@) =~= grid_of(old_r).push(nr@));
        assert(grid_of(r@) =~= grid_of(data@).take(y + 1));
        y = y + 1;
    }
    assert(grid_of(data@).take(y as int) =~= grid_of(data@));
    r
}

fn same_grid(a: &Vec<Vec<Item>>, b: &Vec<Vec<Item>>) -> (r: bool)
    ensures
        r == (grid_of(a@) == grid_of(b@)),
{
    if a.len() != b.len() {
        assert(grid_of(a@).len() != grid_of(b@).len());
        return false;
    }
    let mut y: usize = 0;
    while y < a.len()
        invariant
            y <= a@.len(),
            a@.len() == b@.len(),
            forall|k: int| 0 <= k < y ==> grid_of(a@)[k] == grid_of(b@)[k],
        decreases a@.len() - y,
    {
        let ra = &a[y];
        let rb = &b[y];
        assert(grid_of(a@)[y as int] == ra@);
        assert(grid_of(b@)[y as int] == rb@);
        if ra.len() != rb.len() {
            assert(grid_of(a@)[y as int] != grid_of(b@)[y as int]);
            return false;
        }
        let mut x: usize = 0;
        while x < ra.len()
            invariant
                x <= ra@.len(),
                ra@.len() == rb@.len(),
                y < a@.len(),
                a@.len() == b@.len(),
                grid_of(a@)[y as int] == ra@,
                grid_of(b@)[y as int] == rb@,
                forall|k: int| 0 <= k < x ==> ra@[k] == rb@[k],
            decreases ra@.len() - x,
        {
            if ra[x] != rb[x] {
                assert(ra@[x as int] != rb@[x as int]);
                assert(grid_of(a@)[y as int] != grid_of(b@)[y as int]);
                return false;
            }
            x = x + 1;
        }
        assert(ra@ =~= rb@);
        assert(grid_of(a@)[y as int] == grid_of(b@)[y as int]);
        y = y + 1;
    }
    assert(grid_of(a@) =~= grid_of(b@));
    true
}

/// Spins the platform until it repeats and reads the load on the north
/// beams after a billion spins from the cycle (see `spin_result`).
pub fn spin_load(platform: Platform) -> (r: Option<i64>)
    requires
        wide_rows(grid_of(platform.data@)),
        platform.data@.len() < i64::MAX,
    ensures
        match r {
            Some(v) => spin_result(grid_of(platform.data@)) == Some(v as int),
            None => spin_result(grid_of(platform.data@)) is None,
        },
{
    let ghost g = grid_of(platform.data@);
    let num_spins: usize = 1_000_000_000;
    let mut pf = platform;
    let mut history: Vec<Vec<Vec<Item>>> = Vec::new();
    let mut results: Vec<i64> = Vec::new();
    let mut spin: usize = 0;
    while spin < num_spins
        invariant
            spin <= num_spins,
            num_spins == spin_total(),
            g == grid_of(platform.data@),
            grid_of(pf.data@) == spins(g, spin as int),
            wide_rows(grid_of(pf.data@)),
            pf.data@.len() == g.len(),
            g.len() < i64::MAX,
            history@.len() == spin,
            forall|k: int| 0 <= k < spin ==> grid_of((#[trigger] history@[k])@) == after_spin(g, k),
            results@.len() == spin,
            forall|k: int| 0 <= k < spin ==> (#[trigger] results@[k]) as int == north_load(after_spin(g, k)),
            repeat_from(g, 0) == repeat_from(g, spin as int),
            forall|t: int| 0 <= t < spin ==> #[trigger] seen_from(g, t, 0) is None,
        decreases num_spins - spin,
    {
        pf.tilt(Direction::North);
        pf.tilt(Direction::West);
        pf.tilt(Direction::South);
        pf.tilt(Direction::East);
        assert(grid_of(pf.data@) == after_spin(g, spin as int));
        let mut t: usize = 0;
        let mut found: Option<usize> = None;
        while t < spin
            invariant_except_break
                found is None,
            invariant
                t <= spin,
                history@.len() == spin,
                forall|k: int| 0 <= k < spin ==> grid_of((#[trigger] history@[k])@) == after_spin(g, k),
                grid_of(pf.data@) == after_spin(g, spin as int),
                seen_from(g, spin as int, 0) == seen_from(g, spin as int, t as int),
            ensures
                match found {
                    Some(f) => seen_from(g, spin as int, 0) == Some(f as int) && f < spin,
                    None => seen_from(g, spin as int, 0) is None,
                },
            decreases spin - t,
        {
            if same_grid(&history[t], &pf.data) {
                found = Some(t);
                break;
            }
            t = t + 1;
        }
        match found {
            Some(start) => {
                assert(repeat_from(g, spin as int) == Some((spin as int, start as int)));
                let cycle = results.len() - start;
                let result_index = (num_spins - start) % cycle;
                if result_index == 0 {
                    return None;
                }
                proof {
                    assert forall|k: int| 0 <= k < spin implies #[trigger] north_load(after_spin(g, k)) <= i64::MAX by {
                        assert(results@[k] as int == north_load(after_spin(g, k)));
                    }
                }
                return Some(results[start + result_index - 1]);
            },
            None => {},
        }
        history.push(copy_grid(&pf.data));
        assert forall|y: int| 0 <= y < pf.data@.len() implies (#[trigger] pf.data@[y])@.len() >= pf.data@[0]@.len() by {
            assert(grid_of(pf.data@)[y] == pf.data@[y]@);
            assert(grid_of(pf.data@)[0] == pf.data@[0]@);
        }
        let load = match pf.count_load_north() {
            Some(v) => v,
            None => {
                proof {
                    assert(repeat_from(g, spin as int) == repeat_from(g, spin + 1));
                    lemma_no_load(g, spin as int);
                }
                return None;
            },
        };
        results.push(load);
        spin = spin + 1;
    }
    assert(repeat_from(g, spin as int) is None);
    None
}

proof fn lemma_no_load(g: Seq<Seq<Item>>, k: int)
    requires
        0 <= k,
        north_load(after_spin(g, k)) > i64::MAX,
        forall|t: int| 0 <= t <= k ==> #[trigger] seen_from(g, t, 0) is None,
    ensures
        spin_result(g) is None,
{
    match repeat_from(g, 0) {
        None => {},
        Some((s, t)) => {
            lemma_repeat_first(g, 0, k);
            assert(s > k);
        },
    }
}

proof fn lemma_repeat_first(g: Seq<Seq<Item>>, s0: int, k: int)
    requires
        0 <= s0,
        forall|t: int| s0 <= t <= k ==> #[trigger] seen_from(g, t, 0) is None,
    ensures
        repeat_from(g, s0) matches Some((s, t)) ==> s >= s0 && s > k,
    decreases spin_total() - s0,
{
    if s0 < spin_total() {
        lemma_repeat_first(g, s0 + 1, k);
    }
}

/// Every character of every line shows an item.
pub open spec fn platform_readable(ls: Seq<Seq<char>>) -> bool {
    forall|y: int, x: int| 0 <= y < ls.len() && 0 <= x < ls[y].len() ==> item_char(#[trigger] ls[y][x])
}

/// The platform the lines show.
pub open spec fn platform_of(ls: Seq<Seq<char>>) -> Seq<Seq<Item>> {
    ls.map_values(|l: Seq<char>| l.map_values(|c: char| item_of(c)))
}

/// Reads the platform (every character an item) and finds the load on the
/// north beams after a billion spins; `None` when a row is shorter than
/// the first (or there is none), or `spin_load` gives none.
pub fn spun_load(data: &str) -> (r: Option<i64>)
    requires
        platform_readable(lines_spec(data@)),
    ensures
        match r {
            Some(v) => platform_readable(lines_spec(data@)) && wide_rows(platform_of(lines_spec(data@)))
                && spin_result(platform_of(lines_spec(data@))) == Some(v as int),
            None => !platform_readable(lines_spec(data@)) || !wide_rows(platform_of(lines_spec(data@)))
                || spin_result(platform_of(lines_spec(data@))) is None || lines_spec(data@).len() >= i64::MAX,
        },
{
    let chars = chars_of(data);
    let ls = lines(chars.as_slice());
    let ghost lv = rows(ls@);
    let mut grid: Vec<Vec<Item>> = Vec::new();
    let mut y: usize = 0;
    while y < ls.len()
        invariant
            y <= ls@.len(),
            lv == rows(ls@),
            lv == lines_spec(data@),
            grid@.len() == y,
            forall|k: int| 0 <= k < y ==> (#[trigger] grid@[k])@ == platform_of(lv)[k],
            forall|k: int, x: int| 0 <= k < y && 0 <= x < lv[k].len() ==> item_char(#[trigger] lv[k][x]),
        decreases ls@.len() - y,
    {
        let line = &ls[y];
        assert(lv[y as int] == line@);
        let mut row: Vec<Item> = Vec::new();
        let mut x: usize = 0;
        while x < line.len()
            invariant
                x <= line@.len(),
                row@ == line@.take(x as int).map_values(|c: char| item_of(c)),
                forall|t: int| 0 <= t < x ==> item_char(#[trigger] line@[t]),
                y < ls@.len(),
                lv == rows(ls@),
                lv == lines_spec(data@),
                lv[y as int] == line@,
            decreases line@.len() - x,
        {
            let c = line[x];
            if !(c == '.' || c == '#' || c == 'O') {
                assert(!item_char(lv[y as int][x as int]));
                return None;
            }
            row.push(Item::from_char(c));
            assert(row@ =~= line@.take(x + 1).map_values(|c: char| item_of(c)));
            x = x + 1;
        }
        assert(line@.take(x as int) =~= line@);
        grid.push(row);
        y = y + 1;
    }
    let platform = Platform::from_vec(grid);
    assert(grid_of(platform.data@) =~= platform_of(lv));
    let n = platform.data.len();
    if n == 0 {
        return None;
    }
    if n as u64 >= i64::MAX as u64 {
        return None;
    }
    let w = platform.data[0].len();
    let mut k: usize = 0;
    while k < n
        invariant
            k <= n,
            n == platform.data@.len(),
            w == platform.data@[0]@.len(),
            grid_of(platform.data@) == platform_of(lv),
            lv == lines_spec(data@),
            forall|t: int| 0 <= t < k ==> (#[trigger] platform.data@[t])@.len() >= w,
        decreases n - k,
    {
        if platform.data[k].len() < w {
            assert(grid_of(platform.data@)[k as int].len() < grid_of(platform.data@)[0].len());
            return None;
        }
        k = k + 1;
    }
    assert(wide_rows(grid_of(platform.data@))) by {
        assert forall|t: int| 0 <= t < n implies (#[trigger] grid_of(platform.data@)[t]).len() >= grid_of(platform.data@)[0].len() by {
            assert(platform.data@[t]@.len() >= w);
        }
    }
    spin_load(platform)
}

} // verus!
