//! Clumsy crucible: a city of blocks, each losing some heat; the pieces of
//! a path search over it: steps relative to the way the crucible came, the
//! heat of a block, distances to the goal, and walking back along the
//! recorded predecessors.
use vstd::prelude::*;
use std::cmp::Ordering;
use crate::text::{chars_of, lines, lines_spec, rows, trim, trim_spec};

verus! {

/// A block of the city: column, then row.
#[derive(Copy, Clone, PartialEq, Eq, PartialOrd, Ord, Hash, Debug, Structural)]
pub struct Vec2 {
    pub x: i64,
    pub y: i64,
}

impl Vec2 {
    /// The block moved by `dir`.
    pub fn go(&self, dir: Vec2) -> (r: Vec2)
        requires
            i64::MIN <= self.x + dir.x <= i64::MAX,
            i64::MIN <= self.y + dir.y <= i64::MAX,
        ensures
            r.x == self.x + dir.x,
            r.y == self.y + dir.y,
    {
        Vec2 { x: self.x + dir.x, y: self.y + dir.y }
    }
}

/// A turn relative to the way the crucible came.
pub type Direction = usize;

pub const STRAIGHT: Direction = 0;

pub const LEFT: Direction = 1;

pub const RIGHT: Direction = 2;

/// The name of a turn.
pub fn dir_name(dir: usize) -> (s: &'static str)
    requires
        dir < 3,
    ensures
        dir == STRAIGHT ==> s@ == "STRAIGHT"@,
        dir == LEFT ==> s@ == "LEFT"@,
        dir == RIGHT ==> s@ == "RIGHT"@,
{
    if dir == STRAIGHT {
        "STRAIGHT"
    } else if dir == LEFT {
        "LEFT"
    } else {
        "RIGHT"
    }
}

/// A block to visit, with how the crucible got there and the heat lost.
#[derive(Debug, Clone, PartialEq, Eq, PartialOrd, Ord)]
pub struct Edge {
    pub target: Vec2,
    pub dir_to_get_here: Direction,
    pub same_dir_count: i32,
    pub weight: i64,
}

/// The city: the heat each block loses, and the goal block.
#[derive(Debug, Clone, PartialEq)]
pub struct HeatMap {
    pub map: Vec<Vec<i64>>,
    pub fin: Vec2,
}

/// The step a turn gives, for a crucible that came from `last_p` to `p`:
/// straight on, a quarter turn one way, or the other.
pub open spec fn turn_step(p: Vec2, last_p: Vec2, dir: int) -> (int, int) {
    let dx = p.x - last_p.x;
    let dy = p.y - last_p.y;
    if dir == 0 {
        (dx, dy)
    } else if dir == 1 {
        (dy, -dx)
    } else {
        (-dy, dx)
    }
}

/// The heat a block loses.
pub open spec fn heat(m: Seq<Seq<i64>>, p: Vec2) -> i64 {
    m[p.y as int][p.x as int]
}

/// The block lies in the city.
pub open spec fn in_city(m: Seq<Seq<i64>>, p: Vec2) -> bool {
    0 <= p.y < m.len() && 0 <= p.x < m[p.y as int].len()
}

pub open spec fn abs(v: int) -> int {
    if v < 0 {
        -v
    } else {
        v
    }
}

/// The heat rows as plain values.
pub open spec fn heat_rows(v: Seq<Vec<i64>>) -> Seq<Seq<i64>> {
    v.map_values(|r: Vec<i64>| r@)
}

/// The heat lost on the blocks from column `x0` to `w` of row `y`.
pub open spec fn row_heat(m: Seq<Seq<i64>>, y: int, x0: int, w: int) -> int
    decreases w - x0,
{
    if x0 >= w {
        0
    } else {
        m[y][x0] + row_heat(m, y, x0 + 1, w)
    }
}

/// The heat lost on the blocks of rows `y0` to `h`, from column `x0` to `w`.
pub open spec fn rect_heat(m: Seq<Seq<i64>>, y0: int, h: int, x0: int, w: int) -> int
    decreases h - y0,
{
    if y0 >= h {
        0
    } else {
        row_heat(m, y0, x0, w) + rect_heat(m, y0 + 1, h, x0, w)
    }
}

/// Rows `y0` to `h` are at least `w` wide, lose no negative heat from
/// column `x0` on, and their heat adds up within `i64`.
pub open spec fn rect_fits(m: Seq<Seq<i64>>, y0: int, h: int, x0: int, w: int) -> bool {
    &&& forall|y: int| y0 <= y < h ==> #[trigger] m[y].len() >= w
    &&& forall|y: int, x: int| y0 <= y < h && x0 <= x < w ==> #[trigger] m[y][x] >= 0
    &&& rect_heat(m, y0, h, x0, w) <= i64::MAX
}

impl HeatMap {
    /// The step a turn gives for a crucible that came from `last_p` to `p`.
    pub fn direction_dx(p: Vec2, last_p: Vec2, dir: Direction) -> (r: Vec2)
        requires
            dir < 3,
            i64::MIN <= p.x - last_p.x <= i64::MAX,
            i64::MIN <= p.y - last_p.y <= i64::MAX,
            dir == LEFT ==> p.x - last_p.x != i64::MIN,
            dir == RIGHT ==> p.y - last_p.y != i64::MIN,
        ensures
            (r.x as int, r.y as int) == turn_step(p, last_p, dir as int),
    {
        let dx = p.x - last_p.x;
        let dy = p.y - last_p.y;
        if dir == STRAIGHT {
            Vec2 { x: dx, y: dy }
        } else if dir == LEFT {
            Vec2 { x: dy, y: -dx }
        } else {
            Vec2 { x: -dy, y: dx }
        }
    }

    /// The heat block `pos` loses.
    pub fn heat_at(&self, pos: Vec2) -> (h: i64)
        requires
            in_city(heat_rows(self.map@), pos),
        ensures
            h == heat(heat_rows(self.map@), pos),
    {
        let n = self.map.len();
        let yi = pos.y as usize;
        let row = &self.map[yi];
        assert(heat_rows(self.map@)[pos.y as int] == row@);
        let w = row.len();
        let xi = pos.x as usize;
        row[xi]
    }

    /// Whether block `p` lies between the corner and the goal.
    pub fn in_range(&self, p: Vec2) -> (b: bool)
        ensures
            b == (p.x >= 0 && p.y >= 0 && p.x <= self.fin.x && p.y <= self.fin.y),
    {
        p.x >= 0 && p.y >= 0 && p.x <= self.fin.x && p.y <= self.fin.y
    }

    /// The heat lost on every block from `pos` to the bottom right corner
    /// (rows below and columns right of `pos`, the first row giving the
    /// width); `None` where a row is too short or the sum does not fit.
    pub fn approx_to_end(&self, pos: Vec2) -> (r: Option<i64>)
        requires
            self.map@.len() > 0,
            0 <= pos.x,
            0 <= pos.y,
        ensures
            r matches Some(v) ==> v == rect_heat(heat_rows(self.map@), pos.y as int, self.map@.len() as int, pos.x as int, self.map@[0]@.len() as int),
            rect_fits(heat_rows(self.map@), pos.y as int, self.map@.len() as int, pos.x as int, self.map@[0]@.len() as int) ==> r is Some,
    {
        let ghost m = heat_rows(self.map@);
        let h = self.map.len();
        let w = self.map[0].len();
        if pos.y as u64 >= h as u64 || pos.x as u64 >= w as u64 {
            proof {
                assert(rect_heat(m, pos.y as int, h as int, pos.x as int, w as int) == 0) by {
                    if pos.y >= h {
                    } else {
                        lemma_rect_empty(m, pos.y as int, h as int, pos.x as int, w as int);
                    }
                }
            }
            return Some(0);
        }
        let mut total: i64 = 0;
        let mut y: usize = h;
        let y0 = pos.y as usize;
        let x0 = pos.x as usize;
        proof {
            if rect_fits(m, y0 as int, h as int, x0 as int, w as int) {
                lemma_rect_nonneg_mono(m, y0 as int, y0 as int, h as int, x0 as int, w as int);
            }
        }
        while y > y0
            invariant
                y0 <= y <= h,
                x0 < w,
                x0 == pos.x,
                y0 == pos.y,
                h == m.len(),
                m == heat_rows(self.map@),
                w == m[0].len(),
                total == rect_heat(m, y as int, h as int, x0 as int, w as int),
                rect_fits(m, y0 as int, h as int, x0 as int, w as int) ==> 0 <= total <= rect_heat(m, y0 as int, h as int, x0 as int, w as int),
            decreases y,
        {
            let yy = y - 1;
            let row = &self.map[yy];
            assert(m[yy as int] == row@);
            if row.len() < w {
                return None;
            }
            let ghost fits = rect_fits(m, y0 as int, h as int, x0 as int, w as int);
            proof {
                if fits {
                    lemma_rect_nonneg_mono(m, yy as int, y0 as int, h as int, x0 as int, w as int);
                    lemma_row_nonneg_mono(m, yy as int, x0 as int, x0 as int, w as int);
                }
            }
            let mut x: usize = w;
            let mut rt: i64 = 0;
            while x > x0
                invariant
                    x0 <= x <= w,
                    w <= row@.len(),
                    m[yy as int] == row@,
                    rt == row_heat(m, yy as int, x as int, w as int),
                    fits == rect_fits(heat_rows(self.map@), pos.y as int, self.map@.len() as int, pos.x as int, self.map@[0]@.len() as int),
                    fits ==> forall|c: int| x0 <= c < w ==> #[trigger] m[yy as int][c] >= 0,
                    fits ==> row_heat(m, yy as int, x0 as int, w as int) <= i64::MAX,
                decreases x,
            {
                proof {
                    if fits {
                        lemma_row_nonneg_mono(m, yy as int, (x - 1) as int, x0 as int, w as int);
                        assert(row_heat(m, yy as int, x - 1, w as int) == m[yy as int][x - 1] + row_heat(m, yy as int, x as int, w as int));
                        assert(m[yy as int][x - 1] == row@[x - 1]);
                    }
                }
                match rt.checked_add(row[x - 1]) {
                    Some(v) => {
                        rt = v;
                    },
                    None => {
                        return None;
                    },
                }
                x = x - 1;
            }
            match total.checked_add(rt) {
                Some(v) => {
                    total = v;
                },
                None => {
                    return None;
                },
            }
            y = yy;
        }
        Some(total)
    }

    /// The Manhattan distance from `pos` to the goal.
    pub fn dist_to_end(&self, pos: Vec2) -> (d: i64)
        requires
            abs(self.fin.x - pos.x) + abs(self.fin.y - pos.y) <= i64::MAX,
        ensures
            d == abs(self.fin.x - pos.x) + abs(self.fin.y - pos.y),
    {
        let ndx: i64 = self.fin.x - pos.x;
        let ndy: i64 = self.fin.y - pos.y;
        let ax = if ndx < 0 { -ndx } else { ndx };
        let ay = if ndy < 0 { -ndy } else { ndy };
        ax + ay
    }
}

/// With no negative heat, a row's tail from `x` loses at most what the
/// tail from `x0 <= x` loses, and never less than nothing.
proof fn lemma_row_nonneg_mono(m: Seq<Seq<i64>>, y: int, x: int, x0: int, w: int)
    requires
        x0 <= x,
        forall|c: int| x0 <= c < w ==> #[trigger] m[y][c] >= 0,
    ensures
        0 <= row_heat(m, y, x, w) <= row_heat(m, y, x0, w),
    decreases x - x0 + (w - x0),
{
    if x0 < w {
        if x > x0 {
            lemma_row_nonneg_mono(m, y, x, x0 + 1, w);
        } else {
            lemma_row_nonneg_mono(m, y, x + 1, x + 1, w);
        }
    }
}

/// Under `rect_fits`, the rows from `y` lose at most what the rows from
/// `y0 <= y` lose, and never less than nothing.
proof fn lemma_rect_nonneg_mono(m: Seq<Seq<i64>>, y: int, y0: int, h: int, x0: int, w: int)
    requires
        y0 <= y,
        forall|yy: int, c: int| y0 <= yy < h && x0 <= c < w ==> #[trigger] m[yy][c] >= 0,
    ensures
        0 <= rect_heat(m, y, h, x0, w) <= rect_heat(m, y0, h, x0, w),
        y < h ==> row_heat(m, y, x0, w) + rect_heat(m, y + 1, h, x0, w) <= rect_heat(m, y0, h, x0, w),
    decreases h - y0,
{
    if y0 < h {
        lemma_row_nonneg_mono(m, y0, x0, x0, w);
        lemma_rect_nonneg_mono(m, if y > y0 { y } else { y0 + 1 }, y0 + 1, h, x0, w);
        if y < h {
            lemma_row_nonneg_mono(m, y, x0, x0, w);
        }
    }
}

proof fn lemma_rect_empty(m: Seq<Seq<i64>>, y0: int, h: int, x0: int, w: int)
    requires
        x0 >= w,
    ensures
        rect_heat(m, y0, h, x0, w) == 0,
    decreases h - y0,
{
    if y0 < h {
        lemma_rect_empty(m, y0 + 1, h, x0, w);
    }
}

/// The recorded predecessor of block `p`, if any: `came` holds one entry
/// per block of the city, row by row.
pub open spec fn came_at(came: Seq<Seq<Option<Vec2>>>, p: Vec2) -> Option<Vec2> {
    if 0 <= p.y < came.len() && 0 <= p.x < came[p.y as int].len() {
        came[p.y as int][p.x as int]
    } else {
        None
    }
}

/// The recorded predecessors as plain values.
pub open spec fn came_rows(v: Seq<Vec<Option<Vec2>>>) -> Seq<Seq<Option<Vec2>>> {
    v.map_values(|r: Vec<Option<Vec2>>| r@)
}

pub open spec fn origin() -> Vec2 {
    Vec2 { x: 0, y: 0 }
}

/// The predecessors of `p`, one after another, ending where a block has
/// none or with the origin; `None` when there are more than `fuel`.
pub open spec fn back_chain(came: Seq<Seq<Option<Vec2>>>, p: Vec2, fuel: nat) -> Option<Seq<Vec2>>
    decreases fuel,
{
    match came_at(came, p) {
        None => Some(Seq::empty()),
        Some(q) => if fuel == 0 {
            None
        } else if q == origin() {
            Some(seq![q])
        } else {
            match back_chain(came, q, (fuel - 1) as nat) {
                Some(rest) => Some(seq![q] + rest),
                None => None,
            }
        },
    }
}

/// The number of blocks recorded, plus one.
pub open spec fn chain_limit(came: Seq<Seq<Option<Vec2>>>) -> nat
    decreases came.len(),
{
    if came.len() == 0 {
        1
    } else {
        chain_limit(came.drop_last()) + came.last().len()
    }
}

fn lookup(came: &Vec<Vec<Option<Vec2>>>, p: Vec2) -> (r: Option<Vec2>)
    ensures
        r == came_at(came_rows(came@), p),
{
    if p.y < 0 || p.x < 0 {
        return None;
    }
    if p.y as u64 >= came.len() as u64 {
        return None;
    }
    let row = &came[p.y as usize];
    assert(came_rows(came@)[p.y as int] == row@);
    if p.x as u64 >= row.len() as u64 {
        return None;
    }
    row[p.x as usize]
}

impl HeatMap {
    /// The path that ends at `current`, from the first block of its chain of
    /// predecessors (see `back_chain`); `None` when the chain is longer than
    /// `fuel`.
    pub fn reconstruct_path(came_from: &Vec<Vec<Option<Vec2>>>, current: Vec2, fuel: u64) -> (r: Option<Vec<Vec2>>)
        ensures
            match r {
                Some(path) => back_chain(came_rows(came_from@), current, fuel as nat) matches Some(rest)
                    && path@ == (seq![current] + rest).reverse(),
                None => back_chain(came_rows(came_from@), current, fuel as nat) is None,
            },
    {
        let ghost c = came_rows(came_from@);
        let mut total_path: Vec<Vec2> = Vec::new();
        total_path.push(current);
        let mut cur = current;
        let mut f: u64 = fuel;
        loop
            invariant_except_break
                back_chain(c, current, fuel as nat) == match back_chain(c, cur, f as nat) {
                    Some(rest) => Some(total_path@.skip(1) + rest),
                    None => None::<Seq<Vec2>>,
                },
            invariant
                c == came_rows(came_from@),
                total_path@.len() >= 1,
                total_path@.last() == cur,
                total_path@[0] == current,
            ensures
                back_chain(c, current, fuel as nat) == Some(total_path@.skip(1)),
                total_path@.len() >= 1,
                total_path@[0] == current,
            decreases f,
        {
            match lookup(came_from, cur) {
                None => {
                    assert(total_path@.skip(1) + Seq::<Vec2>::empty() =~= total_path@.skip(1));
                    break;
                },
                Some(q) => {
                    if f == 0 {
                        return None;
                    }
                    let ghost old_path = total_path@;
                    total_path.push(q);
                    cur = q;
                    if q == (Vec2 { x: 0, y: 0 }) {
                        assert(back_chain(c, old_path.last(), f as nat) == Some(seq![q]));
                        assert(old_path.skip(1) + seq![q] =~= total_path@.skip(1));
                        break;
                    }
                    assert(total_path@.skip(1) =~= total_path@.drop_last().skip(1) + seq![q]);
                    f = f - 1;
                    proof {
                        match back_chain(c, q, f as nat) {
                            Some(rest) => {
                                assert(total_path@.drop_last().skip(1) + (seq![q] + rest) =~= total_path@.skip(1) + rest);
                            },
                            None => {},
                        }
                    }
                },
            }
        }
        let ghost before = total_path@;
        let mut path: Vec<Vec2> = Vec::new();
        let mut k: usize = total_path.len();
        while k > 0
            invariant
                k <= total_path@.len(),
                path@ == total_path@.skip(k as int).reverse(),
            decreases k,
        {
            path.push(total_path[k - 1]);
            assert(total_path@.skip(k - 1) =~= seq![total_path@[k - 1]] + total_path@.skip(k as int));
            assert(path@ =~= total_path@.skip(k - 1).reverse());
            k = k - 1;
        }
        assert(total_path@.skip(0) =~= total_path@);
        assert(total_path@ =~= seq![current] + total_path@.skip(1));
        Some(path)
    }
}

/// Whether a crucible at `item` may still go straight, looking back along
/// at most four predecessors: yes once the origin is met, otherwise no when
/// exactly three of the four steps kept the column, or exactly three kept
/// the row. `None` where a block on the way has no predecessor.
pub open spec fn straight_from(came: Seq<Seq<Option<Vec2>>>, item: Vec2, i: int, xs: int, ys: int) -> Option<bool>
    decreases 4 - i,
{
    if i >= 4 {
        Some(!(xs == 3 || ys == 3))
    } else {
        match came_at(came, item) {
            None => None,
            Some(prev) => if prev == origin() {
                Some(true)
            } else {
                straight_from(
                    came,
                    prev,
                    i + 1,
                    xs + if item.x == prev.x { 1int } else { 0int },
                    ys + if item.y == prev.y { 1int } else { 0int },
                )
            },
        }
    }
}

/// How many more straight steps are allowed after `current`, reached from
/// `prev1`: three from the origin, fewer the longer the straight run behind.
pub open spec fn straight_left(came: Seq<Seq<Option<Vec2>>>, current: Vec2, prev1: Vec2) -> Option<i32> {
    if current == origin() {
        Some(3)
    } else if prev1 == origin() {
        Some(2)
    } else {
        match came_at(came, prev1) {
            None => None,
            Some(prev2) => if prev2 == origin() {
                Some(1)
            } else {
                match came_at(came, prev2) {
                    None => None,
                    Some(prev3) => if prev3 == origin() {
                        Some(1)
                    } else if (current.x == prev1.x && prev1.x == prev2.x && prev2.x == prev3.x) || (current.y
                        == prev1.y && prev1.y == prev2.y && prev2.y == prev3.y) {
                        Some(0)
                    } else if (current.x == prev1.x && prev1.x == prev2.x) || (current.y == prev1.y && prev1.y
                        == prev2.y) {
                        Some(1)
                    } else if current.x == prev1.x || current.y == prev1.y {
                        Some(2)
                    } else {
                        Some(3)
                    },
                }
            },
        }
    }
}

impl HeatMap {
    /// Whether a crucible at `current` may still go straight (see `straight_from`).
    pub fn can_go_straight(came_from: &Vec<Vec<Option<Vec2>>>, current: Vec2) -> (r: Option<bool>)
        ensures
            r == straight_from(came_rows(came_from@), current, 0, 0, 0),
    {
        let ghost c = came_rows(came_from@);
        let mut item = current;
        let mut xsame: i32 = 0;
        let mut ysame: i32 = 0;
        let mut i: usize = 0;
        while i < 4
            invariant
                i <= 4,
                c == came_rows(came_from@),
                0 <= xsame <= i,
                0 <= ysame <= i,
                straight_from(c, current, 0, 0, 0) == straight_from(c, item, i as int, xsame as int, ysame as int),
            decreases 4 - i,
        {
            let prev = match lookup(came_from, item) {
                Some(p) => p,
                None => {
                    return None;
                },
            };
            if prev == (Vec2 { x: 0, y: 0 }) {
                return Some(true);
            }
            if item.x == prev.x {
                xsame = xsame + 1;
            }
            if item.y == prev.y {
                ysame = ysame + 1;
            }
            item = prev;
            i = i + 1;
        }
        Some(!(xsame == 3 || ysame == 3))
    }

    /// How many more straight steps are allowed (see `straight_left`).
    pub fn can_go_straight_2(came_from: &Vec<Vec<Option<Vec2>>>, current: Vec2, prev1: Vec2) -> (r: Option<i32>)
        ensures
            r == straight_left(came_rows(came_from@), current, prev1),
    {
        let origin = Vec2 { x: 0, y: 0 };
        if current == origin {
            return Some(3);
        }
        if prev1 == origin {
            return Some(2);
        }
        let prev2 = match lookup(came_from, prev1) {
            Some(p) => p,
            None => {
                return None;
            },
        };
        if prev2 == origin {
            return Some(1);
        }
        let prev3 = match lookup(came_from, prev2) {
            Some(p) => p,
            None => {
                return None;
            },
        };
        if prev3 == origin {
            return Some(1);
        }
        if (current.x == prev1.x && prev1.x == prev2.x && prev2.x == prev3.x) || (current.y == prev1.y && prev1.y
            == prev2.y && prev2.y == prev3.y) {
            return Some(0);
        }
        if (current.x == prev1.x && prev1.x == prev2.x) || (current.y == prev1.y && prev1.y == prev2.y) {
            return Some(1);
        }
        if (current.x == prev1.x) || (current.y == prev1.y) {
            return Some(2);
        }
        return Some(3);
    }
}

/// The order of two numbers.
pub open spec fn order_of(a: i64, b: i64) -> Ordering {
    if a < b {
        Ordering::Less
    } else if a == b {
        Ordering::Equal
    } else {
        Ordering::Greater
    }
}

fn order_i64(a: i64, b: i64) -> (r: Ordering)
    ensures
        r == order_of(a, b),
{
    if a < b {
        Ordering::Less
    } else if a == b {
        Ordering::Equal
    } else {
        Ordering::Greater
    }
}

/// The order of two blocks for picking the next one to explore: blocks at
/// different distances from the goal by column then row; at the same
/// distance, by the heat they lose, then by column, then by row.
pub open spec fn block_order(m: Seq<Seq<i64>>, fin: Vec2, a: Vec2, b: Vec2) -> Ordering {
    let da = abs(fin.x - a.x) + abs(fin.y - a.y);
    let db = abs(fin.x - b.x) + abs(fin.y - b.y);
    if da != db {
        if a.x != b.x {
            order_of(a.x, b.x)
        } else {
            order_of(a.y, b.y)
        }
    } else if heat(m, a) != heat(m, b) {
        order_of(heat(m, a), heat(m, b))
    } else if a.x != b.x {
        order_of(a.x, b.x)
    } else {
        order_of(a.y, b.y)
    }
}

impl HeatMap {
    /// The order of two different blocks for picking the next one to
    /// explore (see `block_order`).
    pub fn always_sorted(&self, a: &Vec2, b: &Vec2) -> (r: Ordering)
        requires
            *a != *b,
            in_city(heat_rows(self.map@), *a),
            in_city(heat_rows(self.map@), *b),
            abs(self.fin.x - a.x) + abs(self.fin.y - a.y) <= i64::MAX,
            abs(self.fin.x - b.x) + abs(self.fin.y - b.y) <= i64::MAX,
        ensures
            r == block_order(heat_rows(self.map@), self.fin, *a, *b),
    {
        let da = self.dist_to_end(*a);
        let db = self.dist_to_end(*b);
        if da != db {
            if a.x != b.x {
                return order_i64(a.x, b.x);
            }
            return order_i64(a.y, b.y);
        }
        let wa = self.heat_at(*a);
        let wb = self.heat_at(*b);
        if wa != wb {
            return order_i64(wa, wb);
        }
        if a.x != b.x {
            return order_i64(a.x, b.x);
        }
        order_i64(a.y, b.y)
    }
}

/// Block `a` comes before block `b` in `block_order`.
pub open spec fn block_before(m: Seq<Seq<i64>>, fin: Vec2, a: Vec2, b: Vec2) -> bool {
    block_order(m, fin, a, b) == Ordering::Less
}

impl HeatMap {
    /// Whether block `a` comes before block `b` when picking the next block
    /// to explore (see `always_sorted`).
    pub fn sorts_before(&self, a: &Vec2, b: &Vec2) -> (r: bool)
        requires
            *a != *b,
            in_city(heat_rows(self.map@), *a),
            in_city(heat_rows(self.map@), *b),
            abs(self.fin.x - a.x) + abs(self.fin.y - a.y) <= i64::MAX,
            abs(self.fin.x - b.x) + abs(self.fin.y - b.y) <= i64::MAX,
        ensures
            r == block_before(heat_rows(self.map@), self.fin, *a, *b),
    {
        match self.always_sorted(a, b) {
            Ordering::Less => true,
            Ordering::Equal => false,
            Ordering::Greater => false,
        }
    }
}

} // verus!
