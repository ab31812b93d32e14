//! The search of the clumsy crucible's path: A* over the city, with its
//! open set, recorded predecessors and scores held in grids shaped like the
//! city.
use vstd::prelude::*;
use crate::day17::{abs, came_at, came_rows, heat_rows, in_city, origin, straight_from, HeatMap, Vec2, STRAIGHT};
use crate::text::{chars_of, lines, lines_spec, rows, trim, trim_spec};

verus! {

/// The score recorded for block `p`, if any.
pub open spec fn score_at(s: Seq<Seq<Option<i64>>>, p: Vec2) -> Option<i64> {
    if 0 <= p.y < s.len() && 0 <= p.x < s[p.y as int].len() {
        s[p.y as int][p.x as int]
    } else {
        None
    }
}

/// The scores as plain values.
pub open spec fn score_rows(v: Seq<Vec<Option<i64>>>) -> Seq<Seq<Option<i64>>> {
    v.map_values(|r: Vec<Option<i64>>| r@)
}

/// The predecessor the search records for its first block: a block off the
/// city, so that the first step goes along the row.
pub open spec fn sentinel() -> Vec2 {
    Vec2 { x: -1i64, y: 0i64 }
}

/// What the search gives: it can only ever stand on its first block, since
/// asking whether it may go straight looks back past the sentinel; so it
/// finds a path exactly when it starts on the goal, and with some search
/// left, and the distance to the end fits.
pub open spec fn a_star_spec(fin: Vec2, start: Vec2, goal: Vec2, fuel: nat) -> Option<Seq<Vec2>> {
    if start == goal && fuel > 0 && abs(fin.x - start.x) + abs(fin.y - start.y) <= i64::MAX {
        Some(seq![sentinel(), start])
    } else {
        None
    }
}

/// A grid shaped like the city with no predecessor recorded.
fn empty_came(m: &Vec<Vec<i64>>) -> (c: Vec<Vec<Option<Vec2>>>)
    ensures
        c@.len() == m@.len(),
        forall|y: int| 0 <= y < m@.len() ==> (#[trigger] c@[y])@.len() == m@[y]@.len(),
        forall|p: Vec2| came_at(came_rows(c@), p) is None,
{
    let mut c: Vec<Vec<Option<Vec2>>> = Vec::new();
    let mut y: usize = 0;
    while y < m.len()
        invariant
            y <= m@.len(),
            c@.len() == y,
            forall|k: int| 0 <= k < y ==> (#[trigger] c@[k])@.len() == m@[k]@.len(),
            forall|k: int, x: int| 0 <= k < y && 0 <= x < c@[k]@.len() ==> (#[trigger] c@[k]@[x]) is None,
        decreases m@.len() - y,
    {
        let mut row: Vec<Option<Vec2>> = Vec::new();
        let mut x: usize = 0;
        while x < m[y].len()
            invariant
                x <= m@[y as int]@.len(),
                y < m@.len(),
                row@.len() == x,
                forall|k: int| 0 <= k < x ==> (#[trigger] row@[k]) is None,
            decreases m@[y as int]@.len() - x,
        {
            row.push(None);
            x = x + 1;
        }
        c.push(row);
        y = y + 1;
    }
    assert forall|p: Vec2| came_at(came_rows(c@), p) is None by {
        if 0 <= p.y < c@.len() && 0 <= p.x < came_rows(c@)[p.y as int].len() {
            assert(came_rows(c@)[p.y as int] == c@[p.y as int]@);
        }
    }
    c
}

/// A grid shaped like the city with no score recorded.
fn empty_scores(m: &Vec<Vec<i64>>) -> (c: Vec<Vec<Option<i64>>>)
    ensures
        c@.len() == m@.len(),
        forall|y: int| 0 <= y < m@.len() ==> (#[trigger] c@[y])@.len() == m@[y]@.len(),
        forall|p: Vec2| score_at(score_rows(c@), p) is None,
{
    let mut c: Vec<Vec<Option<i64>>> = Vec::new();
    let mut y: usize = 0;
    while y < m.len()
        invariant
            y <= m@.len(),
            c@.len() == y,
            forall|k: int| 0 <= k < y ==> (#[trigger] c@[k])@.len() == m@[k]@.len(),
            forall|k: int, x: int| 0 <= k < y && 0 <= x < c@[k]@.len() ==> (#[trigger] c@[k]@[x]) is None,
        decreases m@.len() - y,
    {
        let mut row: Vec<Option<i64>> = Vec::new();
        let mut x: usize = 0;
        while x < m[y].len()
            invariant
                x <= m@[y as int]@.len(),
                y < m@.len(),
                row@.len() == x,
                forall|k: int| 0 <= k < x ==> (#[trigger] row@[k]) is None,
            decreases m@[y as int]@.len() - x,
        {
            row.push(None);
            x = x + 1;
        }
        c.push(row);
        y = y + 1;
    }
    assert forall|p: Vec2| score_at(score_rows(c@), p) is None by {
        if 0 <= p.y < c@.len() && 0 <= p.x < score_rows(c@)[p.y as int].len() {
            assert(score_rows(c@)[p.y as int] == c@[p.y as int]@);
        }
    }
    c
}

/// Records `v` as the predecessor of block `p`, which lies in the grid.
fn came_set(c: &mut Vec<Vec<Option<Vec2>>>, p: Vec2, v: Vec2)
    requires
        0 <= p.y < old(c)@.len(),
        0 <= p.x < old(c)@[p.y as int]@.len(),
    ensures
        final(c)@.len() == old(c)@.len(),
        forall|y: int| 0 <= y < old(c)@.len() ==> (#[trigger] final(c)@[y])@.len() == old(c)@[y]@.len(),
        forall|q: Vec2| #[trigger] came_at(came_rows(final(c)@), q) == if q == p {
            Some(v)
        } else {
            came_at(came_rows(old(c)@), q)
        },
{
    let ghost before = came_rows(c@);
    let n = c.len();
    let yi = p.y as usize;
    assert(yi as int == p.y);
    let rlen = c[yi].len();
    let xi = p.x as usize;
    assert(xi as int == p.x);
    let ghost c0 = c@;
    let mut row: Vec<Option<Vec2>> = Vec::new();
    std::mem::swap(&mut row, &mut c[yi]);
    assert(row@ == c0[yi as int]@);
    row.set(xi, Some(v));
    let ghost new_row = row@;
    std::mem::swap(&mut row, &mut c[yi]);
    assert(c@[yi as int]@ == new_row);
    assert forall|k: int| 0 <= k < c@.len() && k != yi implies c@[k] == c0[k] by {}
    assert forall|q: Vec2| #[trigger] came_at(came_rows(c@), q) == if q == p {
        Some(v)
    } else {
        came_at(before, q)
    } by {
        if 0 <= q.y < c@.len() && 0 <= q.x < came_rows(c@)[q.y as int].len() {
            assert(came_rows(c@)[q.y as int] == c@[q.y as int]@);
            assert(before[q.y as int] == old(c)@[q.y as int]@);
        }
    }
}

/// Records score `v` for block `p`, which lies in the grid.
fn score_set(c: &mut Vec<Vec<Option<i64>>>, p: Vec2, v: i64)
    requires
        0 <= p.y < old(c)@.len(),
        0 <= p.x < old(c)@[p.y as int]@.len(),
    ensures
        final(c)@.len() == old(c)@.len(),
        forall|y: int| 0 <= y < old(c)@.len() ==> (#[trigger] final(c)@[y])@.len() == old(c)@[y]@.len(),
        forall|q: Vec2| #[trigger] score_at(score_rows(final(c)@), q) == if q == p {
            Some(v)
        } else {
            score_at(score_rows(old(c)@), q)
        },
{
    let ghost before = score_rows(c@);
    let n = c.len();
    let yi = p.y as usize;
    assert(yi as int == p.y);
    let rlen = c[yi].len();
    let xi = p.x as usize;
    assert(xi as int == p.x);
    let ghost c0 = c@;
    let mut row: Vec<Option<i64>> = Vec::new();
    std::mem::swap(&mut row, &mut c[yi]);
    assert(row@ == c0[yi as int]@);
    row.set(xi, Some(v));
    let ghost new_row = row@;
    std::mem::swap(&mut row, &mut c[yi]);
    assert(c@[yi as int]@ == new_row);
    assert forall|k: int| 0 <= k < c@.len() && k != yi implies c@[k] == c0[k] by {}
    assert forall|q: Vec2| #[trigger] score_at(score_rows(c@), q) == if q == p {
        Some(v)
    } else {
        score_at(before, q)
    } by {
        if 0 <= q.y < c@.len() && 0 <= q.x < score_rows(c@)[q.y as int].len() {
            assert(score_rows(c@)[q.y as int] == c@[q.y as int]@);
            assert(before[q.y as int] == old(c)@[q.y as int]@);
        }
    }
}

/// The score recorded for block `p` (see `score_at`).
fn score_get(c: &Vec<Vec<Option<i64>>>, p: Vec2) -> (r: Option<i64>)
    ensures
        r == score_at(score_rows(c@), p),
{
    if p.y < 0 || p.x < 0 {
        return None;
    }
    if p.y as u64 >= c.len() as u64 {
        return None;
    }
    let row = &c[p.y as usize];
    assert(score_rows(c@)[p.y as int] == row@);
    if p.x as u64 >= row.len() as u64 {
        return None;
    }
    row[p.x as usize]
}

/// The predecessor recorded for block `p` (see `came_at`).
fn came_get(c: &Vec<Vec<Option<Vec2>>>, p: Vec2) -> (r: Option<Vec2>)
    ensures
        r == came_at(came_rows(c@), p),
{
    if p.y < 0 || p.x < 0 {
        return None;
    }
    if p.y as u64 >= c.len() as u64 {
        return None;
    }
    let row = &c[p.y as usize];
    assert(came_rows(c@)[p.y as int] == row@);
    if p.x as u64 >= row.len() as u64 {
        return None;
    }
    row[p.x as usize]
}

/// Whether block `p` lies in the city.
fn city_has(m: &Vec<Vec<i64>>, p: Vec2) -> (b: bool)
    ensures
        b == in_city(heat_rows(m@), p),
{
    if p.y < 0 || p.x < 0 {
        return false;
    }
    if p.y as u64 >= m.len() as u64 {
        return false;
    }
    assert(heat_rows(m@)[p.y as int] == m@[p.y as int]@);
    (p.x as u64) < (m[p.y as usize].len() as u64)
}

/// Whether the open set holds block `p`.
fn contains_block(open: &Vec<Vec2>, p: Vec2) -> (b: bool)
    ensures
        b == open@.contains(p),
{
    let mut i: usize = 0;
    while i < open.len()
        invariant
            i <= open@.len(),
            forall|k: int| 0 <= k < i ==> open@[k] != p,
        decreases open@.len() - i,
    {
        if open[i].x == p.x && open[i].y == p.y {
            return true;
        }
        i = i + 1;
    }
    false
}

/// Whether `a - b` lies strictly between `i64::MIN` and `i64::MAX`.
fn diff_ok(a: i64, b: i64) -> (r: bool)
    ensures
        r == (i64::MIN < a - b < i64::MAX),
{
    let d: i128 = a as i128 - b as i128;
    -0x7fff_ffff_ffff_ffff <= d && d < 0x7fff_ffff_ffff_ffff
}

/// Whether the distance from `p` to the end fits in an `i64`.
fn dist_fits(fin: Vec2, p: Vec2) -> (b: bool)
    ensures
        b == (abs(fin.x - p.x) + abs(fin.y - p.y) <= i64::MAX),
{
    let dx: i128 = fin.x as i128 - p.x as i128;
    let dy: i128 = fin.y as i128 - p.y as i128;
    let ax: i128 = if dx < 0 { -dx } else { dx };
    let ay: i128 = if dy < 0 { -dy } else { dy };
    ax + ay <= 0x7fff_ffff_ffff_ffff
}

/// The search is still at its start: only the first block is open, its
/// predecessor is the sentinel and nothing else is recorded.
pub open spec fn at_start(
    fin: Vec2,
    start: Vec2,
    open: Seq<Vec2>,
    came: Seq<Seq<Option<Vec2>>>,
    g: Seq<Seq<Option<i64>>>,
    f: Seq<Seq<Option<i64>>>,
) -> bool {
    &&& open == seq![start]
    &&& forall|q: Vec2| #[trigger] came_at(came, q) == if q == start {
        Some(sentinel())
    } else {
        None::<Vec2>
    }
    &&& score_at(g, start) == Some(0i64)
    &&& score_at(f, start) matches Some(d) && d == abs(fin.x - start.x) + abs(fin.y - start.y)
}

impl HeatMap {
    /// A* from `start` to `goal`, taking at most `fuel` blocks from the open
    /// set: the block to explore is one of lowest score, ties broken by
    /// `sorts_before`; from it the crucible may go straight (unless
    /// `can_go_straight` says no), left or right; the path found is walked
    /// back with `reconstruct_path`. `None` where the search fails: the open
    /// set runs empty, the fuel runs out, a number overflows, a block has no
    /// predecessor to look back to, or a step leaves the city. What this
    /// amounts to is `a_star_spec`.
    pub fn a_star(&self, start: Vec2, goal: Vec2, fuel: u64) -> (r: Option<Vec<Vec2>>)
        requires
            in_city(heat_rows(self.map@), start),
        ensures
            match r {
                Some(path) => a_star_spec(self.fin, start, goal, fuel as nat) == Some(path@),
                None => a_star_spec(self.fin, start, goal, fuel as nat) is None,
            },
    {
        let ghost hm = heat_rows(self.map@);
        if !dist_fits(self.fin, start) {
            return None;
        }
        let mut came = empty_came(&self.map);
        let mut g_score = empty_scores(&self.map);
        let mut f_score = empty_scores(&self.map);
        assert(hm[start.y as int] == self.map@[start.y as int]@);
        came_set(&mut came, start, Vec2 { x: -1, y: 0 });
        score_set(&mut g_score, start, 0);
        let d0 = self.dist_to_end(start);
        score_set(&mut f_score, start, d0);
        let mut open: Vec<Vec2> = Vec::new();
        open.push(start);
        let ghost mut first = true;
        let mut steps: u64 = 0;
        assert(open@ =~= seq![start]);
        while steps < fuel
            invariant
                hm == heat_rows(self.map@),
                in_city(hm, start),
                abs(self.fin.x - start.x) + abs(self.fin.y - start.y) <= i64::MAX,
                came@.len() == self.map@.len(),
                forall|y: int| 0 <= y < self.map@.len() ==> (#[trigger] came@[y])@.len() == self.map@[y]@.len(),
                g_score@.len() == self.map@.len(),
                forall|y: int| 0 <= y < self.map@.len() ==> (#[trigger] g_score@[y])@.len() == self.map@[y]@.len(),
                f_score@.len() == self.map@.len(),
                forall|y: int| 0 <= y < self.map@.len() ==> (#[trigger] f_score@[y])@.len() == self.map@[y]@.len(),
                steps <= fuel,
                first ==> steps == 0,
                first ==> at_start(self.fin, start, open@, came_rows(came@), score_rows(g_score@), score_rows(f_score@)),
                !first ==> open@.len() == 0 && start != goal,
            decreases fuel - steps,
        {
            if open.len() == 0 {
                return None;
            }
            assert(first);
            // the lowest score among the open blocks
            let mut best: Option<i64> = None;
            let mut k: usize = 0;
            while k < open.len()
                invariant
                    k <= open@.len(),
                    open@ == seq![start],
                    score_at(score_rows(f_score@), start) matches Some(d) && d == abs(self.fin.x - start.x) + abs(
                        self.fin.y - start.y,
                    ),
                    k == 0 ==> best is None,
                    k == 1 ==> best == score_at(score_rows(f_score@), start),
                decreases open@.len() - k,
            {
                match score_get(&f_score, open[k]) {
                    Some(v) => {
                        best = match best {
                            Some(b) => if v < b {
                                Some(v)
                            } else {
                                Some(b)
                            },
                            None => Some(v),
                        };
                    },
                    None => {
                        return None;
                    },
                }
                k = k + 1;
            }
            let cur_f = match best {
                Some(b) => b,
                None => {
                    return None;
                },
            };
            // the open blocks of that score
            let mut candidates: Vec<Vec2> = Vec::new();
            let mut k: usize = 0;
            while k < open.len()
                invariant
                    k <= open@.len(),
                    open@ == seq![start],
                    score_at(score_rows(f_score@), start) == Some(cur_f),
                    k == 0 ==> candidates@.len() == 0,
                    k == 1 ==> candidates@ == seq![start],
                decreases open@.len() - k,
            {
                let p = open[k];
                if score_get(&f_score, p) == Some(cur_f) {
                    candidates.push(p);
                }
                k = k + 1;
            }
            assert(candidates@ =~= seq![start]);
            // the first of them in the order of `sorts_before`
            let mut current = candidates[0];
            let mut k: usize = 1;
            while k < candidates.len()
                invariant
                    1 <= k <= candidates@.len(),
                    candidates@ == seq![start],
                    current == start,
                decreases candidates@.len() - k,
            {
                let c = candidates[k];
                if !(c.x == current.x && c.y == current.y) && city_has(&self.map, c) && city_has(&self.map, current)
                    && dist_fits(self.fin, c) && dist_fits(self.fin, current) {
                    if self.sorts_before(&c, &current) {
                        current = c;
                    }
                }
                k = k + 1;
            }
            if current.x == goal.x && current.y == goal.y {
                let ghost c = came_rows(came@);
                assert(came_at(c, start) == Some(sentinel()));
                assert(came_at(c, sentinel()) is None);
                let path = HeatMap::reconstruct_path(&came, current, fuel);
                proof {
                    if fuel > 0 {
                        assert(came_at(c, sentinel()) is None);
                        assert(crate::day17::back_chain(c, sentinel(), (fuel - 1) as nat) == Some(Seq::<Vec2>::empty()));
                        assert(crate::day17::back_chain(c, start, fuel as nat) == Some(seq![sentinel()]));
                        assert((seq![start] + seq![sentinel()]).reverse() =~= seq![sentinel(), start]);
                    }
                }
                return path;
            }
            // take the block out of the open set
            let mut rest: Vec<Vec2> = Vec::new();
            let mut k: usize = 0;
            while k < open.len()
                invariant
                    k <= open@.len(),
                    open@ == seq![start],
                    current == start,
                    rest@.len() == 0,
                decreases open@.len() - k,
            {
                let p = open[k];
                if !(p.x == current.x && p.y == current.y) {
                    rest.push(p);
                }
                k = k + 1;
            }
            open = rest;
            let mut dir: usize = 0;
            while dir < 3
                invariant
                    dir <= 3,
                    hm == heat_rows(self.map@),
                    in_city(hm, start),
                    current == start,
                    start != goal,
                    open@.len() == 0,
                    forall|q: Vec2| #[trigger] came_at(came_rows(came@), q) == if q == start {
                        Some(sentinel())
                    } else {
                        None::<Vec2>
                    },
                    came@.len() == self.map@.len(),
                    forall|y: int| 0 <= y < self.map@.len() ==> (#[trigger] came@[y])@.len() == self.map@[y]@.len(),
                    g_score@.len() == self.map@.len(),
                    forall|y: int| 0 <= y < self.map@.len() ==> (#[trigger] g_score@[y])@.len() == self.map@[y]@.len(),
                    f_score@.len() == self.map@.len(),
                    forall|y: int| 0 <= y < self.map@.len() ==> (#[trigger] f_score@[y])@.len() == self.map@[y]@.len(),
                decreases 3 - dir,
            {
                let prev = match came_get(&came, current) {
                    Some(p) => p,
                    None => {
                        return None;
                    },
                };
                if !diff_ok(current.x, prev.x) || !diff_ok(current.y, prev.y) {
                    return None;
                }
                let dp = HeatMap::direction_dx(current, prev, dir);
                if (dp.x > 0 && current.x > 0x7fff_ffff_ffff_ffff - dp.x) || (dp.x < 0 && current.x < -0x7fff_ffff_ffff_ffff
                    - 1 - dp.x) || (dp.y > 0 && current.y > 0x7fff_ffff_ffff_ffff - dp.y) || (dp.y < 0 && current.y
                    < -0x7fff_ffff_ffff_ffff - 1 - dp.y) {
                    return None;
                }
                let neighbor = current.go(dp);
                if !self.in_range(neighbor) {
                    dir = dir + 1;
                    continue;
                }
                let cgs = match HeatMap::can_go_straight(&came, current) {
                    Some(b) => b,
                    None => {
                        return None;
                    },
                };
                assert(straight_from(came_rows(came@), start, 0, 0, 0) is None) by {
                    reveal_with_fuel(straight_from, 2);
                    assert(came_at(came_rows(came@), start) == Some(sentinel()));
                    assert(sentinel() != start);
                    assert(came_at(came_rows(came@), sentinel()) is None);
                    assert(sentinel() != origin());
                }
                if dir == STRAIGHT && !cgs {
                    dir = dir + 1;
                    continue;
                }
                if !city_has(&self.map, neighbor) || !dist_fits(self.fin, neighbor) {
                    return None;
                }
                let g_cur = match score_get(&g_score, current) {
                    Some(g) => g,
                    None => {
                        return None;
                    },
                };
                let tentative = match g_cur.checked_add(self.heat_at(neighbor)) {
                    Some(t) => t,
                    None => {
                        return None;
                    },
                };
                let update = match score_get(&g_score, neighbor) {
                    Some(g_old) => tentative < g_old,
                    None => true,
                };
                if update {
                    let f_new = match tentative.checked_add(self.dist_to_end(neighbor)) {
                        Some(f) => f,
                        None => {
                            return None;
                        },
                    };
                    came_set(&mut came, neighbor, current);
                    score_set(&mut g_score, neighbor, tentative);
                    score_set(&mut f_score, neighbor, f_new);
                    if !contains_block(&open, neighbor) {
                        open.push(neighbor);
                    }
                }
                dir = dir + 1;
            }
            proof {
                first = false;
            }
            steps = steps + 1;
        }
        None
    }
}

/// The heat a character stands for: its code point less that of `0`.
pub open spec fn block_heat(c: char) -> i64 {
    ((c as u32) as int - 48) as i64
}

/// The heat rows of the lines: each line trimmed, every character read by
/// `block_heat`.
pub open spec fn city_spec(ls: Seq<Seq<char>>) -> Seq<Seq<i64>> {
    ls.map_values(|l: Seq<char>| trim_spec(l).map_values(|c: char| block_heat(c)))
}

/// The city of `data`, which has a line, its goal the last block of the
/// first row's length in the last row; `None` where there are more than
/// `i64::MAX` lines or blocks in the first row.
pub fn parse_heat_map(data: &str) -> (r: Option<HeatMap>)
    requires
        lines_spec(data@).len() > 0,
    ensures
        match r {
            Some(m) => lines_spec(data@).len() > 0 && heat_rows(m.map@) == city_spec(lines_spec(data@)) && m.fin.x
                == city_spec(lines_spec(data@))[0].len() - 1 && m.fin.y == lines_spec(data@).len() - 1,
            None => lines_spec(data@).len() == 0 || lines_spec(data@).len() > i64::MAX || city_spec(
                lines_spec(data@),
            )[0].len() > i64::MAX,
        },
{
    let chars = chars_of(data);
    let ls = lines(chars.as_slice());
    let ghost lv = rows(ls@);
    if ls.len() == 0 {
        return None;
    }
    let mut map: Vec<Vec<i64>> = Vec::new();
    let mut y: usize = 0;
    while y < ls.len()
        invariant
            y <= ls@.len(),
            lv == rows(ls@),
            lv == lines_spec(data@),
            heat_rows(map@) == city_spec(lv).take(y as int),
        decreases ls@.len() - y,
    {
        assert(lv[y as int] == ls@[y as int]@);
        let t = trim(ls[y].as_slice());
        let mut row: Vec<i64> = Vec::new();
        let mut x: usize = 0;
        while x < t.len()
            invariant
                x <= t@.len(),
                row@ == t@.take(x as int).map_values(|c: char| block_heat(c)),
            decreases t@.len() - x,
        {
            let v = (t[x] as u32) as i64 - 48;
            row.push(v);
            assert(t@.take(x + 1).map_values(|c: char| block_heat(c)) =~= t@.take(x as int).map_values(
                |c: char| block_heat(c),
            ).push(block_heat(t@[x as int])));
            x = x + 1;
        }
        assert(t@.take(x as int) =~= t@);
        let ghost old_rows = heat_rows(map@);
        map.push(row);
        assert(heat_rows(map@) =~= old_rows.push(city_spec(lv)[y as int]));
        assert(city_spec(lv).take(y + 1) =~= city_spec(lv).take(y as int).push(city_spec(lv)[y as int]));
        y = y + 1;
    }
    assert(city_spec(lv).take(y as int) =~= city_spec(lv));
    assert(heat_rows(map@)[0] == map@[0]@);
    let w = map[0].len();
    let h = map.len();
    if w as u64 > 0x7fff_ffff_ffff_ffff || h as u64 > 0x7fff_ffff_ffff_ffff {
        return None;
    }
    let fin = Vec2 { x: w as i64 - 1, y: h as i64 - 1 };
    Some(HeatMap { map, fin })
}

} // verus!
