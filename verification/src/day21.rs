//! Step counter: a garden of plots and rocks that repeats in every direction,
//! each plot marked with how many plots it borders, and walks from the start
//! that multiply those numbers along the way.
use vstd::prelude::*;
use crate::text::{chars_of, find_char, first_index, rows, split_on, split_spec};

verus! {

/// The four directions of a step.
#[derive(Debug, Clone, Copy, PartialEq, Eq)]
pub enum Direction {
    North,
    East,
    South,
    West,
}

/// The direction numbered `k` in the order north, east, south, west.
pub open spec fn dir_of(k: int) -> Direction {
    if k == 0 {
        Direction::North
    } else if k == 1 {
        Direction::East
    } else if k == 2 {
        Direction::South
    } else {
        Direction::West
    }
}

/// One step from `coord` in a garden of `width` by `height` that wraps
/// around at its edges.
pub open spec fn go_spec(coord: (usize, usize), dir: Direction, width: usize, height: usize) -> (usize, usize) {
    let (x, y) = coord;
    match dir {
        Direction::North => if y == 0 {
            (x, (height - 1) as usize)
        } else {
            (x, (y - 1) as usize)
        },
        Direction::East => if x == width - 1 {
            (0, y)
        } else {
            ((x + 1) as usize, y)
        },
        Direction::South => if y == height - 1 {
            (x, 0)
        } else {
            (x, (y + 1) as usize)
        },
        Direction::West => if x == 0 {
            ((width - 1) as usize, y)
        } else {
            ((x - 1) as usize, y)
        },
    }
}

/// Whether a step in `dir` from `coord` stays within the integers: the
/// garden has a last row or column where the step needs one.
pub open spec fn can_go(coord: (usize, usize), dir: Direction, width: usize, height: usize) -> bool {
    match dir {
        Direction::North => coord.1 > 0 || height > 0,
        Direction::East => width > 0 && coord.0 < usize::MAX,
        Direction::South => height > 0 && coord.1 < usize::MAX,
        Direction::West => coord.0 > 0 || width > 0,
    }
}

/// A garden: for each plot how many of the four plots around it (the garden
/// wrapping around) are not rocks, 0 for a rock; and where the walk starts.
pub struct GardenMap {
    pub map: Vec<Vec<u8>>,
    pub start: (usize, usize),
    pub width: usize,
    pub height: usize,
}

/// The garden's counts as plain values.
pub open spec fn counts_view(m: Seq<Vec<u8>>) -> Seq<Seq<u8>> {
    m.map_values(|r: Vec<u8>| r@)
}

/// How many of the four plots around column `i` of row `j` are not rocks.
pub open spec fn open_around(g: Seq<Seq<char>>, i: usize, j: usize, w: usize, h: usize) -> int {
    let n = go_spec((i, j), Direction::North, w, h);
    let e = go_spec((i, j), Direction::East, w, h);
    let s = go_spec((i, j), Direction::South, w, h);
    let o = go_spec((i, j), Direction::West, w, h);
    (if g[n.1 as int][n.0 as int] != '#' { 1int } else { 0 }) + (if g[e.1 as int][e.0 as int] != '#' { 1int } else { 0 })
        + (if g[s.1 as int][s.0 as int] != '#' { 1int } else { 0 }) + (if g[o.1 as int][o.0 as int] != '#' {
        1int
    } else {
        0
    })
}

/// The count of each plot of the first `w` columns of the rows: 0 for a
/// rock, else `open_around`.
pub open spec fn counts_spec(g: Seq<Seq<char>>, w: usize) -> Seq<Seq<u8>> {
    let h = g.len() as usize;
    Seq::new(
        g.len(),
        |j: int|
            Seq::new(
                w as nat,
                |i: int|
                    if g[j][i] == '#' {
                        0u8
                    } else {
                        open_around(g, i as usize, j as usize, w, h) as u8
                    },
            ),
    )
}

/// Where the walk starts: the first `S` of the last of the first `y` rows
/// holding one, or the corner where no row does.
pub open spec fn start_spec(g: Seq<Seq<char>>, y: int) -> (usize, usize)
    decreases y,
{
    if y <= 0 {
        (0, 0)
    } else {
        match first_index(g[y - 1], 'S') {
            Some(x) => (x as usize, (y - 1) as usize),
            None => start_spec(g, y - 1),
        }
    }
}

/// The rows of the text: its pieces between newlines, the last one included
/// even where it is empty.
pub open spec fn garden_rows(s: Seq<char>) -> Seq<Seq<char>> {
    split_spec(s, '\n')
}

/// No row is shorter than the first.
pub open spec fn garden_ok(g: Seq<Seq<char>>) -> bool {
    g.len() > 0 && forall|j: int| 0 <= j < g.len() ==> (#[trigger] g[j]).len() >= g[0].len()
}

impl GardenMap {
    /// One step from `coord`, wrapping around at the garden's edges.
    pub fn go_static(coord: (usize, usize), dir: Direction, width: usize, height: usize) -> (r: (usize, usize))
        requires
            can_go(coord, dir, width, height),
        ensures
            r == go_spec(coord, dir, width, height),
    {
        let (x, y) = coord;
        match dir {
            Direction::North => {
                if y == 0 {
                    return (x, height - 1);
                } else {
                    return (x, y - 1);
                }
            },
            Direction::East => {
                if x == width - 1 {
                    return (0, y);
                } else {
                    return (x + 1, y);
                }
            },
            Direction::South => {
                if y == height - 1 {
                    return (x, 0);
                } else {
                    return (x, y + 1);
                }
            },
            Direction::West => {
                if x == 0 {
                    return (width - 1, y);
                } else {
                    return (x - 1, y);
                }
            },
        }
    }

    /// One step from `coord` in this garden (see `go_static`).
    pub fn go(&self, coord: (usize, usize), dir: Direction) -> (r: (usize, usize))
        requires
            can_go(coord, dir, self.width, self.height),
        ensures
            r == go_spec(coord, dir, self.width, self.height),
    {
        GardenMap::go_static(coord, dir, self.width, self.height)
    }
}

/// Whether the plot at a coordinate within the garden is open.
fn is_open(g: &Vec<Vec<char>>, c: (usize, usize)) -> (b: bool)
    requires
        c.1 < g@.len(),
        c.0 < g@[c.1 as int]@.len(),
    ensures
        b == (rows(g@)[c.1 as int][c.0 as int] != '#'),
{
    assert(rows(g@)[c.1 as int] == g@[c.1 as int]@);
    g[c.1][c.0] != '#'
}

impl GardenMap {
    /// The garden of the text `s`, no row of which is shorter than the
    /// first (see `counts_spec` and `start_spec`).
    pub fn from_string(s: &str) -> (m: GardenMap)
        requires
            garden_ok(garden_rows(s@)),
        ensures
            counts_view(m.map@) == counts_spec(garden_rows(s@), garden_rows(s@)[0].len() as usize),
            m.start == start_spec(garden_rows(s@), garden_rows(s@).len() as int),
            m.width == garden_rows(s@)[0].len(),
            m.height == garden_rows(s@).len(),
    {
        let chars = chars_of(s);
        let g = split_on(chars.as_slice(), '\n');
        let ghost gv = rows(g@);
        assert(gv == garden_rows(s@));
        proof {
            crate::text::lemma_split_spec_nonempty(chars@, '\n');
        }
        let height = g.len();
        let mut start: (usize, usize) = (0, 0);
        let mut y: usize = 0;
        while y < height
            invariant
                y <= height,
                height == g@.len(),
                gv == rows(g@),
                start == start_spec(gv, y as int),
            decreases height - y,
        {
            assert(gv[y as int] == g@[y as int]@);
            match find_char(g[y].as_slice(), 'S') {
                Some(x) => {
                    start = (x, y);
                },
                None => {},
            }
            y = y + 1;
        }
        let width = g[0].len();
        assert(gv[0] == g@[0]@);
        let ghost want = counts_spec(gv, width);
        let mut nmap: Vec<Vec<u8>> = Vec::new();
        let mut j: usize = 0;
        while j < height
            invariant
                j <= height,
                height == g@.len(),
                height > 0,
                gv == rows(g@),
                width == gv[0].len(),
                forall|k: int| 0 <= k < height ==> (#[trigger] gv[k]).len() >= width,
                want == counts_spec(gv, width),
                counts_view(nmap@) == want.take(j as int),
            decreases height - j,
        {
            let mut row: Vec<u8> = Vec::new();
            let mut i: usize = 0;
            while i < width
                invariant
                    i <= width,
                    j < height,
                    height == g@.len(),
                    gv == rows(g@),
                    width == gv[0].len(),
                    forall|k: int| 0 <= k < height ==> (#[trigger] gv[k]).len() >= width,
                    want == counts_spec(gv, width),
                    row@ == want[j as int].take(i as int),
                decreases width - i,
            {
                assert(gv[j as int] == g@[j as int]@);
                let v: u8 = if !is_open(&g, (i, j)) {
                    0
                } else {
                    let mut cnt: u8 = 0;
                    let n = GardenMap::go_static((i, j), Direction::North, width, height);
                    let e = GardenMap::go_static((i, j), Direction::East, width, height);
                    let so = GardenMap::go_static((i, j), Direction::South, width, height);
                    let w = GardenMap::go_static((i, j), Direction::West, width, height);
                    assert(gv[n.1 as int].len() >= width && gv[e.1 as int].len() >= width);
                    assert(gv[so.1 as int].len() >= width && gv[w.1 as int].len() >= width);
                    if is_open(&g, n) {
                        cnt = cnt + 1;
                    }
                    if is_open(&g, e) {
                        cnt = cnt + 1;
                    }
                    if is_open(&g, so) {
                        cnt = cnt + 1;
                    }
                    if is_open(&g, w) {
                        cnt = cnt + 1;
                    }
                    cnt
                };
                row.push(v);
                assert(row@ =~= want[j as int].take(i + 1));
                i = i + 1;
            }
            assert(row@ =~= want[j as int]);
            let ghost old_rows = counts_view(nmap@);
            nmap.push(row);
            assert(counts_view(nmap@) =~= old_rows.push(want[j as int]));
            assert(want.take(j + 1) =~= want.take(j as int).push(want[j as int]));
            j = j + 1;
        }
        assert(want.take(j as int) =~= want);
        GardenMap { map: nmap, start, width, height }
    }
}

/// The count of the plot at a coordinate.
pub open spec fn val_at(m: Seq<Seq<u8>>, c: (usize, usize)) -> int {
    m[c.1 as int][c.0 as int] as int
}

/// A walker one step on from `p` in direction `k`, its count multiplied by
/// the count of the plot it reaches.
pub open spec fn step_to(m: Seq<Seq<u8>>, w: usize, h: usize, p: ((usize, usize), int), k: int) -> ((usize, usize), int) {
    let nc = go_spec(p.0, dir_of(k), w, h);
    (nc, p.1 * val_at(m, nc))
}

/// The walkers after `d` steps, as a set of places with counts: one with
/// count 1 at the start, then every step of every walker onto a plot with a
/// nonzero count, walkers with equal place and count counted once.
pub open spec fn level_set(m: Seq<Seq<u8>>, w: usize, h: usize, start: (usize, usize), d: nat) -> Set<((usize, usize), int)>
    decreases d,
{
    if d == 0 {
        set![(start, 1int)]
    } else {
        let prev = level_set(m, w, h, start, (d - 1) as nat);
        Set::new(
            |e: ((usize, usize), int)|
                exists|p: ((usize, usize), int), k: int|
                    #![trigger prev.contains(p), step_to(m, w, h, p, k)]
                    prev.contains(p) && 0 <= k < 4 && val_at(m, step_to(m, w, h, p, k).0) != 0 && e == step_to(m, w, h, p, k),
        )
    }
}

/// Every count up to `target` steps fits in a `u128`.
pub open spec fn counts_fit(m: Seq<Seq<u8>>, w: usize, h: usize, start: (usize, usize), target: nat) -> bool {
    forall|d: nat, e: ((usize, usize), int)| d <= target && #[trigger] level_set(m, w, h, start, d).contains(e) ==> e.1 <= u128::MAX
}

/// The sum of the counts of a sequence of walkers.
pub open spec fn count_sum(s: Seq<((usize, usize), int)>) -> int
    decreases s.len(),
{
    if s.len() == 0 {
        0
    } else {
        count_sum(s.drop_last()) + s.last().1
    }
}

/// The walkers as plain values.
pub open spec fn walkers_view(v: Seq<((usize, usize), u128)>) -> Seq<((usize, usize), int)> {
    v.map_values(|e: ((usize, usize), u128)| (e.0, e.1 as int))
}

/// The garden is `height` rows of `width` counts, and not empty.
pub open spec fn garden_wf(g: GardenMap) -> bool {
    &&& g.map@.len() == g.height
    &&& g.width > 0
    &&& g.height > 0
    &&& forall|j: int| 0 <= j < g.height ==> (#[trigger] g.map@[j])@.len() == g.width
}

/// The walkers from position `i` on hold no coordinate outside the garden.
pub open spec fn in_garden(s: Seq<((usize, usize), int)>, w: usize, h: usize) -> bool {
    forall|i: int| 0 <= i < s.len() ==> (#[trigger] s[i]).0.0 < w && s[i].0.1 < h
}

/// The walkers of the first `a` walkers of `prev` and, for walker `a`, of
/// its first `k` directions.
pub open spec fn partial_next(
    m: Seq<Seq<u8>>,
    w: usize,
    h: usize,
    prev: Seq<((usize, usize), int)>,
    a: int,
    k: int,
) -> Set<((usize, usize), int)> {
    Set::new(
        |e: ((usize, usize), int)|
            exists|i: int, kk: int|
                #![trigger prev[i], step_to(m, w, h, prev[i], kk)]
                0 <= i < prev.len() && 0 <= kk < 4 && (i < a || (i == a && kk < k)) && val_at(m, step_to(m, w, h, prev[i], kk).0)
                    != 0 && e == step_to(m, w, h, prev[i], kk),
    )
}

/// Whether `e` is among the walkers.
fn has_walker(v: &Vec<((usize, usize), u128)>, e: ((usize, usize), u128)) -> (b: bool)
    ensures
        b == walkers_view(v@).contains((e.0, e.1 as int)),
{
    let mut i: usize = 0;
    while i < v.len()
        invariant
            i <= v@.len(),
            forall|k: int| 0 <= k < i ==> walkers_view(v@)[k] != (e.0, e.1 as int),
        decreases v@.len() - i,
    {
        let x = v[i];
        assert(walkers_view(v@)[i as int] == (x.0, x.1 as int));
        if x.0.0 == e.0.0 && x.0.1 == e.0.1 && x.1 == e.1 {
            return true;
        }
        i = i + 1;
    }
    false
}

impl GardenMap {
    /// The walkers after the next step from `prev` (see `level_set`), each
    /// once; `None` where a count exceeds `u128::MAX`.
    fn next_level(&self, prev: &Vec<((usize, usize), u128)>) -> (r: Option<Vec<((usize, usize), u128)>>)
        requires
            garden_wf(*self),
            in_garden(walkers_view(prev@), self.width, self.height),
        ensures
            match r {
                Some(v) => walkers_view(v@).no_duplicates() && walkers_view(v@).to_set() == partial_next(
                    counts_view(self.map@),
                    self.width,
                    self.height,
                    walkers_view(prev@),
                    prev@.len() as int,
                    0,
                ) && in_garden(walkers_view(v@), self.width, self.height),
                None => exists|e: ((usize, usize), int)|
                    partial_next(
                        counts_view(self.map@),
                        self.width,
                        self.height,
                        walkers_view(prev@),
                        prev@.len() as int,
                        0,
                    ).contains(e) && e.1 > u128::MAX,
            },
    {
        let ghost m = counts_view(self.map@);
        let ghost pv = walkers_view(prev@);
        let w = self.width;
        let h = self.height;
        let mut next: Vec<((usize, usize), u128)> = Vec::new();
        let mut a: usize = 0;
        while a < prev.len()
            invariant
                a <= prev@.len(),
                garden_wf(*self),
                m == counts_view(self.map@),
                pv == walkers_view(prev@),
                w == self.width,
                h == self.height,
                in_garden(pv, w, h),
                walkers_view(next@).no_duplicates(),
                in_garden(walkers_view(next@), w, h),
                walkers_view(next@).to_set() == partial_next(m, w, h, pv, a as int, 0),
            decreases prev@.len() - a,
        {
            let p = prev[a];
            assert(pv[a as int] == (p.0, p.1 as int));
            let mut k: usize = 0;
            while k < 4
                invariant
                    a < prev@.len(),
                    k <= 4,
                    garden_wf(*self),
                    m == counts_view(self.map@),
                    pv == walkers_view(prev@),
                    w == self.width,
                    h == self.height,
                    in_garden(pv, w, h),
                    pv[a as int] == (p.0, p.1 as int),
                    walkers_view(next@).no_duplicates(),
                    in_garden(walkers_view(next@), w, h),
                    walkers_view(next@).to_set() == partial_next(m, w, h, pv, a as int, k as int),
                decreases 4 - k,
            {
                let dir = if k == 0 {
                    Direction::North
                } else if k == 1 {
                    Direction::East
                } else if k == 2 {
                    Direction::South
                } else {
                    Direction::West
                };
                assert(dir == dir_of(k as int));
                assert(p.0.0 < w && p.0.1 < h);
                let nc = self.go(p.0, dir);
                let ghost st = step_to(m, w, h, pv[a as int], k as int);
                assert(st.0 == nc);
                assert(self.map@[nc.1 as int]@.len() == w);
                assert(m[nc.1 as int] == self.map@[nc.1 as int]@);
                let v = self.map[nc.1][nc.0];
                assert(val_at(m, nc) == v as int);
                let ghost before = walkers_view(next@);
                if v != 0 {
                    match p.1.checked_mul(v as u128) {
                        Some(c) => {
                            let e = (nc, c);
                            assert((e.0, e.1 as int) == st);
                            if !has_walker(&next, e) {
                                next.push(e);
                                assert(walkers_view(next@) =~= before.push(st));
                            }
                        },
                        None => {
                            assert(partial_next(m, w, h, pv, pv.len() as int, 0).contains(st));
                            return None;
                        },
                    }
                }
                proof {
                    let nv = walkers_view(next@);
                    let pk = partial_next(m, w, h, pv, a as int, k as int);
                    let pk1 = partial_next(m, w, h, pv, a as int, k + 1);
                    assert(before.to_set() == pk);
                    assert(v != 0 ==> nv.contains(st)) by {
                        if v != 0 && !nv.contains(st) {
                            assert(before.contains(st) || nv[before.len() as int] == st);
                        }
                    }
                    assert forall|e: ((usize, usize), int)| before.contains(e) implies nv.contains(e) by {
                        let j = choose|j: int| 0 <= j < before.len() && before[j] == e;
                        assert(nv[j] == e);
                    }
                    assert forall|e: ((usize, usize), int)| #[trigger] pk1.contains(e) implies nv.to_set().contains(e) by {
                        let (i, kk) = choose|i: int, kk: int|
                            0 <= i < pv.len() && 0 <= kk < 4 && (i < a || (i == a && kk < k + 1)) && val_at(
                                m,
                                step_to(m, w, h, pv[i], kk).0,
                            ) != 0 && e == step_to(m, w, h, pv[i], kk);
                        if i < a || (i == a && kk < k) {
                            assert(pk.contains(e));
                            assert(before.contains(e));
                        } else {
                            assert(e == st);
                        }
                    }
                    assert forall|e: ((usize, usize), int)| #[trigger] nv.to_set().contains(e) implies pk1.contains(e) by {
                        if before.contains(e) {
                            assert(pk.contains(e));
                            let (i, kk) = choose|i: int, kk: int|
                                0 <= i < pv.len() && 0 <= kk < 4 && (i < a || (i == a && kk < k)) && val_at(
                                    m,
                                    step_to(m, w, h, pv[i], kk).0,
                                ) != 0 && e == step_to(m, w, h, pv[i], kk);
                            assert(pv[i] == pv[i]);
                        } else {
                            let j = choose|j: int| 0 <= j < nv.len() && nv[j] == e;
                            assert(j == before.len());
                            assert(e == st);
                            assert(pv[a as int] == pv[a as int]);
                        }
                    }
                    assert(nv.to_set() =~= pk1);
                }
                k = k + 1;
            }
            assert(partial_next(m, w, h, pv, a as int, 4) =~= partial_next(m, w, h, pv, a + 1, 0));
            a = a + 1;
        }
        Some(next)
    }
}

proof fn lemma_partial_is_level(m: Seq<Seq<u8>>, w: usize, h: usize, start: (usize, usize), d: nat, pv: Seq<((usize, usize), int)>)
    requires
        pv.to_set() == level_set(m, w, h, start, d),
    ensures
        partial_next(m, w, h, pv, pv.len() as int, 0) == level_set(m, w, h, start, d + 1),
{
    let prev = level_set(m, w, h, start, d);
    let pn = partial_next(m, w, h, pv, pv.len() as int, 0);
    let nx = level_set(m, w, h, start, d + 1);
    assert forall|e: ((usize, usize), int)| #[trigger] pn.contains(e) implies nx.contains(e) by {
        let (i, kk) = choose|i: int, kk: int|
            0 <= i < pv.len() && 0 <= kk < 4 && (i < pv.len() || (i == pv.len() && kk < 0)) && val_at(
                m,
                step_to(m, w, h, pv[i], kk).0,
            ) != 0 && e == step_to(m, w, h, pv[i], kk);
        assert(pv.to_set().contains(pv[i]));
        assert(prev.contains(pv[i]));
    }
    assert forall|e: ((usize, usize), int)| #[trigger] nx.contains(e) implies pn.contains(e) by {
        let (p, k) = choose|p: ((usize, usize), int), k: int|
            prev.contains(p) && 0 <= k < 4 && val_at(m, step_to(m, w, h, p, k).0) != 0 && e == step_to(m, w, h, p, k);
        assert(pv.to_set().contains(p));
        let i = choose|i: int| 0 <= i < pv.len() && pv[i] == p;
        assert(pv[i] == p);
    }
    assert(pn =~= nx);
}

proof fn lemma_count_sum_prefix(s: Seq<((usize, usize), int)>, k: int)
    requires
        0 <= k <= s.len(),
        forall|i: int| 0 <= i < s.len() ==> (#[trigger] s[i]).1 >= 0,
    ensures
        count_sum(s.take(k)) <= count_sum(s),
    decreases s.len(),
{
    if k < s.len() {
        lemma_count_sum_prefix(s.drop_last(), k);
        assert(s.drop_last().take(k) =~= s.take(k));
    } else {
        assert(s.take(k) =~= s);
    }
}

/// The garden of the text can be walked: no row is shorter than the first,
/// the first is not empty, and the start lies within the garden.
pub open spec fn walk_ready(s: Seq<char>) -> bool {
    let g = garden_rows(s);
    let st = start_spec(g, g.len() as int);
    &&& garden_ok(g)
    &&& g[0].len() > 0
    &&& st.0 < g[0].len()
    &&& st.1 < g.len()
}

/// The walkers of the garden of the text after `target` steps.
pub open spec fn walkers_after(s: Seq<char>, target: nat) -> Set<((usize, usize), int)> {
    let g = garden_rows(s);
    let w = g[0].len() as usize;
    level_set(counts_spec(g, w), w, g.len() as usize, start_spec(g, g.len() as int), target)
}

/// Every count up to `target` steps in the garden of the text fits in a
/// `u128`.
pub open spec fn walk_fits(s: Seq<char>, target: nat) -> bool {
    let g = garden_rows(s);
    let w = g[0].len() as usize;
    counts_fit(counts_spec(g, w), w, g.len() as usize, start_spec(g, g.len() as int), target)
}

/// The sum of the counts of the walkers after `target` steps (see
/// `level_set`), the walkers of each step taken in order, for a garden no
/// row of which is shorter than the first; `None` where the first row is
/// empty, the start lies outside the garden, or a count or the sum exceeds
/// `u128::MAX`.
pub fn plots_total(data: &str, target: usize) -> (r: Option<u128>)
    requires
        garden_ok(garden_rows(data@)),
    ensures
        match r {
            Some(v) => walk_ready(data@) && walk_fits(data@, target as nat) && exists|s: Seq<((usize, usize), int)>|
                s.no_duplicates() && s.to_set() == walkers_after(data@, target as nat) && count_sum(s) == v,
            None => !walk_ready(data@) || !walk_fits(data@, target as nat) || exists|s: Seq<((usize, usize), int)>|
                s.no_duplicates() && s.to_set() == walkers_after(data@, target as nat) && count_sum(s) > u128::MAX,
        },
{
    let m = GardenMap::from_string(data);
    let ghost g = garden_rows(data@);
    let ghost mv = counts_view(m.map@);
    if m.width == 0 || m.start.0 >= m.width || m.start.1 >= m.height {
        return None;
    }
    assert(walk_ready(data@));
    assert(mv == counts_spec(g, g[0].len() as usize));
    assert(mv.len() == g.len());
    assert(mv.len() == m.map@.len());
    proof {
        assert forall|j: int| 0 <= j < m.height implies (#[trigger] m.map@[j])@.len() == m.width by {
            assert(mv[j] == m.map@[j]@);
        }
    }
    assert(garden_wf(m));
    let mut level: Vec<((usize, usize), u128)> = Vec::new();
    level.push((m.start, 1));
    assert(walkers_view(level@) =~= seq![(m.start, 1int)]);
    proof {
        let lv0 = walkers_view(level@);
        assert(lv0[0] == (m.start, 1int));
        assert(lv0.to_set().contains((m.start, 1int)));
        assert forall|e: ((usize, usize), int)| lv0.to_set().contains(e) implies e == (m.start, 1int) by {
            let j = choose|j: int| 0 <= j < lv0.len() && lv0[j] == e;
        }
        assert(lv0.to_set() =~= level_set(mv, m.width, m.height, m.start, 0));
    }
    assert forall|dd: nat, e: ((usize, usize), int)|
        dd <= 0 && #[trigger] level_set(mv, m.width, m.height, m.start, dd).contains(e) implies e.1 <= u128::MAX by {
        assert(walkers_view(level@).to_set().contains(e));
    }
    let mut d: usize = 0;
    while d < target
        invariant
            d <= target,
            garden_wf(m),
            mv == counts_view(m.map@),
            walk_ready(data@),
            g == garden_rows(data@),
            mv == counts_spec(g, g[0].len() as usize),
            m.width == g[0].len(),
            m.height == g.len(),
            m.start == start_spec(g, g.len() as int),
            in_garden(walkers_view(level@), m.width, m.height),
            walkers_view(level@).no_duplicates(),
            walkers_view(level@).to_set() == level_set(mv, m.width, m.height, m.start, d as nat),
            forall|dd: nat, e: ((usize, usize), int)|
                dd <= d && #[trigger] level_set(mv, m.width, m.height, m.start, dd).contains(e) ==> e.1 <= u128::MAX,
        decreases target - d,
    {
        proof {
            lemma_partial_is_level(mv, m.width, m.height, m.start, d as nat, walkers_view(level@));
        }
        match m.next_level(&level) {
            Some(v) => {
                proof {
                    let nxt = level_set(mv, m.width, m.height, m.start, (d + 1) as nat);
                    assert forall|dd: nat, e: ((usize, usize), int)|
                        dd <= d + 1 && #[trigger] level_set(mv, m.width, m.height, m.start, dd).contains(e) implies e.1
                        <= u128::MAX by {
                        if dd == d + 1 {
                            assert(walkers_view(v@).to_set().contains(e));
                            let j = choose|j: int| 0 <= j < walkers_view(v@).len() && walkers_view(v@)[j] == e;
                            assert(walkers_view(v@)[j].1 == v@[j].1 as int);
                        }
                    }
                }
                level = v;
            },
            None => {
                proof {
                    let e = choose|e: ((usize, usize), int)|
                        level_set(mv, m.width, m.height, m.start, (d + 1) as nat).contains(e) && e.1 > u128::MAX;
                    assert(level_set(mv, m.width, m.height, m.start, (d + 1) as nat).contains(e));
                    assert(!counts_fit(mv, m.width, m.height, m.start, target as nat));
                }
                return None;
            },
        }
        d = d + 1;
    }
    let ghost lv = walkers_view(level@);
    assert(lv.to_set() == walkers_after(data@, target as nat));
    assert forall|k: int| 0 <= k < lv.len() implies (#[trigger] lv[k]).1 >= 0 by {
        assert(lv[k].1 == level@[k].1 as int);
    }
    let mut total: u128 = 0;
    let mut i: usize = 0;
    while i < level.len()
        invariant
            i <= level@.len(),
            lv == walkers_view(level@),
            lv.no_duplicates(),
            lv.to_set() == walkers_after(data@, target as nat),
            forall|k: int| 0 <= k < lv.len() ==> (#[trigger] lv[k]).1 >= 0,
            total == count_sum(lv.take(i as int)),
        decreases level@.len() - i,
    {
        assert(lv.take(i + 1).drop_last() =~= lv.take(i as int));
        assert(lv[i as int].1 == level@[i as int].1 as int);
        match total.checked_add(level[i].1) {
            Some(t) => {
                total = t;
            },
            None => {
                proof {
                    lemma_count_sum_prefix(lv, i + 1);
                }
                return None;
            },
        }
        i = i + 1;
    }
    assert(lv.take(i as int) =~= lv);
    Some(total)
}

} // verus!
