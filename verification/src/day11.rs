//! Cosmic expansion: mark the empty rows and columns of the image, list the
//! galaxies, and walk from galaxy to galaxy one step at a time, a step onto
//! a marked position (an empty row or column) counting twice.
use vstd::prelude::*;
use crate::text::{chars_of, lines, lines_spec, rows, trim, trim_spec};

verus! {

/// A position: column, then row.
pub type Coord = (usize, usize);

/// The image with its empty rows and columns marked `*`, and its galaxies.
#[derive(Debug, Clone)]
pub struct SkyMap {
    pub map: Vec<Vec<char>>,
    pub galaxies: Vec<Coord>,
    pub width: usize,
    pub height: usize,
}

/// The row holds only empty space.
pub open spec fn empty_row(l: Seq<char>) -> bool {
    forall|x: int| 0 <= x < l.len() ==> l[x] == '.'
}

/// The image rows, trimmed, with every empty row marked.
pub open spec fn marked_rows(ls: Seq<Seq<char>>) -> Seq<Seq<char>> {
    ls.map_values(|l: Seq<char>| {
        let t = trim_spec(l);
        if empty_row(t) {
            Seq::new(t.len(), |x: int| '*')
        } else {
            t
        }
    })
}

/// Every row reaches column `x`, and there it holds empty or marked space.
pub open spec fn empty_column(m: Seq<Seq<char>>, x: int) -> bool {
    forall|y: int| 0 <= y < m.len() ==> x < (#[trigger] m[y]).len() && (m[y][x] == '.' || m[y][x] == '*')
}

/// Checking column `x` row by row stops at a row that shows something else
/// there before it meets a row too short to reach the column.
pub open spec fn column_checkable(m: Seq<Seq<char>>, x: int) -> bool {
    forall|y: int| 0 <= y < m.len() && x >= (#[trigger] m[y]).len() ==> exists|t: int| 0 <= t < y && x < m[t].len() && !(#[trigger] m[t][x] == '.' || m[t][x] == '*')
}

/// The marked map: marked rows, then every empty column among the first
/// row's columns marked as well.
pub open spec fn marked_map(ls: Seq<Seq<char>>) -> Seq<Seq<char>> {
    let m = marked_rows(ls);
    let w = m[0].len();
    Seq::new(
        m.len(),
        |y: int| Seq::new(m[y].len(), |x: int| if x < w && empty_column(m, x) { '*' } else { m[y][x] }),
    )
}

/// There is a first row, and every column among its columns can be checked.
pub open spec fn columns_ok(ls: Seq<Seq<char>>) -> bool {
    let m = marked_rows(ls);
    m.len() > 0 && forall|x: int| 0 <= x < m[0].len() ==> #[trigger] column_checkable(m, x)
}

/// The galaxies of the image, row by row and left to right within a row.
pub open spec fn galaxies_upto(m: Seq<Seq<char>>, y: int) -> Seq<Coord>
    decreases y,
{
    if y <= 0 {
        Seq::empty()
    } else {
        galaxies_upto(m, y - 1) + galaxies_in(m[y - 1], y - 1, m[y - 1].len() as int)
    }
}

/// The galaxies among the first `x` positions of row `y`.
pub open spec fn galaxies_in(l: Seq<char>, y: int, x: int) -> Seq<Coord>
    decreases x,
{
    if x <= 0 {
        Seq::empty()
    } else {
        galaxies_in(l, y, x - 1) + if l[x - 1] == '#' {
            seq![((x - 1) as usize, y as usize)]
        } else {
            Seq::empty()
        }
    }
}


/// The map with the empty columns among the first `x` marked.
pub open spec fn marked_upto(m: Seq<Seq<char>>, w: int, x: int) -> Seq<Seq<char>> {
    Seq::new(
        m.len(),
        |y: int| Seq::new(m[y].len(), |t: int| if t < x && t < w && empty_column(m, t) { '*' } else { m[y][t] }),
    )
}

impl SkyMap {
    /// Reads the image, which has a line and whose every column can be
    /// checked (see `columns_ok`): trims each line, marks the empty rows and
    /// then the empty columns, and lists the galaxies.
    pub fn from_str(data: &str) -> (m: SkyMap)
        requires
            columns_ok(lines_spec(data@)),
        ensures
            ({
                let ls = lines_spec(data@);
                &&& rows(m.map@) == marked_map(ls)
                &&& m.galaxies@ == galaxies_upto(marked_rows(ls), ls.len() as int)
                &&& m.width == marked_rows(ls)[0].len()
                &&& m.height == ls.len()
            }),
    {
        Self::read(data).unwrap()
    }

    /// Whether the image has a line and every column can be checked.
    pub fn readable(data: &str) -> (b: bool)
        ensures
            b == columns_ok(lines_spec(data@)),
    {
        Self::read(data).is_some()
    }

    fn read(data: &str) -> (r: Option<SkyMap>)
        ensures
            match r {
                Some(m) => {
                    let ls = lines_spec(data@);
                    &&& columns_ok(ls)
                    &&& rows(m.map@) == marked_map(ls)
                    &&& m.galaxies@ == galaxies_upto(marked_rows(ls), ls.len() as int)
                    &&& m.width == marked_rows(ls)[0].len()
                    &&& m.height == ls.len()
                },
                None => !columns_ok(lines_spec(data@)),
            },
    {
        let chars = chars_of(data);
        let ls = lines(chars.as_slice());
        let ghost lv = rows(ls@);
        let ghost mr = marked_rows(lv);
        let mut map: Vec<Vec<char>> = Vec::new();
        let mut galaxies: Vec<Coord> = Vec::new();
        let mut y: usize = 0;
        while y < ls.len()
            invariant
                y <= ls@.len(),
                lv == rows(ls@),
                lv == lines_spec(data@),
                mr == marked_rows(lv),
                rows(map@) == mr.take(y as int),
                galaxies@ == galaxies_upto(mr, y as int),
            decreases ls@.len() - y,
        {
            assert(lv[y as int] == ls@[y as int]@);
            let mapline = trim(ls[y].as_slice());
            let mut empty = true;
            let mut k: usize = 0;
            while k < mapline.len()
                invariant
                    k <= mapline@.len(),
                    empty == forall|t: int| 0 <= t < k ==> mapline@[t] == '.',
                decreases mapline@.len() - k,
            {
                if mapline[k] != '.' {
                    empty = false;
                }
                k = k + 1;
            }
            assert(mr[y as int] == if empty_row(mapline@) { Seq::new(mapline@.len(), |x: int| '*') } else { mapline@ });
            if empty {
                let mut stars: Vec<char> = Vec::new();
                while stars.len() < mapline.len()
                    invariant
                        stars@.len() <= mapline@.len(),
                        forall|t: int| 0 <= t < stars@.len() ==> stars@[t] == '*',
                    decreases mapline@.len() - stars@.len(),
                {
                    stars.push('*');
                }
                assert(stars@ =~= Seq::new(mapline@.len(), |x: int| '*'));
                assert(stars@ == mr[y as int]);
                let ghost old_map = map@;
                assert(galaxies_in(mr[y as int], y as int, mr[y as int].len() as int) =~= Seq::<Coord>::empty()) by {
                    lemma_no_galaxies(mr[y as int], y as int, mr[y as int].len() as int);
                }
                map.push(stars);
                assert(rows(map@) =~= rows(old_map).push(mr[y as int]));
                assert(galaxies_upto(mr, y + 1) == galaxies_upto(mr, y as int) + galaxies_in(mr[y as int], y as int, mr[y as int].len() as int));
            } else {
                let ghost g0 = galaxies@;
                let mut x: usize = 0;
                while x < mapline.len()
                    invariant
                        x <= mapline@.len(),
                        y < ls@.len(),
                        galaxies@ == g0 + galaxies_in(mapline@, y as int, x as int),
                    decreases mapline@.len() - x,
                {
                    if mapline[x] == '#' {
                        galaxies.push((x, y));
                    }
                    x = x + 1;
                }
                assert(mapline@ == mr[y as int]);
                assert(galaxies_upto(mr, y + 1) == galaxies_upto(mr, y as int) + galaxies_in(mr[y as int], y as int, mr[y as int].len() as int));
                let ghost old_map = map@;
                map.push(mapline);
                assert(rows(map@) =~= rows(old_map).push(mr[y as int]));
            }
            assert(rows(map@) =~= mr.take(y + 1));
            assert(mr.take(y + 1)[y as int] == mr[y as int]);
            y = y + 1;
        }
        assert(mr.take(y as int) =~= mr);
        let height = map.len();
        if height == 0 {
            return None;
        }
        let width = map[0].len();
        assert(rows(map@)[0] == map@[0]@);
        assert forall|t: int| 0 <= t < height implies #[trigger] rows(map@)[t] == marked_upto(mr, width as int, 0)[t] by {
            assert(rows(map@)[t] =~= marked_upto(mr, width as int, 0)[t]);
        }
        assert(rows(map@) =~= marked_upto(mr, width as int, 0));
        let mut x: usize = 0;
        while x < width
            invariant
                x <= width,
                height == mr.len(),
                width == mr[0].len(),
                mr == marked_rows(lv),
                lv == lines_spec(data@),
                map@.len() == height,
                rows(map@) == marked_upto(mr, width as int, x as int),
                forall|t: int| 0 <= t < x ==> #[trigger] column_checkable(mr, t),
            decreases width - x,
        {
            let mut empty = true;
            let mut yy: usize = 0;
            while yy < height
                invariant_except_break
                    empty,
                invariant
                    yy <= height,
                    x < width,
                    height == mr.len(),
                    width == mr[0].len(),
                    mr == marked_rows(lv),
                    lv == lines_spec(data@),
                    map@.len() == height,
                    rows(map@) == marked_upto(mr, width as int, x as int),
                    forall|t: int| 0 <= t < yy ==> x < (#[trigger] mr[t]).len() && (mr[t][x as int] == '.' || mr[t][x as int] == '*'),
                ensures
                    empty ==> yy == height,
                    !empty ==> yy < height && x < mr[yy as int].len() && !(mr[yy as int][x as int] == '.' || mr[yy as int][x as int] == '*'),
                    forall|t: int| 0 <= t < yy ==> x < (#[trigger] mr[t]).len() && (mr[t][x as int] == '.' || mr[t][x as int] == '*'),
                decreases height - yy,
            {
                assert(rows(map@)[yy as int] == map@[yy as int]@);
                if x >= map[yy].len() {
                    proof {
                        assert(!column_checkable(mr, x as int)) by {
                            assert(x >= mr[yy as int].len());
                        }
                        assert(!columns_ok(lv));
                    }
                    return None;
                }
                let c = map[yy][x];
                assert(c == mr[yy as int][x as int]);
                if !(c == '.' || c == '*') {
                    empty = false;
                    break;
                }
                yy = yy + 1;
            }
            proof {
                assert(column_checkable(mr, x as int)) by {
                    assert forall|t: int| 0 <= t < mr.len() && x >= (#[trigger] mr[t]).len() implies exists|u: int| 0 <= u < t && x < mr[u].len() && !(#[trigger] mr[u][x as int] == '.' || mr[u][x as int] == '*') by {
                        assert(!empty && yy < t);
                        assert(x < mr[yy as int].len() && !(mr[yy as int][x as int] == '.' || mr[yy as int][x as int] == '*'));
                    }
                }
                assert(empty == empty_column(mr, x as int));
            }
            if empty {
                let mut yy: usize = 0;
                while yy < height
                    invariant
                        yy <= height,
                        x < width,
                        height == mr.len(),
                        width == mr[0].len(),
                        empty_column(mr, x as int),
                        forall|t: int| 0 <= t < height ==> (#[trigger] rows(map@)[t]) == if t < yy {
                            marked_upto(mr, width as int, x + 1)[t]
                        } else {
                            marked_upto(mr, width as int, x as int)[t]
                        },
                        rows(map@).len() == height,
                        map@.len() == height,
                    decreases height - yy,
                {
                    let ghost before = map@;
                    let mut row: Vec<char> = Vec::new();
                    std::mem::swap(&mut row, &mut map[yy]);
                    assert(row@ == rows(before)[yy as int]);
                    assert(x < mr[yy as int].len());
                    row.set(x, '*');
                    assert(row@ == row_set(rows(before)[yy as int], x as int));
                    std::mem::swap(&mut row, &mut map[yy]);
                    assert forall|t: int| 0 <= t < height implies (#[trigger] rows(map@)[t]) == if t < yy + 1 {
                        marked_upto(mr, width as int, x + 1)[t]
                    } else {
                        marked_upto(mr, width as int, x as int)[t]
                    } by {
                        if t == yy {
                            assert(rows(before)[t] == marked_upto(mr, width as int, x as int)[t]);
                            assert(map@[t]@ == row_set(rows(before)[t], x as int));
                            assert(rows(map@)[t] =~= marked_upto(mr, width as int, x + 1)[t]);
                        } else {
                            assert(map@[t] == before[t]);
                            assert(rows(map@)[t] == rows(before)[t]);
                        }
                    }
                    yy = yy + 1;
                }
                assert(rows(map@) =~= marked_upto(mr, width as int, x + 1));
            } else {
                assert forall|t: int| 0 <= t < height implies (#[trigger] marked_upto(mr, width as int, x + 1)[t]) == marked_upto(mr, width as int, x as int)[t] by {
                    assert(marked_upto(mr, width as int, x + 1)[t] =~= marked_upto(mr, width as int, x as int)[t]);
                }
                assert(marked_upto(mr, width as int, x + 1) =~= marked_upto(mr, width as int, x as int));
            }
            x = x + 1;
        }
        assert forall|t: int| 0 <= t < height implies #[trigger] marked_upto(mr, width as int, x as int)[t] == marked_map(lv)[t] by {
            assert(marked_upto(mr, width as int, x as int)[t] =~= marked_map(lv)[t]);
        }
        assert(marked_upto(mr, width as int, x as int) =~= marked_map(lv));
        Some(SkyMap { map, galaxies, width, height })
    }
}

/// The row with position `x` marked.
pub open spec fn row_set(r: Seq<char>, x: int) -> Seq<char> {
    r.update(x, '*')
}

proof fn lemma_no_galaxies(l: Seq<char>, y: int, x: int)
    requires
        forall|t: int| 0 <= t < l.len() ==> l[t] == '*',
        x <= l.len(),
    ensures
        galaxies_in(l, y, x) == Seq::<Coord>::empty(),
    decreases x,
{
    if x > 0 {
        lemma_no_galaxies(l, y, x - 1);
    }
}

/// The position lies on the map.
pub open spec fn on_map(m: Seq<Seq<char>>, p: (int, int)) -> bool {
    0 <= p.1 < m.len() && 0 <= p.0 < m[p.1].len()
}

/// The cost of stepping onto a position: two where it is marked (empty
/// rows and columns count twice),
/// otherwise one.
pub open spec fn cell_weight(m: Seq<Seq<char>>, p: (int, int)) -> int {
    if m[p.1][p.0] == '*' {
        2
    } else {
        1
    }
}

pub open spec fn sign(d: int) -> int {
    if d < 0 {
        -1
    } else {
        1
    }
}

pub open spec fn abs(d: int) -> int {
    if d < 0 {
        -d
    } else {
        d
    }
}

/// The two candidate steps from `(x, y)` towards `(x1, y1)`: across and
/// down, each where it brings the walk closer, swapped when the rows still
/// to go exceed the columns still to go (signed).
pub open spec fn candidates(x: int, y: int, x1: int, y1: int) -> (Option<(int, int)>, Option<(int, int)>) {
    let dx = x1 - x;
    let dy = y1 - y;
    let a = if dx != 0 {
        Some((x + sign(dx), y))
    } else {
        None
    };
    let b = if dy != 0 {
        Some((x, y + sign(dy)))
    } else {
        None
    };
    if dy > dx {
        (b, a)
    } else {
        (a, b)
    }
}

/// The cost of the walk from `(x, y)` to `(x1, y1)`: at each step both
/// candidates are weighed and the cheaper taken (the first on a tie).
/// `None` where a candidate lies off the map.
pub open spec fn walk(m: Seq<Seq<char>>, x: int, y: int, x1: int, y1: int) -> Option<int>
    decreases abs(x1 - x) + abs(y1 - y),
{
    if x == x1 && y == y1 {
        Some(0)
    } else {
        let (a, b) = candidates(x, y, x1, y1);
        if (a is Some && !on_map(m, a->0)) || (b is Some && !on_map(m, b->0)) {
            None
        } else {
            let next = match (a, b) {
                (Some(pa), Some(pb)) => if cell_weight(m, pa) > cell_weight(m, pb) {
                    pb
                } else {
                    pa
                },
                (Some(pa), None) => pa,
                (None, Some(pb)) => pb,
                (None, None) => (x1, y1),
            };
            match walk(m, next.0, next.1, x1, y1) {
                Some(r) => Some(cell_weight(m, next) + r),
                None => None,
            }
        }
    }
}

/// Every row is as wide as the first.
pub open spec fn even_rows(m: Seq<Seq<char>>) -> bool {
    forall|y: int| 0 <= y < m.len() ==> #[trigger] m[y].len() == m[0].len()
}

/// No position of the map is marked.
pub open spec fn unmarked(m: Seq<Seq<char>>) -> bool {
    forall|y: int, x: int| 0 <= y < m.len() && 0 <= x < m[y].len() ==> #[trigger] m[y][x] != '*'
}

/// On a map with rows of one width, the walk between two of its positions
/// always ends: it takes as many steps as the positions are apart (across
/// plus down), each costing one or two, so exactly
/// that many where nothing is marked.
pub proof fn lemma_walk_steps(m: Seq<Seq<char>>, x: int, y: int, x1: int, y1: int)
    requires
        even_rows(m),
        on_map(m, (x, y)),
        on_map(m, (x1, y1)),
    ensures
        walk(m, x, y, x1, y1) is Some,
        walk(m, x, y, x1, y1) matches Some(r) ==> abs(x1 - x) + abs(y1 - y) <= r <= 2 * (abs(x1 - x) + abs(y1 - y)),
        unmarked(m) ==> walk(m, x, y, x1, y1) == Some(abs(x1 - x) + abs(y1 - y)),
    decreases abs(x1 - x) + abs(y1 - y),
{
    if !(x == x1 && y == y1) {
        let (a, b) = candidates(x, y, x1, y1);
        assert(m[y].len() == m[0].len());
        assert(m[y1].len() == m[0].len());
        if a is Some {
            let p = a->0;
            assert(m[p.1].len() == m[0].len());
            assert(on_map(m, p));
        }
        if b is Some {
            let p = b->0;
            assert(m[p.1].len() == m[0].len());
            assert(on_map(m, p));
        }
        let next = match (a, b) {
            (Some(pa), Some(pb)) => if cell_weight(m, pa) > cell_weight(m, pb) {
                pb
            } else {
                pa
            },
            (Some(pa), None) => pa,
            (None, Some(pb)) => pb,
            (None, None) => (x1, y1),
        };
        assert(on_map(m, next));
        assert(abs(x1 - next.0) + abs(y1 - next.1) == abs(x1 - x) + abs(y1 - y) - 1);
        lemma_walk_steps(m, next.0, next.1, x1, y1);
        if unmarked(m) {
            assert(m[next.1][next.0] != '*');
        }
    }
}

proof fn lemma_walk_nonneg(m: Seq<Seq<char>>, x: int, y: int, x1: int, y1: int)
    ensures
        walk(m, x, y, x1, y1) matches Some(r) ==> r >= 0,
    decreases abs(x1 - x) + abs(y1 - y),
{
    if !(x == x1 && y == y1) {
        let (a, b) = candidates(x, y, x1, y1);
        if !((a is Some && !on_map(m, a->0)) || (b is Some && !on_map(m, b->0))) {
            let next = match (a, b) {
                (Some(pa), Some(pb)) => if cell_weight(m, pa) > cell_weight(m, pb) {
                    pb
                } else {
                    pa
                },
                (Some(pa), None) => pa,
                (None, Some(pb)) => pb,
                (None, None) => (x1, y1),
            };
            lemma_walk_nonneg(m, next.0, next.1, x1, y1);
        }
    }
}

impl SkyMap {
    /// The cost of stepping onto position `(px, py)`.
    pub fn weight(&self, px: i64, py: i64) -> (w: i64)
        requires
            on_map(rows(self.map@), (px as int, py as int)),
        ensures
            w == cell_weight(rows(self.map@), (px as int, py as int)),
    {
        let h = self.map.len();
        let yi = py as usize;
        let row = &self.map[yi];
        assert(rows(self.map@)[py as int] == row@);
        let w = row.len();
        let xi = px as usize;
        if row[xi] == '*' {
            2
        } else {
            1
        }
    }

    /// The cost of the walk from galaxy position `start` to `end` (see
    /// `walk`); `None` where a candidate step lies off the map or the cost
    /// does not fit in an `i64`.
    pub fn dist(&self, start: Coord, end: Coord) -> (r: Option<i64>)
        requires
            start.0 <= i64::MAX,
            start.1 <= i64::MAX,
            end.0 <= i64::MAX,
            end.1 <= i64::MAX,
        ensures
            match r {
                Some(v) => walk(rows(self.map@), start.0 as int, start.1 as int, end.0 as int, end.1 as int) == Some(v as int),
                None => match walk(rows(self.map@), start.0 as int, start.1 as int, end.0 as int, end.1 as int) {
                    Some(t) => t > i64::MAX,
                    None => true,
                },
            },
    {
        let ghost m = rows(self.map@);
        let mut x = start.0 as i64;
        let mut y = start.1 as i64;
        let x1 = end.0 as i64;
        let y1 = end.1 as i64;
        let ghost total = walk(m, x as int, y as int, x1 as int, y1 as int);
        let mut dist: i64 = 0;
        loop
            invariant
                m == rows(self.map@),
                0 <= dist,
                total == walk(m, start.0 as int, start.1 as int, end.0 as int, end.1 as int),
                x1 == end.0 && y1 == end.1,
                total == match walk(m, x as int, y as int, x1 as int, y1 as int) {
                    Some(t) => Some(dist + t),
                    None => None::<int>,
                },
                (x <= x1 ==> 0 <= x) && (x >= x1 ==> x <= x1 || x <= i64::MAX),
                0 <= x <= i64::MAX,
                0 <= y <= i64::MAX,
            decreases abs(x1 - x) + abs(y1 - y),
        {
            if x == x1 && y == y1 {
                return Some(dist);
            }
            let dx = x1 - x;
            let dy = y1 - y;
            let mut a: Option<(i64, i64)> = None;
            let mut b: Option<(i64, i64)> = None;
            if dx != 0 {
                let dirx: i64 = if dx < 0 { -1 } else { 1 };
                a = Some((x + dirx, y));
            }
            if dy != 0 {
                let diry: i64 = if dy < 0 { -1 } else { 1 };
                b = Some((x, y + diry));
            }
            if dy > dx {
                let t = a;
                a = b;
                b = t;
            }
            let ghost cands = candidates(x as int, y as int, x1 as int, y1 as int);
            assert(a matches Some(p) ==> cands.0 == Some((p.0 as int, p.1 as int)));
            assert(a is None ==> cands.0 is None);
            assert(b matches Some(p) ==> cands.1 == Some((p.0 as int, p.1 as int)));
            assert(b is None ==> cands.1 is None);
            let aw: i64 = match a {
                Some(p) => {
                    if !self.in_map(p) {
                        return None;
                    }
                    self.weight(p.0, p.1)
                },
                None => 0,
            };
            let bw: i64 = match b {
                Some(p) => {
                    if !self.in_map(p) {
                        return None;
                    }
                    self.weight(p.0, p.1)
                },
                None => 0,
            };
            let (nx, ny, w) = match (a, b) {
                (Some(pa), Some(pb)) => {
                    if aw > bw {
                        (pb.0, pb.1, bw)
                    } else {
                        (pa.0, pa.1, aw)
                    }
                },
                (Some(pa), None) => (pa.0, pa.1, aw),
                (None, Some(pb)) => (pb.0, pb.1, bw),
                (None, None) => {
                    return None;
                },
            };
            proof {
                lemma_walk_nonneg(m, nx as int, ny as int, x1 as int, y1 as int);
            }
            match dist.checked_add(w) {
                Some(v) => {
                    dist = v;
                },
                None => {
                    return None;
                },
            }
            x = nx;
            y = ny;
        }
    }

    /// Whether position `p` lies on the map.
    pub fn in_map(&self, p: (i64, i64)) -> (b: bool)
        ensures
            b == on_map(rows(self.map@), (p.0 as int, p.1 as int)),
    {
        if p.1 < 0 || p.0 < 0 {
            return false;
        }
        if p.1 as u64 >= self.map.len() as u64 {
            return false;
        }
        let row = &self.map[p.1 as usize];
        assert(rows(self.map@)[p.1 as int] == row@);
        (p.0 as u64) < (row.len() as u64)
    }
}

/// The pairs `(i, j)` with `i < j < n`, for the first `i` values of `i`,
/// in order.
pub open spec fn pairs_upto(n: int, i: int) -> Seq<(usize, usize)>
    decreases i,
{
    if i <= 0 {
        Seq::empty()
    } else {
        pairs_upto(n, i - 1) + Seq::new((n - i) as nat, |k: int| ((i - 1) as usize, (i + k) as usize))
    }
}

/// The cost of the walk between the galaxies of a pair.
pub open spec fn pair_walk(m: Seq<Seq<char>>, gs: Seq<Coord>, p: (usize, usize)) -> Option<int> {
    walk(m, gs[p.0 as int].0 as int, gs[p.0 as int].1 as int, gs[p.1 as int].0 as int, gs[p.1 as int].1 as int)
}

/// The sum of the first `k` values.
pub open spec fn sum_of(vs: Seq<i64>, k: int) -> int
    decreases k,
{
    if k <= 0 {
        0
    } else {
        sum_of(vs, k - 1) + vs[k - 1]
    }
}

impl SkyMap {
    /// The cost of the walk between every two galaxies, pairs in order, and
    /// the sum of them all; `None` where a walk has no cost (see `dist`) or
    /// the sum does not fit in an `i64`.
    pub fn pair_distances(&self) -> (r: Option<(i64, Vec<((usize, usize), i64)>)>)
        requires
            forall|k: int| 0 <= k < self.galaxies@.len() ==> (#[trigger] self.galaxies@[k]).0 <= i64::MAX
                && self.galaxies@[k].1 <= i64::MAX,
        ensures
            r matches Some((total, ds)) ==> {
                let ps = pairs_upto(self.galaxies@.len() as int, self.galaxies@.len() as int);
                &&& ds@.len() == ps.len()
                &&& forall|k: int| 0 <= k < ps.len() ==> (#[trigger] ds@[k]).0 == ps[k] && pair_walk(rows(self.map@), self.galaxies@, ps[k]) == Some(ds@[k].1 as int)
                &&& total == sum_of(ds@.map_values(|d: ((usize, usize), i64)| d.1), ds@.len() as int)
            },
            r is None ==> {
                let ps = pairs_upto(self.galaxies@.len() as int, self.galaxies@.len() as int);
                exists|k: int| 0 <= k < ps.len() && match #[trigger] pair_walk(rows(self.map@), self.galaxies@, ps[k]) {
                    Some(t) => t > i64::MAX || sum_walks(rows(self.map@), self.galaxies@, ps, k + 1) > i64::MAX,
                    None => true,
                }
            },
    {
        let n = self.galaxies.len();
        let mut pairs: Vec<(usize, usize)> = Vec::new();
        let mut i: usize = 0;
        while i < n
            invariant
                i <= n,
                pairs@ == pairs_upto(n as int, i as int),
            decreases n - i,
        {
            let mut j: usize = i + 1;
            while j < n
                invariant
                    i < j <= n,
                    pairs@ == pairs_upto(n as int, i as int) + Seq::new((j - i - 1) as nat, |k: int| (i as usize, (i + 1 + k) as usize)),
                decreases n - j,
            {
                pairs.push((i, j));
                assert(pairs@ =~= pairs_upto(n as int, i as int) + Seq::new((j + 1 - i - 1) as nat, |k: int| (i as usize, (i + 1 + k) as usize)));
                j = j + 1;
            }
            assert(pairs@ =~= pairs_upto(n as int, i + 1));
            i = i + 1;
        }
        let ghost ps = pairs@;
        let ghost m = rows(self.map@);
        proof {
            lemma_pairs_bound(n as int, n as int);
        }
        let mut ds: Vec<((usize, usize), i64)> = Vec::new();
        let mut result: i64 = 0;
        let mut k: usize = 0;
        while k < pairs.len()
            invariant
                k <= pairs@.len(),
                ps == pairs@,
                ps == pairs_upto(n as int, n as int),
                n == self.galaxies@.len(),
                m == rows(self.map@),
                forall|t: int| 0 <= t < self.galaxies@.len() ==> (#[trigger] self.galaxies@[t]).0 <= i64::MAX
                    && self.galaxies@[t].1 <= i64::MAX,
                ds@.len() == k,
                forall|t: int| 0 <= t < k ==> (#[trigger] ds@[t]).0 == ps[t] && pair_walk(m, self.galaxies@, ps[t]) == Some(ds@[t].1 as int),
                result == sum_of(ds@.map_values(|d: ((usize, usize), i64)| d.1), k as int),
                result == sum_walks(m, self.galaxies@, ps, k as int),
                result >= 0,
                forall|t: int| 0 <= t < ps.len() ==> (#[trigger] ps[t]).0 < n && ps[t].1 < n,
            decreases pairs@.len() - k,
        {
            let p = pairs[k];
            assert(p.0 < n && p.1 < n);
            let d = match self.dist(self.galaxies[p.0], self.galaxies[p.1]) {
                Some(d) => d,
                None => {
                    assert(match pair_walk(m, self.galaxies@, ps[k as int]) {
                        Some(t) => t > i64::MAX || sum_walks(m, self.galaxies@, ps, k + 1) > i64::MAX,
                        None => true,
                    });
                    return None;
                },
            };
            assert(pair_walk(m, self.galaxies@, ps[k as int]) == Some(d as int));
            proof {
                let gs = self.galaxies@;
                lemma_walk_nonneg(m, gs[p.0 as int].0 as int, gs[p.0 as int].1 as int, gs[p.1 as int].0 as int, gs[p.1 as int].1 as int);
            }
            let ghost old_ds = ds@;
            ds.push((p, d));
            assert(ds@.map_values(|d: ((usize, usize), i64)| d.1).take(k as int) =~= old_ds.map_values(|d: ((usize, usize), i64)| d.1).take(k as int));
            proof {
                lemma_sum_prefix(ds@.map_values(|d: ((usize, usize), i64)| d.1), old_ds.map_values(|d: ((usize, usize), i64)| d.1), k as int);
            }
            match result.checked_add(d) {
                Some(v) => {
                    result = v;
                },
                None => {
                    assert(sum_walks(m, self.galaxies@, ps, k + 1) > i64::MAX);
                    return None;
                },
            }
            k = k + 1;
        }
        Some((result, ds))
    }
}

proof fn lemma_pairs_bound(n: int, i: int)
    requires
        0 <= i <= n,
    ensures
        forall|t: int| 0 <= t < pairs_upto(n, i).len() ==> (#[trigger] pairs_upto(n, i)[t]).0 < i && pairs_upto(n, i)[t].1 < n,
    decreases i,
{
    if i > 0 {
        lemma_pairs_bound(n, i - 1);
        let prev = pairs_upto(n, i - 1);
        let row = Seq::new((n - i) as nat, |k: int| ((i - 1) as usize, (i + k) as usize));
        assert forall|t: int| 0 <= t < pairs_upto(n, i).len() implies (#[trigger] pairs_upto(n, i)[t]).0 < i && pairs_upto(n, i)[t].1 < n by {
            if t < prev.len() {
                assert(pairs_upto(n, i)[t] == prev[t]);
            } else {
                assert(pairs_upto(n, i)[t] == row[t - prev.len()]);
            }
        }
    }
}

/// The sum of the walk costs of the first `k` pairs (a missing cost counts 0).
pub open spec fn sum_walks(m: Seq<Seq<char>>, gs: Seq<Coord>, ps: Seq<(usize, usize)>, k: int) -> int
    decreases k,
{
    if k <= 0 {
        0
    } else {
        sum_walks(m, gs, ps, k - 1) + match pair_walk(m, gs, ps[k - 1]) {
            Some(t) => t,
            None => 0,
        }
    }
}

proof fn lemma_sum_prefix(a: Seq<i64>, b: Seq<i64>, k: int)
    requires
        0 <= k <= a.len(),
        k <= b.len(),
        forall|t: int| 0 <= t < k ==> a[t] == b[t],
    ensures
        sum_of(a, k) == sum_of(b, k),
    decreases k,
{
    if k > 0 {
        lemma_sum_prefix(a, b, k - 1);
    }
}

/// Reads the image and finds the cost of the walk between every two
/// galaxies and their sum (see `SkyMap::from_str` and
/// `SkyMap::pair_distances`), every column of the image checkable; `None`
/// where a walk gives none or a galaxy position or a cost does not fit in
/// an `i64`.
pub fn galaxy_distances(data: &str) -> (r: Option<(i64, Vec<((usize, usize), i64)>)>)
    requires
        columns_ok(lines_spec(data@)),
    ensures
        r matches Some((total, ds)) ==> {
            let ls = lines_spec(data@);
            let m = marked_map(ls);
            let gs = galaxies_upto(marked_rows(ls), ls.len() as int);
            let ps = pairs_upto(gs.len() as int, gs.len() as int);
            &&& columns_ok(ls)
            &&& ds@.len() == ps.len()
            &&& forall|k: int| 0 <= k < ps.len() ==> (#[trigger] ds@[k]).0 == ps[k] && pair_walk(m, gs, ps[k]) == Some(ds@[k].1 as int)
            &&& total == sum_of(ds@.map_values(|d: ((usize, usize), i64)| d.1), ds@.len() as int)
        },
        r is None ==> {
            let ls = lines_spec(data@);
            let m = marked_map(ls);
            let gs = galaxies_upto(marked_rows(ls), ls.len() as int);
            let ps = pairs_upto(gs.len() as int, gs.len() as int);
            ||| !columns_ok(ls)
            ||| exists|t: int| 0 <= t < gs.len() && ((#[trigger] gs[t]).0 > i64::MAX || gs[t].1 > i64::MAX)
            ||| exists|k: int| 0 <= k < ps.len() && match #[trigger] pair_walk(m, gs, ps[k]) {
                Some(t) => t > i64::MAX || sum_walks(m, gs, ps, k + 1) > i64::MAX,
                None => true,
            }
        },
{
    let map = match SkyMap::read(data) {
        Some(m) => m,
        None => {
            return None;
        },
    };
    let mut k: usize = 0;
    while k < map.galaxies.len()
        invariant
            k <= map.galaxies@.len(),
            map.galaxies@ == galaxies_upto(marked_rows(lines_spec(data@)), lines_spec(data@).len() as int),
            forall|t: int| 0 <= t < k ==> (#[trigger] map.galaxies@[t]).0 <= i64::MAX && map.galaxies@[t].1 <= i64::MAX,
        decreases map.galaxies@.len() - k,
    {
        let g = map.galaxies[k];
        if g.0 as u64 > i64::MAX as u64 || g.1 as u64 > i64::MAX as u64 {
            assert(map.galaxies@[k as int] == g);
            return None;
        }
        k = k + 1;
    }
    map.pair_distances()
}

} // verus!
