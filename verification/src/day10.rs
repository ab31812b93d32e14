//! Pipe maze: each pipe joins two of the four directions; follow the loop
//! from the start tile back to it and count the steps.
use vstd::prelude::*;
use crate::text::{chars_of, lines, lines_spec, rows};

verus! {

/// A direction, with its bit among `NESW`.
#[derive(Debug, Copy, Clone, PartialEq, Eq, Structural)]
pub enum Direction {
    North,
    East,
    South,
    West,
}

/// The bit of a direction: north 8, east 4, south 2, west 1.
pub open spec fn dir_bits(d: Direction) -> int {
    match d {
        Direction::North => 8,
        Direction::East => 4,
        Direction::South => 2,
        Direction::West => 1,
    }
}

/// The opposite direction.
pub open spec fn opposite(d: Direction) -> Direction {
    match d {
        Direction::North => Direction::South,
        Direction::East => Direction::West,
        Direction::South => Direction::North,
        Direction::West => Direction::East,
    }
}

impl Direction {
    /// The opposite direction.
    pub fn flip(&self) -> (r: Direction)
        ensures
            r == opposite(*self),
    {
        match *self {
            Direction::North => Direction::South,
            Direction::East => Direction::West,
            Direction::South => Direction::North,
            Direction::West => Direction::East,
        }
    }
}

/// The direction whose bit is `value`, if any.
pub open spec fn dir_of_bits(value: i64) -> Option<Direction> {
    if value == 8 {
        Some(Direction::North)
    } else if value == 4 {
        Some(Direction::East)
    } else if value == 2 {
        Some(Direction::South)
    } else if value == 1 {
        Some(Direction::West)
    } else {
        None
    }
}

/// The direction whose bit is `value`; an error for any other value.
pub fn direction_from_bits(value: i64) -> (r: Result<Direction, ()>)
    ensures
        match r {
            Ok(d) => dir_of_bits(value) == Some(d),
            Err(_) => dir_of_bits(value) is None,
        },
{
    match value {
        8 => Ok(Direction::North),
        4 => Ok(Direction::East),
        2 => Ok(Direction::South),
        1 => Ok(Direction::West),
        _ => Err(()),
    }
}

/// A tile of the maze: ground, the start, or a pipe joining two directions.
#[derive(Debug, Copy, Clone, PartialEq, Eq, Structural)]
pub enum MapTile {
    Ground,
    Start,
    EastAndSouth,
    EastAndNorth,
    EastAndWest,
    WestAndSouth,
    WestAndNorth,
    NorthAndSouth,
}

/// The bits of the directions a tile joins (all four for the start, none
/// for ground).
pub open spec fn tile_bits(t: MapTile) -> int {
    match t {
        MapTile::Ground => 0,
        MapTile::Start => 15,
        MapTile::EastAndSouth => 6,
        MapTile::EastAndNorth => 12,
        MapTile::EastAndWest => 5,
        MapTile::WestAndSouth => 3,
        MapTile::WestAndNorth => 9,
        MapTile::NorthAndSouth => 10,
    }
}

/// The tile is a pipe that joins direction `d`.
pub open spec fn joins(t: MapTile, d: Direction) -> bool {
    match t {
        MapTile::Ground => false,
        MapTile::Start => false,
        MapTile::EastAndSouth => d == Direction::East || d == Direction::South,
        MapTile::EastAndNorth => d == Direction::East || d == Direction::North,
        MapTile::EastAndWest => d == Direction::East || d == Direction::West,
        MapTile::WestAndSouth => d == Direction::West || d == Direction::South,
        MapTile::WestAndNorth => d == Direction::West || d == Direction::North,
        MapTile::NorthAndSouth => d == Direction::North || d == Direction::South,
    }
}

/// The other direction a pipe joins, besides `d`.
pub open spec fn other_end(t: MapTile, d: Direction) -> Direction {
    match t {
        MapTile::EastAndSouth => if d == Direction::East { Direction::South } else { Direction::East },
        MapTile::EastAndNorth => if d == Direction::East { Direction::North } else { Direction::East },
        MapTile::EastAndWest => if d == Direction::East { Direction::West } else { Direction::East },
        MapTile::WestAndSouth => if d == Direction::West { Direction::South } else { Direction::West },
        MapTile::WestAndNorth => if d == Direction::West { Direction::North } else { Direction::West },
        _ => if d == Direction::North { Direction::South } else { Direction::North },
    }
}

impl MapTile {
    /// The other direction the pipe joins, besides `rhs`, which it must join.
    pub fn other_direction(&self, rhs: Direction) -> (r: Direction)
        requires
            joins(*self, rhs),
        ensures
            r == other_end(*self, rhs),
            joins(*self, r),
            r != rhs,
    {
        match *self {
            MapTile::EastAndSouth => if rhs == Direction::East { Direction::South } else { Direction::East },
            MapTile::EastAndNorth => if rhs == Direction::East { Direction::North } else { Direction::East },
            MapTile::EastAndWest => if rhs == Direction::East { Direction::West } else { Direction::East },
            MapTile::WestAndSouth => if rhs == Direction::West { Direction::South } else { Direction::West },
            MapTile::WestAndNorth => if rhs == Direction::West { Direction::North } else { Direction::West },
            _ => if rhs == Direction::North { Direction::South } else { Direction::North },
        }
    }

    /// Whether the tile is a pipe that joins direction `rhs`.
    pub fn bitand(self, rhs: Direction) -> (b: bool)
        ensures
            b == joins(self, rhs),
    {
        match self {
            MapTile::Ground => false,
            MapTile::Start => false,
            MapTile::EastAndSouth => rhs == Direction::East || rhs == Direction::South,
            MapTile::EastAndNorth => rhs == Direction::East || rhs == Direction::North,
            MapTile::EastAndWest => rhs == Direction::East || rhs == Direction::West,
            MapTile::WestAndSouth => rhs == Direction::West || rhs == Direction::South,
            MapTile::WestAndNorth => rhs == Direction::West || rhs == Direction::North,
            MapTile::NorthAndSouth => rhs == Direction::North || rhs == Direction::South,
        }
    }
}

/// The bits law: a pipe joins `d` exactly when its bits hold `d`'s bit, and
/// its other end is the bit that is left.
pub proof fn lemma_joins_bits(t: MapTile, d: Direction)
    requires
        t != MapTile::Ground,
        t != MapTile::Start,
    ensures
        joins(t, d) == ((tile_bits(t) / dir_bits(d)) % 2 == 1),
        joins(t, d) ==> dir_bits(other_end(t, d)) == tile_bits(t) - dir_bits(d),
{
}

/// A position: column, then row.
pub type Coord = (usize, usize);

/// The tile a character shows, if any.
pub open spec fn tile_of(c: char) -> Option<MapTile> {
    if c == 'S' {
        Some(MapTile::Start)
    } else if c == 'F' {
        Some(MapTile::EastAndSouth)
    } else if c == '-' {
        Some(MapTile::EastAndWest)
    } else if c == '7' {
        Some(MapTile::WestAndSouth)
    } else if c == '|' {
        Some(MapTile::NorthAndSouth)
    } else if c == 'J' {
        Some(MapTile::WestAndNorth)
    } else if c == 'L' {
        Some(MapTile::EastAndNorth)
    } else if c == '.' {
        Some(MapTile::Ground)
    } else {
        None
    }
}

/// The maze: its tiles row by row, its size (from the first row), and the
/// start (the last start tile read, or the corner).
#[derive(Debug)]
pub struct PipeMap {
    pub map: Vec<Vec<MapTile>>,
    pub width: usize,
    pub height: usize,
    pub start: (usize, usize),
}

/// The tile rows as plain values.
pub open spec fn tile_rows(v: Seq<Vec<MapTile>>) -> Seq<Seq<MapTile>> {
    v.map_values(|r: Vec<MapTile>| r@)
}

/// Every character of every line shows a tile.
pub open spec fn maze_readable(ls: Seq<Seq<char>>) -> bool {
    forall|y: int, x: int| 0 <= y < ls.len() && 0 <= x < ls[y].len() ==> (#[trigger] tile_of(ls[y][x])) is Some
}

/// The maze the lines show.
pub open spec fn maze_of(ls: Seq<Seq<char>>) -> Seq<Seq<MapTile>> {
    ls.map_values(|l: Seq<char>| l.map_values(|c: char| tile_of(c)->0))
}

/// The last start tile in the first `y` rows, scanning row by row, or `s`.
pub open spec fn start_upto(m: Seq<Seq<MapTile>>, y: int, s: Coord) -> Coord
    decreases y,
{
    if y <= 0 {
        s
    } else {
        start_in_row(m[y - 1], y - 1, m[y - 1].len() as int, start_upto(m, y - 1, s))
    }
}

/// The last start tile among the first `x` of row `y`, or `s`.
pub open spec fn start_in_row(r: Seq<MapTile>, y: int, x: int, s: Coord) -> Coord
    decreases x,
{
    if x <= 0 {
        s
    } else if r[x - 1] == MapTile::Start {
        ((x - 1) as usize, y as usize)
    } else {
        start_in_row(r, y, x - 1, s)
    }
}

/// A move one step in direction `d` from `loc`, if it stays on the map.
pub open spec fn step_to(width: int, height: int, loc: Coord, d: Direction) -> Option<Coord> {
    let x = loc.0 as int;
    let y = loc.1 as int;
    let (nx, ny) = match d {
        Direction::North => (x, y - 1),
        Direction::East => (x + 1, y),
        Direction::South => (x, y + 1),
        Direction::West => (x - 1, y),
    };
    if nx < 0 || ny < 0 || nx >= width || ny >= height {
        None
    } else {
        Some((nx as usize, ny as usize))
    }
}

/// The tile at a position of the map.
pub open spec fn tile_at(m: Seq<Seq<MapTile>>, loc: Coord) -> MapTile {
    m[loc.1 as int][loc.0 as int]
}

/// There is a row, and no row is shorter than the first.
pub open spec fn maze_rect(m: Seq<Seq<MapTile>>) -> bool {
    m.len() > 0 && forall|y: int| 0 <= y < m.len() ==> (#[trigger] m[y]).len() >= m[0].len()
}

/// The map is well formed: its rows, size and start agree.
pub open spec fn map_ok(p: PipeMap) -> bool {
    &&& maze_rect(tile_rows(p.map@))
    &&& p.height == p.map@.len()
    &&& p.width == p.map@[0]@.len()
    &&& p.start.0 < p.width
    &&& p.start.1 < p.height
    &&& p.width < i64::MAX
    &&& p.height < i64::MAX
}

/// The way to leave the start: the first neighbour (left, above, right,
/// below) on the map whose pipe joins the start, and the direction towards
/// it; `None` when there is none.
pub open spec fn start_dir(m: Seq<Seq<MapTile>>, width: int, height: int, start: Coord) -> Option<Direction> {
    let cands = seq![Direction::West, Direction::North, Direction::East, Direction::South];
    start_dir_from(m, width, height, start, cands, 0)
}

pub open spec fn start_dir_from(m: Seq<Seq<MapTile>>, width: int, height: int, start: Coord, cands: Seq<Direction>, k: int) -> Option<Direction>
    decreases cands.len() - k,
{
    if k < 0 || k >= cands.len() {
        None
    } else {
        match step_to(width, height, start, cands[k]) {
            Some(p) => if joins(tile_at(m, p), opposite(cands[k])) {
                Some(cands[k])
            } else {
                start_dir_from(m, width, height, start, cands, k + 1)
            },
            None => start_dir_from(m, width, height, start, cands, k + 1),
        }
    }
}

impl PipeMap {
    /// Reads the maze, which has a line and shows a tile at every character.
    pub fn from_str(data: &str) -> (p: PipeMap)
        requires
            maze_readable(lines_spec(data@)),
            lines_spec(data@).len() > 0,
        ensures
            tile_rows(p.map@) == maze_of(lines_spec(data@)),
            p.height == p.map@.len(),
            p.width == p.map@[0]@.len(),
            p.start == start_upto(maze_of(lines_spec(data@)), lines_spec(data@).len() as int, (0, 0)),
    {
        let chars = chars_of(data);
        let ls = lines(chars.as_slice());
        let ghost lv = rows(ls@);
        let ghost mz = maze_of(lv);
        let mut map: Vec<Vec<MapTile>> = Vec::new();
        let mut start: (usize, usize) = (0, 0);
        let mut y: usize = 0;
        while y < ls.len()
            invariant
                y <= ls@.len(),
                lv == rows(ls@),
                lv == lines_spec(data@),
                mz == maze_of(lv),
                maze_readable(lv),
                tile_rows(map@) == mz.take(y as int),
                start == start_upto(mz, y as int, (0, 0)),
                forall|k: int, x: int| 0 <= k < y && 0 <= x < lv[k].len() ==> (#[trigger] tile_of(lv[k][x])) is Some,
            decreases ls@.len() - y,
        {
            let line = &ls[y];
            assert(lv[y as int] == line@);
            let ghost s0 = start;
            let mut row: Vec<MapTile> = Vec::new();
            let mut x: usize = 0;
            while x < line.len()
                invariant
                    x <= line@.len(),
                    y < lv.len(),
                    lv[y as int] == line@,
                    lv == lines_spec(data@),
                    maze_readable(lv),
                    row@ == line@.take(x as int).map_values(|c: char| tile_of(c)->0),
                    forall|t: int| 0 <= t < x ==> (#[trigger] tile_of(line@[t])) is Some,
                    start == start_in_row(row@, y as int, x as int, s0),
                decreases line@.len() - x,
            {
                let c = line[x];
                let loc = if c == 'S' {
                    MapTile::Start
                } else if c == 'F' {
                    MapTile::EastAndSouth
                } else if c == '-' {
                    MapTile::EastAndWest
                } else if c == '7' {
                    MapTile::WestAndSouth
                } else if c == '|' {
                    MapTile::NorthAndSouth
                } else if c == 'J' {
                    MapTile::WestAndNorth
                } else if c == 'L' {
                    MapTile::EastAndNorth
                } else if c == '.' {
                    MapTile::Ground
                } else {
                    assert(tile_of(lv[y as int][x as int]) is None);
                    assert(false);
                    MapTile::Ground
                };
                if loc == MapTile::Start {
                    start = (x, y);
                }
                let ghost old_row = row@;
                row.push(loc);
                proof {
                    assert(row@ =~= line@.take(x + 1).map_values(|c: char| tile_of(c)->0));
                    lemma_start_in_row_prefix(row@, y as int, x as int, s0);
                    lemma_start_in_row_same(row@, old_row, y as int, x as int, s0);
                }
                x = x + 1;
            }
            assert(line@.take(x as int) =~= line@);
            assert(mz[y as int] == row@);
            let ghost old_map = map@;
            map.push(row);
            assert(tile_rows(map@) =~= tile_rows(old_map).push(mz[y as int]));
            assert(tile_rows(map@) =~= mz.take(y + 1));
            y = y + 1;
        }
        assert(mz.take(y as int) =~= mz);
        assert(lv.take(y as int) =~= lv);
        let width = map[0].len();
        let height = map.len();
        PipeMap { width, height, map, start }
    }

    /// The tile at `loc`.
    pub fn get(&self, loc: Coord) -> (t: MapTile)
        requires
            loc.1 < self.map@.len(),
            loc.0 < self.map@[loc.1 as int]@.len(),
        ensures
            t == tile_at(tile_rows(self.map@), loc),
    {
        assert(tile_rows(self.map@)[loc.1 as int] == self.map@[loc.1 as int]@);
        self.map[loc.1][loc.0]
    }

    /// The position one step in direction `dir` from `loc`, which must
    /// stay on the map.
    pub fn go(&self, loc: Coord, dir: Direction) -> (r: Coord)
        requires
            map_ok(*self),
            loc.0 < self.width,
            loc.1 < self.height,
            step_to(self.width as int, self.height as int, loc, dir) is Some,
        ensures
            step_to(self.width as int, self.height as int, loc, dir) == Some(r),
    {
        let mut x = loc.0 as i64;
        let mut y = loc.1 as i64;
        match dir {
            Direction::North => y = y - 1,
            Direction::East => x = x + 1,
            Direction::South => y = y + 1,
            Direction::West => x = x - 1,
        }
        (x as usize, y as usize)
    }

    /// The way to leave the start (see `start_dir`): the direction towards
    /// the first neighbour whose pipe joins the start, where one does.
    pub fn pick_start_dir(&self) -> (r: Direction)
        requires
            map_ok(*self),
            start_dir(tile_rows(self.map@), self.width as int, self.height as int, self.start) is Some,
        ensures
            start_dir(tile_rows(self.map@), self.width as int, self.height as int, self.start) == Some(r),
    {
        self.find_start_dir().unwrap()
    }

    /// Whether some neighbour's pipe joins the start.
    pub fn start_joined(&self) -> (b: bool)
        requires
            map_ok(*self),
        ensures
            b == start_dir(tile_rows(self.map@), self.width as int, self.height as int, self.start) is Some,
    {
        self.find_start_dir().is_some()
    }

    fn find_start_dir(&self) -> (r: Option<Direction>)
        requires
            map_ok(*self),
        ensures
            r == start_dir(tile_rows(self.map@), self.width as int, self.height as int, self.start),
    {
        let ghost m = tile_rows(self.map@);
        let cands = vec![Direction::West, Direction::North, Direction::East, Direction::South];
        let ghost cs = seq![Direction::West, Direction::North, Direction::East, Direction::South];
        assert(cands@ =~= cs);
        let mut k: usize = 0;
        while k < 4
            invariant
                k <= 4,
                cands@ == cs,
                cs == seq![Direction::West, Direction::North, Direction::East, Direction::South],
                map_ok(*self),
                m == tile_rows(self.map@),
                start_dir(m, self.width as int, self.height as int, self.start) == start_dir_from(m, self.width as int, self.height as int, self.start, cs, k as int),
            decreases 4 - k,
        {
            let dir = cands[k];
            let sx = self.start.0;
            let sy = self.start.1;
            let blocked = match dir {
                Direction::West => sx == 0,
                Direction::North => sy == 0,
                Direction::East => sx == self.width - 1,
                Direction::South => sy == self.height - 1,
            };
            if !blocked {
                let checkloc = self.go(self.start, dir);
                assert(m[checkloc.1 as int].len() >= m[0].len());
                assert(self.map@[checkloc.1 as int]@ == m[checkloc.1 as int]);
                let loc = self.get(checkloc);
                assert(cs[k as int] == dir);
                if loc.bitand(dir.flip()) {
                    return Some(dir);
                }
            }
            k = k + 1;
        }
        None
    }

    /// Where the loop goes on from `loc`, entered moving in direction
    /// `come_from`: out of the pipe's other end.
    pub fn next_loc(&self, loc: Coord, come_from: Direction) -> (r: Coord)
        requires
            map_ok(*self),
            loc.0 < self.width,
            loc.1 < self.height,
            joins(tile_at(tile_rows(self.map@), loc), opposite(come_from)),
            step_to(self.width as int, self.height as int, loc, other_end(tile_at(tile_rows(self.map@), loc), opposite(come_from))) is Some,
        ensures
            step_to(self.width as int, self.height as int, loc, other_end(tile_at(tile_rows(self.map@), loc), opposite(come_from))) == Some(r),
    {
        proof {
            let m = tile_rows(self.map@);
            assert(m[loc.1 as int].len() >= m[0].len());
            assert(self.map@[loc.1 as int]@ == m[loc.1 as int]);
        }
        let tile = self.get(loc);
        self.go(loc, tile.other_direction(come_from.flip()))
    }
}

proof fn lemma_start_in_row_same(r1: Seq<MapTile>, r2: Seq<MapTile>, y: int, x: int, s: Coord)
    requires
        0 <= x <= r1.len(),
        x <= r2.len(),
        forall|t: int| 0 <= t < x ==> r1[t] == r2[t],
    ensures
        start_in_row(r1, y, x, s) == start_in_row(r2, y, x, s),
    decreases x,
{
    if x > 0 {
        lemma_start_in_row_same(r1, r2, y, x - 1, s);
    }
}

proof fn lemma_start_in_row_prefix(r: Seq<MapTile>, y: int, x: int, s: Coord)
    requires
        0 <= x < r.len(),
    ensures
        start_in_row(r, y, x + 1, s) == if r[x] == MapTile::Start { (x as usize, y as usize) } else { start_in_row(r, y, x, s) },
{
}

/// The steps from `loc`, entered moving in direction `dir`, along the
/// pipes back to the start; `None` where a pipe does not join the way the
/// walk came in, a step leaves the map, or more than `fuel` steps are needed.
pub open spec fn steps_back(m: Seq<Seq<MapTile>>, w: int, h: int, start: Coord, loc: Coord, dir: Direction, fuel: nat) -> Option<int>
    decreases fuel,
{
    if loc == start {
        Some(0)
    } else if fuel == 0 {
        None
    } else {
        let t = tile_at(m, loc);
        if !joins(t, opposite(dir)) {
            None
        } else {
            let nd = other_end(t, opposite(dir));
            match step_to(w, h, loc, nd) {
                None => None,
                Some(nl) => match steps_back(m, w, h, start, nl, nd, (fuel - 1) as nat) {
                    Some(r) => Some(r + 1),
                    None => None,
                },
            }
        }
    }
}

/// The length of the loop through the start, counting the steps after the
/// first; `None` where the start joins no neighbour or `steps_back` gives none.
pub open spec fn loop_steps(p: PipeMap, fuel: nat) -> Option<int> {
    loop_steps_of(tile_rows(p.map@), p.width as int, p.height as int, p.start, fuel)
}

/// `loop_steps` for a maze given as plain values.
pub open spec fn loop_steps_of(m: Seq<Seq<MapTile>>, w: int, h: int, start: Coord, fuel: nat) -> Option<int> {
    match start_dir(m, w, h, start) {
        None => None,
        Some(d) => match step_to(w, h, start, d) {
            None => None,
            Some(l) => steps_back(m, w, h, start, l, d, fuel),
        },
    }
}

proof fn lemma_step_parity(w: int, h: int, loc: Coord, d: Direction)
    requires
        w <= usize::MAX,
        h <= usize::MAX,
    ensures
        step_to(w, h, loc, d) matches Some(nl) ==> (nl.0 + nl.1 + 1) % 2 == (loc.0 + loc.1) % 2,
{
    if let Some(nl) = step_to(w, h, loc, d) {
        match d {
            Direction::North => assert(nl.0 == loc.0 && nl.1 == loc.1 - 1),
            Direction::East => assert(nl.0 == loc.0 + 1 && nl.1 == loc.1),
            Direction::South => assert(nl.0 == loc.0 && nl.1 == loc.1 + 1),
            Direction::West => assert(nl.0 == loc.0 - 1 && nl.1 == loc.1),
        }
    }
}

proof fn lemma_steps_back_parity(m: Seq<Seq<MapTile>>, w: int, h: int, start: Coord, loc: Coord, dir: Direction, fuel: nat)
    requires
        w <= usize::MAX,
        h <= usize::MAX,
    ensures
        steps_back(m, w, h, start, loc, dir, fuel) matches Some(r)
            ==> (loc.0 + loc.1 + r) % 2 == (start.0 + start.1) % 2,
    decreases fuel,
{
    if loc != start && fuel > 0 {
        let t = tile_at(m, loc);
        if joins(t, opposite(dir)) {
            let nd = other_end(t, opposite(dir));
            if let Some(nl) = step_to(w, h, loc, nd) {
                lemma_steps_back_parity(m, w, h, start, nl, nd, (fuel - 1) as nat);
                lemma_step_parity(w, h, loc, nd);
            }
        }
    }
}

/// A loop through the start always closes after an even number of steps:
/// the steps after the first are odd in number, so the farthest point of
/// the loop lies exactly half the loop away.
pub proof fn lemma_loop_even(m: Seq<Seq<MapTile>>, w: int, h: int, start: Coord, fuel: nat)
    requires
        w <= usize::MAX,
        h <= usize::MAX,
    ensures
        loop_steps_of(m, w, h, start, fuel) matches Some(r) ==> r % 2 == 1,
{
    if let Some(d) = start_dir(m, w, h, start) {
        if let Some(l) = step_to(w, h, start, d) {
            lemma_steps_back_parity(m, w, h, start, l, d, fuel);
            lemma_step_parity(w, h, start, d);
        }
    }
}

/// The lines show a maze whose loop can be followed: every character is a
/// tile, there is a line, no row is shorter than the first, the start lies on the
/// map, and four steps for every tile fit in an `i64`.
pub open spec fn maze_ok(ls: Seq<Seq<char>>) -> bool {
    let m = maze_of(ls);
    let st = start_upto(m, ls.len() as int, (0, 0));
    &&& maze_readable(ls)
    &&& ls.len() > 0
    &&& maze_rect(m)
    &&& st.0 < m[0].len()
    &&& st.1 < ls.len()
    &&& 4 * m[0].len() * ls.len() < i64::MAX
}

/// The steps of the loop of the maze the lines show (see `loop_steps`),
/// trying at most four steps for every tile.
pub open spec fn farthest_spec(ls: Seq<Seq<char>>) -> Option<int> {
    let m = maze_of(ls);
    loop_steps_of(m, m[0].len() as int, ls.len() as int, start_upto(m, ls.len() as int, (0, 0)), (4 * m[0].len() * ls.len()) as nat)
}

proof fn lemma_step_in(w: int, h: int, loc: Coord, d: Direction)
    requires
        step_to(w, h, loc, d) is Some,
    ensures
        (step_to(w, h, loc, d)->0).0 < w,
        (step_to(w, h, loc, d)->0).1 < h,
{
}

proof fn lemma_start_dir_step(m: Seq<Seq<MapTile>>, w: int, h: int, start: Coord, cands: Seq<Direction>, k: int)
    ensures
        start_dir_from(m, w, h, start, cands, k) matches Some(d) ==> step_to(w, h, start, d) is Some,
    decreases cands.len() - k,
{
    if 0 <= k < cands.len() {
        lemma_start_dir_step(m, w, h, start, cands, k + 1);
    }
}

/// Follows the loop from the start back to it and counts the steps (see
/// `loop_steps`), trying at most `fuel` steps.
pub fn loop_length(map: &PipeMap, fuel: u64) -> (r: Option<i64>)
    requires
        map_ok(*map),
        fuel < i64::MAX,
    ensures
        match r {
            Some(v) => loop_steps(*map, fuel as nat) == Some(v as int),
            None => loop_steps(*map, fuel as nat) is None,
        },
{
    let ghost m = tile_rows(map.map@);
    let ghost w = map.width as int;
    let ghost h = map.height as int;
    let mut dir = match map.find_start_dir() {
        Some(d) => d,
        None => {
            return None;
        },
    };
    proof {
        lemma_start_dir_step(m, w, h, map.start, seq![Direction::West, Direction::North, Direction::East, Direction::South], 0);
        lemma_step_in(w, h, map.start, dir);
    }
    let mut loc = map.go(map.start, dir);
    let mut result: i64 = 0;
    let mut f: u64 = fuel;
    while !(loc.0 == map.start.0 && loc.1 == map.start.1)
        invariant
            map_ok(*map),
            m == tile_rows(map.map@),
            w == map.width,
            h == map.height,
            loc.0 < map.width,
            loc.1 < map.height,
            0 <= result <= fuel - f,
            f <= fuel,
            fuel < i64::MAX,
            loop_steps(*map, fuel as nat) == match steps_back(m, w, h, map.start, loc, dir, f as nat) {
                Some(t) => Some(result + t),
                None => None::<int>,
            },
        decreases f,
    {
        if f == 0 {
            return None;
        }
        proof {
            assert(m[loc.1 as int].len() >= m[0].len());
            assert(map.map@[loc.1 as int]@ == m[loc.1 as int]);
        }
        let tile = map.get(loc);
        if !tile.bitand(dir.flip()) {
            return None;
        }
        let nd = tile.other_direction(dir.flip());
        let x = loc.0;
        let y = loc.1;
        let off = match nd {
            Direction::North => y == 0,
            Direction::East => x == map.width - 1,
            Direction::South => y == map.height - 1,
            Direction::West => x == 0,
        };
        if off {
            return None;
        }
        proof {
            lemma_step_in(w, h, loc, nd);
        }
        loc = map.go(loc, nd);
        dir = nd;
        result = result + 1;
        f = f - 1;
    }
    Some(result)
}

/// Reads the maze (a tile at every character, a neighbour joining the
/// start) and counts the steps of the loop through the start (see
/// `farthest_spec`); `None` where the maze is not one whose loop can be
/// followed (see `maze_ok`) or the loop gives none.
pub fn farthest_loop(data: &str) -> (r: Option<i64>)
    requires
        maze_readable(lines_spec(data@)),
        lines_spec(data@).len() > 0,
        start_dir(
            maze_of(lines_spec(data@)),
            maze_of(lines_spec(data@))[0].len() as int,
            lines_spec(data@).len() as int,
            start_upto(maze_of(lines_spec(data@)), lines_spec(data@).len() as int, (0, 0)),
        ) is Some,
    ensures
        match r {
            Some(v) => maze_ok(lines_spec(data@)) && farthest_spec(lines_spec(data@)) == Some(v as int),
            None => !maze_ok(lines_spec(data@)) || farthest_spec(lines_spec(data@)) is None,
        },
{
    let ghost ls = lines_spec(data@);
    let ghost m = maze_of(ls);
    let map = PipeMap::from_str(data);
    assert(m.len() == ls.len());
    assert(map.map@.len() == m.len());
    assert(tile_rows(map.map@)[0] == map.map@[0]@);
    let n = map.map.len();
    let mut k: usize = 0;
    while k < n
        invariant
            k <= n,
            n == map.map@.len(),
            n > 0,
            map.width == map.map@[0]@.len(),
            m == tile_rows(map.map@),
            ls == lines_spec(data@),
            m == maze_of(ls),
            forall|t: int| 0 <= t < k ==> (#[trigger] map.map@[t])@.len() >= map.width,
        decreases n - k,
    {
        if map.map[k].len() < map.width {
            proof {
                assert(tile_rows(map.map@)[k as int] == map.map@[k as int]@);
                assert(m[k as int].len() < m[0].len());
                assert(!maze_rect(m));
            }
            return None;
        }
        k = k + 1;
    }
    if map.start.0 >= map.width || map.start.1 >= map.height {
        return None;
    }
    if map.width as u64 >= i64::MAX as u64 || map.height as u64 >= i64::MAX as u64 {
        proof {
            assert(4 * m[0].len() * ls.len() >= i64::MAX) by (nonlinear_arith)
                requires
                    m[0].len() >= i64::MAX || ls.len() >= i64::MAX,
                    m[0].len() >= 1,
                    ls.len() >= 1,
            ;
        }
        return None;
    }
    let fuel = match (map.width as u64).checked_mul(map.height as u64) {
        Some(c) => match c.checked_mul(4) {
            Some(f) => {
                assert(f == 4 * map.width * map.height) by (nonlinear_arith)
                    requires
                        c == map.width * map.height,
                        f == c * 4,
                ;
                f
            },
            None => {
                proof {
                    assert(4 * m[0].len() * ls.len() >= i64::MAX) by (nonlinear_arith)
                        requires
                            c == m[0].len() * ls.len(),
                            c * 4 > u64::MAX,
                    ;
                }
                return None;
            },
        },
        None => {
            proof {
                assert(4 * m[0].len() * ls.len() >= i64::MAX) by (nonlinear_arith)
                    requires
                        m[0].len() * ls.len() > u64::MAX,
                ;
            }
            return None;
        },
    };
    if fuel >= i64::MAX as u64 {
        return None;
    }
    proof {
        assert forall|y: int| 0 <= y < tile_rows(map.map@).len() implies (#[trigger] tile_rows(map.map@)[y]).len() >= tile_rows(map.map@)[0].len() by {
            assert(map.map@[y]@.len() >= map.width);
        }
    }
    let r = loop_length(&map, fuel);
    assert(map_ok(map));
    assert(tile_rows(map.map@) == maze_of(lines_spec(data@)));
    r
}

} // verus!
