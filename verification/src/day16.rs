//! Beams of light through a contraption of mirrors and splitters: follow
//! every beam, mark each tile entered in each direction once, and count the
//! tiles entered at all.
use vstd::prelude::*;
use crate::text::{chars_of, lines, lines_spec, rows, trim, trim_spec};

verus! {

/// A beam: where it is and which way it moves.
#[derive(Debug, Copy, Clone, PartialEq, Eq)]
pub struct Beam {
    pub pos: (i64, i64),
    pub dir: (i64, i64),
}

impl Beam {
    /// Moves the beam one tile on.
    pub fn step(&mut self)
        requires
            i64::MIN <= old(self).pos.0 + old(self).dir.0 <= i64::MAX,
            i64::MIN <= old(self).pos.1 + old(self).dir.1 <= i64::MAX,
        ensures
            final(self).pos == ((old(self).pos.0 + old(self).dir.0) as i64, (old(self).pos.1 + old(self).dir.1) as i64),
            final(self).dir == old(self).dir,
    {
        self.pos.0 = self.pos.0 + self.dir.0;
        self.pos.1 = self.pos.1 + self.dir.1;
    }
}

/// The contraption, row by row.
#[derive(Debug, Clone, PartialEq)]
pub struct TileMap {
    pub map: Vec<Vec<char>>,
}

/// The grid has a first row, no row shorter than the first, and both sizes
/// fit in `i64`.
pub open spec fn grid_ok(g: Seq<Seq<char>>) -> bool {
    &&& g.len() > 0
    &&& g.len() < i64::MAX
    &&& g[0].len() < i64::MAX
    &&& forall|y: int| 0 <= y < g.len() ==> (#[trigger] g[y]).len() >= g[0].len()
}

/// The point lies on the grid.
pub open spec fn on_grid(g: Seq<Seq<char>>, x: int, y: int) -> bool {
    0 <= x && 0 <= y && x < g[0].len() && y < g.len()
}

impl TileMap {
    /// The grid as rows of characters.
    pub open spec fn grid(&self) -> Seq<Seq<char>> {
        rows(self.map@)
    }

    /// The tile at `p`.
    pub fn tile(&self, p: (i64, i64)) -> (c: char)
        requires
            grid_ok(self.grid()),
            on_grid(self.grid(), p.0 as int, p.1 as int),
        ensures
            c == self.grid()[p.1 as int][p.0 as int],
    {
        assert(self.grid().len() == self.map@.len());
        assert(0 <= p.1 < self.map@.len());
        assert(self.grid()[p.1 as int] == self.map@[p.1 as int]@);
        assert(self.grid()[p.1 as int].len() >= self.grid()[0].len());
        assert(0 <= p.0 < self.map@[p.1 as int]@.len());
        let h = self.map.len();
        let y = p.1 as usize;
        let row = &self.map[y];
        let w = row.len();
        let x = p.0 as usize;
        assert(row@ == self.grid()[p.1 as int]);
        row[x]
    }

    /// Whether `p` lies on the grid.
    pub fn in_range(&self, p: (i64, i64)) -> (b: bool)
        requires
            grid_ok(self.grid()),
        ensures
            b == on_grid(self.grid(), p.0 as int, p.1 as int),
    {
        assert(self.grid()[0] == self.map@[0]@);
        p.0 >= 0 && p.1 >= 0 && p.0 < self.map[0].len() as i64 && p.1 < self.map.len() as i64
    }
}

/// One of the four directions a beam can move in.
pub open spec fn unit(d: (i64, i64)) -> bool {
    d == (1i64, 0i64) || d == (0i64, 1i64) || d == (-1i64, 0i64) || d == (0i64, -1i64)
}

/// The bit that marks a direction.
pub open spec fn dir_bit(d: (i64, i64)) -> int {
    if d == (1i64, 0i64) {
        0
    } else if d == (0i64, 1i64) {
        1
    } else if d == (-1i64, 0i64) {
        2
    } else {
        3
    }
}

/// The directions a beam moving in direction `d` leaves a tile in: a mirror
/// turns it, a splitter met side-on splits it in two, anything else lets it
/// through.
pub open spec fn out_dirs(tile: char, d: (i64, i64)) -> Seq<(i64, i64)> {
    if tile == '/' {
        seq![((-d.1) as i64, (-d.0) as i64)]
    } else if tile == '\\' {
        seq![(d.1, d.0)]
    } else if tile == '|' && d.0 != 0 {
        seq![(0i64, -1i64), (0i64, 1i64)]
    } else if tile == '-' && d.1 != 0 {
        seq![(-1i64, 0i64), (1i64, 0i64)]
    } else {
        seq![d]
    }
}

/// A beam entering tile `(x, y)` moving in direction `d`.
pub type State = (int, int, (i64, i64));

/// The state a beam takes on its next step.
pub open spec fn entry(b: Beam) -> State {
    (b.pos.0 + b.dir.0, b.pos.1 + b.dir.1, b.dir)
}

/// A beam in state `s` goes on to state `t` on the grid.
pub open spec fn leads(g: Seq<Seq<char>>, s: State, t: State) -> bool {
    &&& on_grid(g, t.0, t.1)
    &&& out_dirs(g[s.1][s.0], s.2).contains(t.2)
    &&& t.0 == s.0 + t.2.0
    &&& t.1 == s.1 + t.2.1
}

/// `p` is a run of states from the beam's first state on the grid.
pub open spec fn is_run(g: Seq<Seq<char>>, b: Beam, p: Seq<State>) -> bool {
    &&& p.len() >= 1
    &&& p[0] == entry(b)
    &&& on_grid(g, p[0].0, p[0].1)
    &&& forall|k: int| 0 <= k < p.len() - 1 ==> leads(g, #[trigger] p[k], p[k + 1])
}

/// Some beam from `b` reaches state `s`.
pub open spec fn reached(g: Seq<Seq<char>>, b: Beam, s: State) -> bool {
    exists|p: Seq<State>| is_run(g, b, p) && p.last() == s
}

/// Tile `(x, y)` is energized: a beam from `b` enters it in some direction.
pub open spec fn energized(g: Seq<Seq<char>>, b: Beam, x: int, y: int) -> bool {
    exists|d: (i64, i64)| unit(d) && reached(g, b, (x, y, d))
}

/// The energized tiles among the first `k` of row `y`.
pub open spec fn row_count(g: Seq<Seq<char>>, b: Beam, y: int, k: int) -> nat
    decreases k,
{
    if k <= 0 {
        0
    } else {
        row_count(g, b, y, k - 1) + if energized(g, b, k - 1, y) {
            1nat
        } else {
            0nat
        }
    }
}

/// The energized tiles in the first `h` rows.
pub open spec fn grid_count(g: Seq<Seq<char>>, b: Beam, h: int) -> nat
    decreases h,
{
    if h <= 0 {
        0
    } else {
        grid_count(g, b, h - 1) + row_count(g, b, h - 1, g[0].len() as int)
    }
}

/// The flag of direction bit `k`.
pub open spec fn flag(k: int) -> i32 {
    if k == 0 {
        1
    } else if k == 1 {
        2
    } else if k == 2 {
        4
    } else {
        8
    }
}

/// How many of the four direction flags are set.
pub open spec fn flags_set(v: i32) -> int {
    (if v & 1 != 0 { 1int } else { 0int }) + (if v & 2 != 0 { 1int } else { 0int }) + (if v & 4 != 0 {
        1int
    } else {
        0int
    }) + (if v & 8 != 0 { 1int } else { 0int })
}

/// The tile of state `s` is marked for the state's direction.
pub open spec fn marked(e: Seq<Seq<i32>>, s: State) -> bool {
    e[s.1][s.0] & flag(dir_bit(s.2)) != 0
}

/// The direction flags not yet set in a row.
pub open spec fn row_unset(r: Seq<i32>) -> int
    decreases r.len(),
{
    if r.len() == 0 {
        0
    } else {
        row_unset(r.drop_last()) + 4 - flags_set(r.last())
    }
}

/// The direction flags not yet set anywhere.
pub open spec fn grid_unset(e: Seq<Seq<i32>>) -> int
    decreases e.len(),
{
    if e.len() == 0 {
        0
    } else {
        grid_unset(e.drop_last()) + row_unset(e.last())
    }
}

proof fn lemma_flags(v: i32, k: int)
    requires
        0 <= v < 16,
        0 <= k < 4,
    ensures
        0 <= (v | flag(k)) < 16,
        (v | flag(k)) & flag(k) != 0,
        forall|j: int| 0 <= j < 4 && j != k ==> (((v | flag(k)) & #[trigger] flag(j)) != 0) == ((v & flag(j)) != 0),
        (v & flag(k)) == 0 ==> flags_set(v | flag(k)) == flags_set(v) + 1,
        0 <= flags_set(v) <= 4,
{
    let f = flag(k);
    assert(f == 1 || f == 2 || f == 4 || f == 8);
    assert(0 <= v < 16 && (f == 1 || f == 2 || f == 4 || f == 8) ==> 0 <= (v | f) < 16 && (v | f) & f != 0
        && (((v | f) & 1 != 0) == (v & 1 != 0 || f == 1)) && (((v | f) & 2 != 0) == (v & 2 != 0 || f == 2))
        && (((v | f) & 4 != 0) == (v & 4 != 0 || f == 4)) && (((v | f) & 8 != 0) == (v & 8 != 0 || f == 8))) by (bit_vector);
    assert forall|j: int| 0 <= j < 4 && j != k implies (((v | flag(k)) & #[trigger] flag(j)) != 0) == ((v & flag(j)) != 0) by {
    }
}

proof fn lemma_nonzero(v: i32)
    requires
        0 <= v < 16,
    ensures
        (v != 0) == (v & flag(0) != 0 || v & flag(1) != 0 || v & flag(2) != 0 || v & flag(3) != 0),
{
    assert(0 <= v < 16 ==> ((v != 0) == (v & 1 != 0 || v & 2 != 0 || v & 4 != 0 || v & 8 != 0))) by (bit_vector);
}

proof fn lemma_row_unset(r: Seq<i32>, x: int, v: i32)
    requires
        0 <= x < r.len(),
    ensures
        row_unset(r.update(x, v)) == row_unset(r) - flags_set(v) + flags_set(r[x]),
    decreases r.len(),
{
    let u = r.update(x, v);
    if x < r.len() - 1 {
        assert(u.drop_last() =~= r.drop_last().update(x, v));
        lemma_row_unset(r.drop_last(), x, v);
    } else {
        assert(u.drop_last() =~= r.drop_last());
    }
}

proof fn lemma_grid_unset(e: Seq<Seq<i32>>, y: int, r: Seq<i32>)
    requires
        0 <= y < e.len(),
    ensures
        grid_unset(e.update(y, r)) == grid_unset(e) - row_unset(e[y]) + row_unset(r),
    decreases e.len(),
{
    let u = e.update(y, r);
    if y < e.len() - 1 {
        assert(u.drop_last() =~= e.drop_last().update(y, r));
        lemma_grid_unset(e.drop_last(), y, r);
    } else {
        assert(u.drop_last() =~= e.drop_last());
    }
}

proof fn lemma_unset_nonneg(e: Seq<Seq<i32>>)
    requires
        forall|y: int, x: int| 0 <= y < e.len() && 0 <= x < e[y].len() ==> 0 <= #[trigger] e[y][x] < 16,
    ensures
        grid_unset(e) >= 0,
    decreases e.len(),
{
    if e.len() > 0 {
        lemma_unset_nonneg(e.drop_last());
        lemma_row_nonneg(e.last());
    }
}

proof fn lemma_row_nonneg(r: Seq<i32>)
    requires
        forall|x: int| 0 <= x < r.len() ==> 0 <= #[trigger] r[x] < 16,
    ensures
        row_unset(r) >= 0,
    decreases r.len(),
{
    if r.len() > 0 {
        lemma_row_nonneg(r.drop_last());
        lemma_flags(r.last(), 0);
    }
}

/// Some pending beam enters state `t` next.
pub open spec fn pending_enters(pend: Seq<Beam>, t: State) -> bool {
    exists|k: int| 0 <= k < pend.len() && entry(#[trigger] pend[k]) == t
}

/// A pending beam moves in one of the four directions, is the first beam or
/// sits on the grid, and the state it enters next on the grid is reached.
pub open spec fn live(g: Seq<Seq<char>>, b0: Beam, q: Beam) -> bool {
    &&& unit(q.dir)
    &&& (q == b0 || on_grid(g, q.pos.0 as int, q.pos.1 as int))
    &&& (on_grid(g, entry(q).0, entry(q).1) ==> reached(g, b0, entry(q)))
}

/// The mark map has the grid's shape and only direction flags.
pub open spec fn marks_ok(g: Seq<Seq<char>>, e: Seq<Seq<i32>>) -> bool {
    &&& e.len() == g.len()
    &&& forall|y: int| 0 <= y < e.len() ==> (#[trigger] e[y]).len() == g[0].len()
    &&& forall|y: int, x: int| 0 <= y < e.len() && 0 <= x < e[y].len() ==> 0 <= #[trigger] e[y][x] < 16
}

/// What the beams found so far guarantee: every mark is reached, every
/// state a marked state leads to is marked or about to be entered, and so
/// is the first beam's state.
pub open spec fn search_ok(g: Seq<Seq<char>>, b0: Beam, e: Seq<Seq<i32>>, pend: Seq<Beam>) -> bool {
    &&& marks_ok(g, e)
    &&& forall|s: State| on_grid(g, s.0, s.1) && unit(s.2) && #[trigger] marked(e, s) ==> reached(g, b0, s)
    &&& forall|s: State, t: State| on_grid(g, s.0, s.1) && unit(s.2) && #[trigger] marked(e, s) && #[trigger] leads(g, s, t) ==> marked(e, t) || pending_enters(pend, t)
    &&& on_grid(g, entry(b0).0, entry(b0).1) ==> marked(e, entry(b0)) || pending_enters(pend, entry(b0))
    &&& forall|k: int| 0 <= k < pend.len() ==> live(g, b0, #[trigger] pend[k])
}

proof fn lemma_run_extend(g: Seq<Seq<char>>, b0: Beam, p: Seq<State>, t: State)
    requires
        is_run(g, b0, p),
        leads(g, p.last(), t),
    ensures
        is_run(g, b0, p.push(t)),
        p.push(t).last() == t,
{
    let q = p.push(t);
    assert forall|k: int| 0 <= k < q.len() - 1 implies leads(g, #[trigger] q[k], q[k + 1]) by {
        if k < p.len() - 1 {
            assert(q[k] == p[k] && q[k + 1] == p[k + 1]);
        } else {
            assert(q[k] == p.last());
        }
    }
}

proof fn lemma_run_marked(g: Seq<Seq<char>>, b0: Beam, e: Seq<Seq<i32>>, p: Seq<State>)
    requires
        is_run(g, b0, p),
        search_ok(g, b0, e, Seq::empty()),
        unit(b0.dir),
    ensures
        marked(e, p.last()),
        unit(p.last().2),
        on_grid(g, p.last().0, p.last().1),
    decreases p.len(),
{
    if p.len() == 1 {
        assert(!pending_enters(Seq::<Beam>::empty(), entry(b0)));
    } else {
        let q = p.drop_last();
        assert forall|k: int| 0 <= k < q.len() - 1 implies leads(g, #[trigger] q[k], q[k + 1]) by {
            assert(q[k] == p[k] && q[k + 1] == p[k + 1]);
        }
        lemma_run_marked(g, b0, e, q);
        assert(leads(g, p[p.len() - 2], p[p.len() - 1]));
        assert(q.last() == p[p.len() - 2]);
        assert(!pending_enters(Seq::<Beam>::empty(), p.last()));
        lemma_out_units(g[q.last().1][q.last().0], q.last().2);
    }
}

proof fn lemma_out_units(tile: char, d: (i64, i64))
    requires
        unit(d),
    ensures
        forall|k: int| 0 <= k < out_dirs(tile, d).len() ==> unit(#[trigger] out_dirs(tile, d)[k]),
        forall|v: (i64, i64)| #[trigger] out_dirs(tile, d).contains(v) ==> unit(v),
{
    assert forall|v: (i64, i64)| #[trigger] out_dirs(tile, d).contains(v) implies unit(v) by {
        let k = choose|k: int| 0 <= k < out_dirs(tile, d).len() && out_dirs(tile, d)[k] == v;
    }
}

/// The beams a beam leaves tile `pos` with, moving in direction `d`.
pub open spec fn turned(pos: (i64, i64), tile: char, d: (i64, i64)) -> Seq<Beam> {
    out_dirs(tile, d).map_values(|v: (i64, i64)| Beam { pos, dir: v })
}

/// The mark maps as plain values.
pub open spec fn marks_of(v: Seq<Vec<i32>>) -> Seq<Seq<i32>> {
    v.map_values(|r: Vec<i32>| r@)
}

/// The marks with state `s` marked as well.
pub open spec fn with_mark(e: Seq<Seq<i32>>, s: State) -> Seq<Seq<i32>> {
    e.update(s.1, e[s.1].update(s.0, e[s.1][s.0] | flag(dir_bit(s.2))))
}

proof fn lemma_case_skip(g: Seq<Seq<char>>, b0: Beam, e: Seq<Seq<i32>>, q: Beam, rest: Seq<Beam>)
    requires
        search_ok(g, b0, e, seq![q] + rest),
        !on_grid(g, entry(q).0, entry(q).1) || marked(e, entry(q)),
    ensures
        search_ok(g, b0, e, rest),
{
    let pend = seq![q] + rest;
    assert forall|t: State| on_grid(g, t.0, t.1) && !marked(e, t) && pending_enters(pend, t) implies pending_enters(rest, t) by {
        let k = choose|k: int| 0 <= k < pend.len() && entry(#[trigger] pend[k]) == t;
        assert(k != 0);
        assert(rest[k - 1] == pend[k]);
    }
    assert forall|k: int| 0 <= k < rest.len() implies live(g, b0, #[trigger] rest[k]) by {
        assert(pend[k + 1] == rest[k]);
    }
    assert forall|s: State, t: State| on_grid(g, s.0, s.1) && unit(s.2) && #[trigger] marked(e, s) && #[trigger] leads(g, s, t) implies marked(e, t) || pending_enters(rest, t) by {
    }
}

proof fn lemma_marks_update(g: Seq<Seq<char>>, e: Seq<Seq<i32>>, s: State)
    requires
        marks_ok(g, e),
        grid_ok(g),
        on_grid(g, s.0, s.1),
        unit(s.2),
        !marked(e, s),
    ensures
        marks_ok(g, with_mark(e, s)),
        marked(with_mark(e, s), s),
        forall|t: State| on_grid(g, t.0, t.1) && unit(t.2) && t != s ==> #[trigger] marked(with_mark(e, s), t) == marked(e, t),
        grid_unset(with_mark(e, s)) == grid_unset(e) - 1,
{
    let e2 = with_mark(e, s);
    let v = e[s.1][s.0];
    let k = dir_bit(s.2);
    lemma_flags(v, k);
    assert forall|t: State| on_grid(g, t.0, t.1) && unit(t.2) && t != s implies #[trigger] marked(e2, t) == marked(e, t) by {
        if t.0 == s.0 && t.1 == s.1 {
            assert(dir_bit(t.2) != k);
            lemma_flags(v, k);
            assert(((v | flag(k)) & flag(dir_bit(t.2)) != 0) == (v & flag(dir_bit(t.2)) != 0));
        }
    }
    lemma_row_unset(e[s.1], s.0, v | flag(k));
    lemma_grid_unset(e, s.1, e[s.1].update(s.0, v | flag(k)));
}

proof fn lemma_case_mark(
    g: Seq<Seq<char>>,
    b0: Beam,
    e: Seq<Seq<i32>>,
    q: Beam,
    rest: Seq<Beam>,
    pos: (i64, i64),
)
    requires
        grid_ok(g),
        unit(b0.dir),
        search_ok(g, b0, e, seq![q] + rest),
        on_grid(g, entry(q).0, entry(q).1),
        !marked(e, entry(q)),
        pos.0 == entry(q).0,
        pos.1 == entry(q).1,
    ensures
        search_ok(g, b0, with_mark(e, entry(q)), rest + turned(pos, g[pos.1 as int][pos.0 as int], q.dir)),
        grid_unset(with_mark(e, entry(q))) == grid_unset(e) - 1,
{
    let pend = seq![q] + rest;
    let s = entry(q);
    let e2 = with_mark(e, s);
    let added = turned(pos, g[pos.1 as int][pos.0 as int], q.dir);
    let pend2 = rest + added;
    assert(pend[0] == q);
    assert(live(g, b0, q));
    assert(unit(s.2));
    lemma_marks_update(g, e, s);
    lemma_out_units(g[s.1][s.0], s.2);
    assert(reached(g, b0, s));
    // every pending beam of `rest` stays pending
    assert forall|t: State| pending_enters(rest, t) implies pending_enters(pend2, t) by {
        let k = choose|k: int| 0 <= k < rest.len() && entry(#[trigger] rest[k]) == t;
        assert(pend2[k] == rest[k]);
    }
    assert forall|t: State| t != s && pending_enters(pend, t) implies pending_enters(rest, t) by {
        let k = choose|k: int| 0 <= k < pend.len() && entry(#[trigger] pend[k]) == t;
        assert(k != 0);
        assert(rest[k - 1] == pend[k]);
    }
    // the state `s` leads to are entered by the added beams
    assert forall|t: State| leads(g, s, t) implies pending_enters(pend2, t) by {
        let dirs = out_dirs(g[s.1][s.0], s.2);
        let j = choose|j: int| 0 <= j < dirs.len() && dirs[j] == t.2;
        assert(added[j] == Beam { pos, dir: t.2 });
        assert(pend2[rest.len() + j] == added[j]);
        assert(entry(pend2[rest.len() + j]) == t);
    }
    assert forall|k: int| 0 <= k < pend2.len() implies live(g, b0, #[trigger] pend2[k]) by {
        if k < rest.len() {
            assert(pend[k + 1] == rest[k]);
        } else {
            let j = k - rest.len();
            let nb = added[j];
            assert(pend2[k] == nb);
            let dirs = out_dirs(g[s.1][s.0], s.2);
            assert(nb.dir == dirs[j]);
            assert(dirs.contains(nb.dir));
            if on_grid(g, entry(nb).0, entry(nb).1) {
                assert(leads(g, s, entry(nb)));
                let p = choose|p: Seq<State>| is_run(g, b0, p) && p.last() == s;
                lemma_run_extend(g, b0, p, entry(nb));
            }
        }
    }
    assert forall|s2: State| on_grid(g, s2.0, s2.1) && unit(s2.2) && #[trigger] marked(e2, s2) implies reached(g, b0, s2) by {
        if s2 != s {
            assert(marked(e, s2));
        }
    }
    assert forall|s2: State, t: State| on_grid(g, s2.0, s2.1) && unit(s2.2) && #[trigger] marked(e2, s2) && #[trigger] leads(g, s2, t) implies marked(e2, t) || pending_enters(pend2, t) by {
        if s2 == s {
        } else {
            assert(marked(e, s2));
            assert(unit(t.2)) by {
                lemma_out_units(g[s2.1][s2.0], s2.2);
            }
            if t == s {
            } else if marked(e, t) {
                assert(marked(e2, t));
            } else {
                assert(pending_enters(pend, t));
                assert(pending_enters(rest, t));
            }
        }
    }
    if on_grid(g, entry(b0).0, entry(b0).1) {
        if entry(b0) != s {
            if marked(e, entry(b0)) {
                assert(marked(e2, entry(b0)));
            } else {
                assert(pending_enters(rest, entry(b0)));
            }
        }
    }
}

/// Whether two directions are the same.
pub fn same_dir(a: (i64, i64), b: (i64, i64)) -> (r: bool)
    ensures
        r == (a == b),
{
    a.0 == b.0 && a.1 == b.1
}

/// Queues the beams a beam leaves tile `pos` with.
fn push_turned(pos: (i64, i64), tile: char, dir: (i64, i64), new_beams: &mut Vec<Beam>)
    requires
        unit(dir),
    ensures
        final(new_beams)@ == old(new_beams)@ + turned(pos, tile, dir),
{
    let mut beam = Beam { pos, dir };
    let ghost added = turned(pos, tile, dir);
    if tile == '/' {
        if same_dir(beam.dir, (1, 0)) {
            beam.dir = (0, -1)
        } else if same_dir(beam.dir, (-1, 0)) {
            beam.dir = (0, 1)
        } else if same_dir(beam.dir, (0, 1)) {
            beam.dir = (-1, 0)
        } else {
            beam.dir = (1, 0)
        }
        new_beams.push(beam);
        assert(added =~= seq![beam]);
    } else if tile == '\\' {
        if same_dir(beam.dir, (1, 0)) {
            beam.dir = (0, 1)
        } else if same_dir(beam.dir, (-1, 0)) {
            beam.dir = (0, -1)
        } else if same_dir(beam.dir, (0, 1)) {
            beam.dir = (1, 0)
        } else {
            beam.dir = (-1, 0)
        }
        new_beams.push(beam);
        assert(added =~= seq![beam]);
    } else if tile == '|' && beam.dir.0 != 0 {
        new_beams.push(Beam { pos: beam.pos, dir: (0, -1) });
        new_beams.push(Beam { pos: beam.pos, dir: (0, 1) });
        assert(added =~= seq![Beam { pos, dir: (0i64, -1i64) }, Beam { pos, dir: (0i64, 1i64) }]);
    } else if tile == '-' && beam.dir.1 != 0 {
        new_beams.push(Beam { pos: beam.pos, dir: (-1, 0) });
        new_beams.push(Beam { pos: beam.pos, dir: (1, 0) });
        assert(added =~= seq![Beam { pos, dir: (-1i64, 0i64) }, Beam { pos, dir: (1i64, 0i64) }]);
    } else {
        new_beams.push(beam);
        assert(added =~= seq![beam]);
    }
}

/// How many tiles are energized by a beam that starts as `beam`: every beam
/// moves a tile at a time and is turned or split by what it finds there, and
/// a beam that leaves the grid, or enters a tile in a direction a beam has
/// entered it in before, stops.
pub fn count_energized(beam: Beam, map: &TileMap) -> (r: u64)
    requires
        grid_ok(map.grid()),
        map.grid().len() * map.grid()[0].len() <= u64::MAX,
        unit(beam.dir),
        i64::MIN <= beam.pos.0 + beam.dir.0 <= i64::MAX,
        i64::MIN <= beam.pos.1 + beam.dir.1 <= i64::MAX,
    ensures
        r == grid_count(map.grid(), beam, map.grid().len() as int),
{
    let ghost g = map.grid();
    let h = map.map.len();
    let w = map.map[0].len();
    assert(g[0] == map.map@[0]@);
    let mut emap: Vec<Vec<i32>> = Vec::new();
    while emap.len() < h
        invariant
            emap@.len() <= h,
            forall|y: int| 0 <= y < emap@.len() ==> (#[trigger] emap@[y])@.len() == w,
            forall|y: int, x: int| 0 <= y < emap@.len() && 0 <= x < w ==> #[trigger] emap@[y]@[x] == 0,
        decreases h - emap@.len(),
    {
        let mut row: Vec<i32> = Vec::new();
        while row.len() < w
            invariant
                row@.len() <= w,
                forall|x: int| 0 <= x < row@.len() ==> row@[x] == 0,
            decreases w - row@.len(),
        {
            row.push(0);
        }
        emap.push(row);
    }
    let mut beams: Vec<Beam> = Vec::new();
    let mut new_beams: Vec<Beam> = Vec::new();
    beams.push(beam);
    proof {
        let e = marks_of(emap@);
        assert forall|s: State| on_grid(g, s.0, s.1) && unit(s.2) implies !(#[trigger] marked(e, s)) by {
            assert(e[s.1][s.0] == 0);
            assert(0i32 & flag(dir_bit(s.2)) == 0) by (bit_vector);
        }
        assert(beams@ + new_beams@ =~= seq![beam]);
        assert(live(g, beam, beam)) by {
            if on_grid(g, entry(beam).0, entry(beam).1) {
                let p = seq![entry(beam)];
                assert(is_run(g, beam, p));
                assert(p.last() == entry(beam));
            }
        }
        assert forall|k: int| 0 <= k < 1 implies live(g, beam, #[trigger] seq![beam][k]) by {
            assert(seq![beam][k] == beam);
        }
        if on_grid(g, entry(beam).0, entry(beam).1) {
            assert(entry(seq![beam][0]) == entry(beam));
        }
        assert(search_ok(g, beam, e, beams@ + new_beams@));
    }
    while beams.len() > 0
        invariant
            g == map.grid(),
            grid_ok(g),
            unit(beam.dir),
            i64::MIN <= beam.pos.0 + beam.dir.0 <= i64::MAX,
            i64::MIN <= beam.pos.1 + beam.dir.1 <= i64::MAX,
            h == g.len(),
            w == g[0].len(),
            new_beams@.len() == 0,
            search_ok(g, beam, marks_of(emap@), beams@ + new_beams@),
        decreases grid_unset(marks_of(emap@)), beams@.len(),
    {
        let bcount = beams.len();
        let ghost unset0 = grid_unset(marks_of(emap@));
        proof {
            lemma_unset_nonneg(marks_of(emap@));
        }
        let mut bi: usize = 0;
        assert(beams@.skip(0) =~= beams@);
        while bi < bcount
            invariant
                g == map.grid(),
                grid_ok(g),
                unit(beam.dir),
                i64::MIN <= beam.pos.0 + beam.dir.0 <= i64::MAX,
                i64::MIN <= beam.pos.1 + beam.dir.1 <= i64::MAX,
                h == g.len(),
                w == g[0].len(),
                bcount == beams@.len(),
                bi <= bcount,
                search_ok(g, beam, marks_of(emap@), beams@.skip(bi as int) + new_beams@),
                grid_unset(marks_of(emap@)) <= unset0,
                new_beams@.len() > 0 ==> grid_unset(marks_of(emap@)) < unset0,
            decreases bcount - bi,
        {
            let ghost e = marks_of(emap@);
            let ghost rest = beams@.skip(bi + 1) + new_beams@;
            assert(beams@.skip(bi as int) + new_beams@ =~= seq![beams@[bi as int]] + rest);
            let q = beams[bi];
            assert(live(g, beam, q)) by {
                assert((beams@.skip(bi as int) + new_beams@)[0] == q);
            }
            let dirbit: u32 = if same_dir(q.dir, (1, 0)) {
                0
            } else if same_dir(q.dir, (0, 1)) {
                1
            } else if same_dir(q.dir, (-1, 0)) {
                2
            } else {
                3
            };
            assert(dirbit == dir_bit(q.dir));
            let mut b = q;
            b.step();
            if !map.in_range(b.pos) {
                proof {
                    lemma_case_skip(g, beam, e, q, rest);
                }
            } else {
                let y = b.pos.1 as usize;
                let x = b.pos.0 as usize;
                let m: i32 = 1i32 << dirbit;
                assert(m == flag(dirbit as int)) by {
                    assert(0 <= dirbit < 4 ==> (1i32 << dirbit) == (if dirbit == 0 { 1i32 } else if dirbit == 1 { 2i32 } else if dirbit == 2 { 4i32 } else { 8i32 })) by (bit_vector);
                }
                assert(e[y as int] == emap@[y as int]@);
                assert(e[y as int].len() == w);
                let cell = emap[y][x];
                if cell & m != 0 {
                    proof {
                        lemma_case_skip(g, beam, e, q, rest);
                    }
                } else {
                    let tile = map.tile(b.pos);
                    let mut row: Vec<i32> = Vec::new();
                    std::mem::swap(&mut row, &mut emap[y]);
                    row.set(x, cell | m);
                    std::mem::swap(&mut row, &mut emap[y]);
                    assert(marks_of(emap@) =~= with_mark(e, entry(q)));
                    proof {
                        lemma_case_mark(g, beam, e, q, rest, b.pos);
                    }
                    push_turned(b.pos, tile, b.dir, &mut new_beams);
                    assert(beams@.skip(bi + 1) + new_beams@ =~= rest + turned(b.pos, tile, q.dir));
                }
            }
            bi = bi + 1;
        }
        assert(beams@.skip(bi as int) =~= Seq::<Beam>::empty());
        assert(beams@.skip(bi as int) + new_beams@ =~= new_beams@);
        std::mem::swap(&mut beams, &mut new_beams);
        new_beams.clear();
        assert(beams@ + new_beams@ =~= beams@);
        proof {
            lemma_unset_nonneg(marks_of(emap@));
        }
    }
    proof {
        assert(beams@ + new_beams@ =~= Seq::<Beam>::empty());
    }
    let ghost e = marks_of(emap@);
    proof {
        assert forall|x: int, y: int| on_grid(g, x, y) implies #[trigger] energized(g, beam, x, y) == (e[y][x] != 0) by {
            lemma_nonzero(e[y][x]);
            let dirs = seq![(1i64, 0i64), (0i64, 1i64), (-1i64, 0i64), (0i64, -1i64)];
            if e[y][x] != 0 {
                let k = if e[y][x] & flag(0) != 0 { 0 } else if e[y][x] & flag(1) != 0 { 1 } else if e[y][x] & flag(2) != 0 { 2 } else { 3 };
                let d = dirs[k];
                assert(dir_bit(d) == k);
                assert(marked(e, (x, y, d)));
                assert(unit(d));
                assert(reached(g, beam, (x, y, d)));
            }
            if energized(g, beam, x, y) {
                let d = choose|d: (i64, i64)| unit(d) && reached(g, beam, (x, y, d));
                let p = choose|p: Seq<State>| is_run(g, beam, p) && p.last() == (x, y, d);
                lemma_run_marked(g, beam, e, p);
                assert(marked(e, (x, y, d)));
            }
        }
    }
    let mut result: u64 = 0;
    let mut y: usize = 0;
    while y < h
        invariant
            y <= h,
            h == g.len(),
            w == g[0].len(),
            grid_ok(g),
            e == marks_of(emap@),
            marks_ok(g, e),
            forall|x: int, y: int| on_grid(g, x, y) ==> #[trigger] energized(g, beam, x, y) == (e[y][x] != 0),
            result == grid_count(g, beam, y as int),
            result <= y * w,
            h * w <= u64::MAX,
        decreases h - y,
    {
        assert(e[y as int] == emap@[y as int]@);
        let row = &emap[y];
        let mut x: usize = 0;
        let ghost base = result;
        while x < w
            invariant
                x <= w,
                y < h,
                h == g.len(),
                w == g[0].len(),
                row@ == e[y as int],
                row@.len() == w,
                forall|x: int, y: int| on_grid(g, x, y) ==> #[trigger] energized(g, beam, x, y) == (e[y][x] != 0),
                base == grid_count(g, beam, y as int),
                base <= y * w,
                h * w <= u64::MAX,
                result == base + row_count(g, beam, y as int, x as int),
                row_count(g, beam, y as int, x as int) <= x,
            decreases w - x,
        {
            assert(energized(g, beam, x as int, y as int) == (e[y as int][x as int] != 0));
            if row[x] != 0 {
                assert(base + x + 1 <= (y + 1) * w) by (nonlinear_arith)
                    requires
                        base <= y * w,
                        x < w,
                ;
                assert((y + 1) * w <= h * w) by (nonlinear_arith)
                    requires
                        y < h,
                ;
                result = result + 1;
            }
            x = x + 1;
        }
        assert((y * w) + w == (y + 1) * w) by (nonlinear_arith);
        y = y + 1;
    }
    result
}

/// The tiles energized by a beam that starts as `b`.
pub open spec fn energy(g: Seq<Seq<char>>, b: Beam) -> nat {
    grid_count(g, b, g.len() as int)
}

pub open spec fn max_nat(a: nat, b: nat) -> nat {
    if a >= b {
        a
    } else {
        b
    }
}

/// The most tiles energized by a beam entering one of the first `k`
/// columns from above or from below.
pub open spec fn column_best(g: Seq<Seq<char>>, k: int) -> nat
    decreases k,
{
    if k <= 0 {
        0
    } else {
        let x = (k - 1) as i64;
        let a = energy(g, Beam { pos: (x, -1i64), dir: (0i64, 1i64) });
        let b = energy(g, Beam { pos: (x, g.len() as i64), dir: (0i64, -1i64) });
        max_nat(max_nat(column_best(g, k - 1), a), b)
    }
}

/// The most tiles energized by a beam entering one of the first `k` rows
/// from the left or from the right, or `base`.
pub open spec fn row_best(g: Seq<Seq<char>>, k: int, base: nat) -> nat
    decreases k,
{
    if k <= 0 {
        base
    } else {
        let y = (k - 1) as i64;
        let a = energy(g, Beam { pos: (-1i64, y), dir: (1i64, 0i64) });
        let b = energy(g, Beam { pos: (g[0].len() as i64, y), dir: (-1i64, 0i64) });
        max_nat(max_nat(row_best(g, k - 1, base), a), b)
    }
}

/// The most tiles a beam entering the grid from any edge energizes.
pub open spec fn best_energy(g: Seq<Seq<char>>) -> nat {
    row_best(g, g.len() as int, column_best(g, g[0].len() as int))
}

/// `b` is a beam that enters the grid from one of its edges, moving inward:
/// down from above a column, up from below it, right from the left of a
/// row, or left from the right of it.
pub open spec fn enters_from_edge(g: Seq<Seq<char>>, b: Beam) -> bool {
    let w = g[0].len() as int;
    let h = g.len() as int;
    ||| b.dir == (0i64, 1i64) && b.pos.1 == -1 && 0 <= b.pos.0 < w
    ||| b.dir == (0i64, -1i64) && b.pos.1 == h && 0 <= b.pos.0 < w
    ||| b.dir == (1i64, 0i64) && b.pos.0 == -1 && 0 <= b.pos.1 < h
    ||| b.dir == (-1i64, 0i64) && b.pos.0 == w && 0 <= b.pos.1 < h
}

proof fn lemma_column_best(g: Seq<Seq<char>>, k: int)
    requires
        0 <= k <= i64::MAX,
    ensures
        forall|b: Beam|
            (b.dir == (0i64, 1i64) && b.pos.1 == -1 || b.dir == (0i64, -1i64) && b.pos.1 == g.len() as i64)
                && 0 <= b.pos.0 < k ==> #[trigger] energy(g, b) <= column_best(g, k),
        k == 0 ==> column_best(g, k) == 0,
        k > 0 ==> exists|b: Beam|
            (b.dir == (0i64, 1i64) && b.pos.1 == -1 || b.dir == (0i64, -1i64) && b.pos.1 == g.len() as i64)
                && 0 <= b.pos.0 < k && #[trigger] energy(g, b) == column_best(g, k),
    decreases k,
{
    if k > 0 {
        lemma_column_best(g, k - 1);
        let x = (k - 1) as i64;
        let top = Beam { pos: (x, -1i64), dir: (0i64, 1i64) };
        let bottom = Beam { pos: (x, g.len() as i64), dir: (0i64, -1i64) };
        assert forall|b: Beam|
            (b.dir == (0i64, 1i64) && b.pos.1 == -1 || b.dir == (0i64, -1i64) && b.pos.1 == g.len() as i64)
                && 0 <= b.pos.0 < k implies #[trigger] energy(g, b) <= column_best(g, k) by {
            if b.pos.0 == x {
                assert(b == top || b == bottom);
            }
        }
        if column_best(g, k) == energy(g, top) {
        } else if column_best(g, k) == energy(g, bottom) {
        } else {
            assert(column_best(g, k) == column_best(g, k - 1));
        }
    }
}

proof fn lemma_row_best(g: Seq<Seq<char>>, k: int, base: nat)
    requires
        0 <= k <= i64::MAX,
    ensures
        base <= row_best(g, k, base),
        forall|b: Beam|
            (b.dir == (1i64, 0i64) && b.pos.0 == -1 || b.dir == (-1i64, 0i64) && b.pos.0 == g[0].len() as i64)
                && 0 <= b.pos.1 < k ==> #[trigger] energy(g, b) <= row_best(g, k, base),
        row_best(g, k, base) == base || exists|b: Beam|
            (b.dir == (1i64, 0i64) && b.pos.0 == -1 || b.dir == (-1i64, 0i64) && b.pos.0 == g[0].len() as i64)
                && 0 <= b.pos.1 < k && #[trigger] energy(g, b) == row_best(g, k, base),
    decreases k,
{
    if k > 0 {
        lemma_row_best(g, k - 1, base);
        let y = (k - 1) as i64;
        let left = Beam { pos: (-1i64, y), dir: (1i64, 0i64) };
        let right = Beam { pos: (g[0].len() as i64, y), dir: (-1i64, 0i64) };
        assert forall|b: Beam|
            (b.dir == (1i64, 0i64) && b.pos.0 == -1 || b.dir == (-1i64, 0i64) && b.pos.0 == g[0].len() as i64)
                && 0 <= b.pos.1 < k implies #[trigger] energy(g, b) <= row_best(g, k, base) by {
            if b.pos.1 == y {
                assert(b == left || b == right);
            }
        }
        if row_best(g, k, base) == energy(g, left) {
        } else if row_best(g, k, base) == energy(g, right) {
        } else {
            assert(row_best(g, k, base) == row_best(g, k - 1, base));
        }
    }
}

/// The best energy is the most that any beam entering the grid from an
/// edge energizes: no such beam energizes more tiles, and one of them
/// energizes exactly that many.
pub proof fn lemma_best_energy_is_max(g: Seq<Seq<char>>)
    requires
        grid_ok(g),
    ensures
        forall|b: Beam| enters_from_edge(g, b) ==> #[trigger] energy(g, b) <= best_energy(g),
        exists|b: Beam| enters_from_edge(g, b) && #[trigger] energy(g, b) == best_energy(g),
{
    let w = g[0].len() as int;
    let h = g.len() as int;
    lemma_column_best(g, w);
    let base = column_best(g, w);
    lemma_row_best(g, h, base);
    assert(g.len() as i64 == h && g[0].len() as i64 == w);
    assert forall|b: Beam| enters_from_edge(g, b) implies #[trigger] energy(g, b) <= best_energy(g) by {
        if b.dir == (0i64, 1i64) || b.dir == (0i64, -1i64) {
            assert(energy(g, b) <= base);
        } else {
            assert(energy(g, b) <= best_energy(g));
        }
    }
    if best_energy(g) == base {
        if w > 0 {
            let b = choose|b: Beam|
                (b.dir == (0i64, 1i64) && b.pos.1 == -1 || b.dir == (0i64, -1i64) && b.pos.1 == g.len() as i64)
                    && 0 <= b.pos.0 < w && #[trigger] energy(g, b) == column_best(g, w);
            assert(enters_from_edge(g, b));
        } else {
            // With no columns every row beam energizes nothing, as the best does.
            let b = Beam { pos: (-1i64, 0i64), dir: (1i64, 0i64) };
            assert(enters_from_edge(g, b));
            assert(energy(g, b) <= best_energy(g));
        }
    } else {
        let b = choose|b: Beam|
            (b.dir == (1i64, 0i64) && b.pos.0 == -1 || b.dir == (-1i64, 0i64) && b.pos.0 == g[0].len() as i64)
                && 0 <= b.pos.1 < h && #[trigger] energy(g, b) == row_best(g, h, base);
        assert(enters_from_edge(g, b));
    }
}

/// The rows of the contraption, each line trimmed.
pub open spec fn contraption(ls: Seq<Seq<char>>) -> Seq<Seq<char>> {
    ls.map_values(|l: Seq<char>| trim_spec(l))
}

/// Reads the contraption, which has a row and no row shorter than the
/// first, and finds the most tiles a beam entering it from an edge
/// energizes; `None` when a size does not fit in `i64` or the grid is too
/// large to count.
pub fn most_energized(data: &str) -> (r: Option<u64>)
    requires
        contraption(lines_spec(data@)).len() > 0,
        forall|y: int| 0 <= y < contraption(lines_spec(data@)).len() ==> (#[trigger] contraption(lines_spec(data@))[y]).len()
            >= contraption(lines_spec(data@))[0].len(),
    ensures
        match r {
            Some(v) => grid_ok(contraption(lines_spec(data@))) && v == best_energy(contraption(lines_spec(data@))),
            None => !grid_ok(contraption(lines_spec(data@))) || contraption(lines_spec(data@)).len()
                * contraption(lines_spec(data@))[0].len() > u64::MAX,
        },
{
    let chars = chars_of(data);
    let ls = lines(chars.as_slice());
    let ghost g = contraption(rows(ls@));
    assert(g == contraption(lines_spec(data@)));
    let mut map: Vec<Vec<char>> = Vec::new();
    let mut i: usize = 0;
    while i < ls.len()
        invariant
            i <= ls@.len(),
            g == contraption(rows(ls@)),
            map@.len() == i,
            forall|k: int| 0 <= k < i ==> (#[trigger] map@[k])@ == g[k],
        decreases ls@.len() - i,
    {
        assert(rows(ls@)[i as int] == ls@[i as int]@);
        map.push(trim(ls[i].as_slice()));
        i = i + 1;
    }
    let map = TileMap { map };
    assert(map.grid() =~= g);
    let ylen = map.map.len();
    if ylen == 0 {
        return None;
    }
    let xlen = map.map[0].len();
    assert(g[0] == map.map@[0]@);
    let mut k: usize = 0;
    while k < ylen
        invariant
            k <= ylen,
            ylen == g.len(),
            xlen == g[0].len(),
            map.grid() == g,
            g == contraption(lines_spec(data@)),
            forall|t: int| 0 <= t < k ==> (#[trigger] g[t]).len() >= xlen,
        decreases ylen - k,
    {
        assert(g[k as int] == map.map@[k as int]@);
        if map.map[k].len() < xlen {
            return None;
        }
        k = k + 1;
    }
    if (ylen as u64).checked_mul(xlen as u64).is_none() {
        return None;
    }
    if ylen as u64 >= i64::MAX as u64 || xlen as u64 >= i64::MAX as u64 {
        return None;
    }
    assert(grid_ok(g));
    let mut result: u64 = 0;
    let mut x: usize = 0;
    while x < xlen
        invariant
            x <= xlen,
            ylen == g.len(),
            xlen == g[0].len(),
            map.grid() == g,
            grid_ok(g),
            g.len() * g[0].len() <= u64::MAX,
            result == column_best(g, x as int),
        decreases xlen - x,
    {
        let a = count_energized(Beam { pos: (x as i64, -1), dir: (0, 1) }, &map);
        let b = count_energized(Beam { pos: (x as i64, ylen as i64), dir: (0, -1) }, &map);
        if a > result {
            result = a;
        }
        if b > result {
            result = b;
        }
        x = x + 1;
    }
    let ghost base = column_best(g, xlen as int);
    let mut y: usize = 0;
    while y < ylen
        invariant
            y <= ylen,
            ylen == g.len(),
            xlen == g[0].len(),
            map.grid() == g,
            grid_ok(g),
            g.len() * g[0].len() <= u64::MAX,
            base == column_best(g, xlen as int),
            result == row_best(g, y as int, base),
        decreases ylen - y,
    {
        let a = count_energized(Beam { pos: (-1, y as i64), dir: (1, 0) }, &map);
        let b = count_energized(Beam { pos: (xlen as i64, y as i64), dir: (-1, 0) }, &map);
        if a > result {
            result = a;
        }
        if b > result {
            result = b;
        }
        y = y + 1;
    }
    Some(result)
}

} // verus!
