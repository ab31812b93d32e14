//! Cube games: the fewest red, green and blue cubes each game needs, and the
//! games that a bag of 12 red, 13 green and 14 blue cubes makes possible.
use vstd::prelude::*;
use crate::text::{
    chars_of, first_occurrence, find_pat, lines, lines_spec, parse_i64, i64_literal, rows,
    slice_chars, split_pat, split_pat_spec,
};

verus! {

/// The largest number of cubes of each colour seen in one draw.
#[derive(Debug, Copy, Clone, PartialEq, Eq)]
pub struct Game {
    pub red: i32,
    pub green: i32,
    pub blue: i32,
}

impl Game {
    pub fn new() -> (g: Game)
        ensures
            g == (Game { red: 0, green: 0, blue: 0 }),
    {
        Game { red: 0, green: 0, blue: 0 }
    }

    /// Raises each colour to the draw's count where the draw shows more.
    pub fn record_draw(&mut self, r: i32, g: i32, b: i32)
        ensures
            final(self).red == if old(self).red >= r { old(self).red } else { r },
            final(self).green == if old(self).green >= g { old(self).green } else { g },
            final(self).blue == if old(self).blue >= b { old(self).blue } else { b },
    {
        self.red = if self.red >= r { self.red } else { r };
        self.green = if self.green >= g { self.green } else { g };
        self.blue = if self.blue >= b { self.blue } else { b };
    }

    /// Whether a bag of `r` red, `g` green and `b` blue cubes could have
    /// produced every draw.
    pub fn is_possible(&self, r: i32, g: i32, b: i32) -> (res: bool)
        ensures
            res == (self.red <= r && self.green <= g && self.blue <= b),
    {
        self.red <= r && self.green <= g && self.blue <= b
    }
}

pub open spec fn in_i32(v: int) -> bool {
    i32::MIN <= v <= i32::MAX
}

/// One `count colour` entry of a draw: the count it adds to red, green and
/// blue (an unknown colour adds nothing); `None` when it does not read.
pub open spec fn color_spec(c: Seq<char>) -> Option<(int, int, int)> {
    let parts = split_pat_spec(c, seq![' ']);
    if parts.len() < 2 {
        None
    } else {
        match i64_literal(parts[0]) {
            Some(n) => if !in_i32(n as int) {
                None
            } else if parts[1] == seq!['r', 'e', 'd'] {
                Some((n as int, 0, 0))
            } else if parts[1] == seq!['g', 'r', 'e', 'e', 'n'] {
                Some((0, n as int, 0))
            } else if parts[1] == seq!['b', 'l', 'u', 'e'] {
                Some((0, 0, n as int))
            } else {
                Some((0, 0, 0))
            },
            None => None,
        }
    }
}

/// The counts a draw adds up, entry by entry, with every running total an `i32`.
pub open spec fn draw_totals(cs: Seq<Seq<char>>) -> Option<(int, int, int)>
    decreases cs.len(),
{
    if cs.len() == 0 {
        Some((0, 0, 0))
    } else {
        match (draw_totals(cs.drop_last()), color_spec(cs.last())) {
            (Some(t), Some(c)) => if in_i32(t.0 + c.0) && in_i32(t.1 + c.1) && in_i32(t.2 + c.2) {
                Some((t.0 + c.0, t.1 + c.1, t.2 + c.2))
            } else {
                None
            },
            _ => None,
        }
    }
}

/// A draw: entries separated by `", "`.
pub open spec fn draw_spec(d: Seq<char>) -> Option<(int, int, int)> {
    draw_totals(split_pat_spec(d, seq![',', ' ']))
}

/// The game after recording draws `ds` one after another.
pub open spec fn game_after(ds: Seq<Seq<char>>) -> Option<Game>
    decreases ds.len(),
{
    if ds.len() == 0 {
        Some(Game { red: 0, green: 0, blue: 0 })
    } else {
        match (game_after(ds.drop_last()), draw_spec(ds.last())) {
            (Some(g), Some(t)) => Some(
                Game {
                    red: if g.red >= t.0 { g.red } else { t.0 as i32 },
                    green: if g.green >= t.1 { g.green } else { t.1 as i32 },
                    blue: if g.blue >= t.2 { g.blue } else { t.2 as i32 },
                },
            ),
            _ => None,
        }
    }
}

/// A game line `Game N: draw; draw; ...`: everything after the first `": "`
/// is the list of draws separated by `"; "`.
#[verifier::opaque]
pub open spec fn game_spec(line: Seq<char>) -> Option<Game> {
    match first_occurrence(line, seq![':', ' ']) {
        Some(i) => game_after(split_pat_spec(line.skip(i + 2), seq![';', ' '])),
        None => None,
    }
}

/// Reads one `count colour` entry.
pub fn parse_color(c: &[char]) -> (res: Option<(i32, i32, i32)>)
    ensures
        match res {
            Some(t) => color_spec(c@) == Some((t.0 as int, t.1 as int, t.2 as int)),
            None => color_spec(c@) is None,
        },
{
    let sp: Vec<char> = vec![' '];
    assert(sp@ =~= seq![' ']);
    let parts = split_pat(c, sp.as_slice());
    if parts.len() < 2 {
        return None;
    }
    assert(rows(parts@)[0] == parts@[0]@ && rows(parts@)[1] == parts@[1]@);
    let n = match parse_i64(parts[0].as_slice()) {
        Some(n) => n,
        None => {
            return None;
        },
    };
    if n < i32::MIN as i64 || n > i32::MAX as i64 {
        return None;
    }
    let n = n as i32;
    let name = &parts[1];
    let red: Vec<char> = vec!['r', 'e', 'd'];
    let green: Vec<char> = vec!['g', 'r', 'e', 'e', 'n'];
    let blue: Vec<char> = vec!['b', 'l', 'u', 'e'];
    assert(red@ =~= seq!['r', 'e', 'd']);
    assert(green@ =~= seq!['g', 'r', 'e', 'e', 'n']);
    assert(blue@ =~= seq!['b', 'l', 'u', 'e']);
    if crate::text::chars_equal(name, &red) {
        Some((n, 0, 0))
    } else if crate::text::chars_equal(name, &green) {
        Some((0, n, 0))
    } else if crate::text::chars_equal(name, &blue) {
        Some((0, 0, n))
    } else {
        Some((0, 0, 0))
    }
}

/// Reads a draw and adds up its entries.
pub fn parse_draw(d: &[char]) -> (res: Option<(i32, i32, i32)>)
    ensures
        match res {
            Some(t) => draw_spec(d@) == Some((t.0 as int, t.1 as int, t.2 as int)),
            None => draw_spec(d@) is None,
        },
{
    let sep: Vec<char> = vec![',', ' '];
    assert(sep@ =~= seq![',', ' ']);
    let colors = split_pat(d, sep.as_slice());
    let ghost cv = rows(colors@);
    let mut r: i32 = 0;
    let mut g: i32 = 0;
    let mut b: i32 = 0;
    let mut i: usize = 0;
    while i < colors.len()
        invariant
            i <= colors@.len(),
            cv == rows(colors@),
            cv == split_pat_spec(d@, seq![',', ' ']),
            draw_totals(cv.take(i as int)) == Some((r as int, g as int, b as int)),
        decreases colors@.len() - i,
    {
        assert(cv.take(i + 1).drop_last() =~= cv.take(i as int));
        assert(cv.take(i + 1).last() == colors@[i as int]@);
        match parse_color(colors[i].as_slice()) {
            None => {
                proof {
                    lemma_draw_totals_none(cv, i as int + 1);
                }
                return None;
            },
            Some((cr, cg, cb)) => {
                match (r.checked_add(cr), g.checked_add(cg), b.checked_add(cb)) {
                    (Some(nr), Some(ng), Some(nb)) => {
                        r = nr;
                        g = ng;
                        b = nb;
                    },
                    _ => {
                        proof {
                            lemma_draw_totals_none(cv, i as int + 1);
                        }
                        return None;
                    },
                }
            },
        }
        i = i + 1;
    }
    assert(cv.take(i as int) =~= cv);
    Some((r, g, b))
}

proof fn lemma_draw_totals_none(cs: Seq<Seq<char>>, k: int)
    requires
        0 <= k <= cs.len(),
        draw_totals(cs.take(k)) is None,
    ensures
        draw_totals(cs) is None,
    decreases cs.len() - k,
{
    if k < cs.len() {
        assert(cs.take(k + 1).drop_last() =~= cs.take(k));
        lemma_draw_totals_none(cs, k + 1);
    } else {
        assert(cs.take(k) =~= cs);
    }
}

proof fn lemma_game_after_none(ds: Seq<Seq<char>>, k: int)
    requires
        0 <= k <= ds.len(),
        game_after(ds.take(k)) is None,
    ensures
        game_after(ds) is None,
    decreases ds.len() - k,
{
    if k < ds.len() {
        assert(ds.take(k + 1).drop_last() =~= ds.take(k));
        lemma_game_after_none(ds, k + 1);
    } else {
        assert(ds.take(k) =~= ds);
    }
}

/// Reads a game line and records all its draws.
pub fn parse_game(line: &[char]) -> (res: Option<Game>)
    ensures
        res == game_spec(line@),
{
    reveal(game_spec);
    let sep: Vec<char> = vec![':', ' '];
    assert(sep@ =~= seq![':', ' ']);
    let i = match find_pat(line, sep.as_slice(), 0) {
        Some(i) => i,
        None => {
            assert(first_occurrence(line@, seq![':', ' ']) is None) by {
                if exists|k: int| crate::text::occurs_at(line@, seq![':', ' '], k) {
                    let k = choose|k: int| crate::text::occurs_at(line@, seq![':', ' '], k);
                    assert(0 <= k);
                }
            }
            return None;
        },
    };
    proof {
        let w = choose|w: int|
            crate::text::occurs_at(line@, seq![':', ' '], w) && forall|k: int|
                0 <= k < w ==> !crate::text::occurs_at(line@, seq![':', ' '], k);
        assert(w == i) by {
            if w < i {
            } else if w > i {
                assert(!crate::text::occurs_at(line@, seq![':', ' '], i as int));
            }
        }
    }
    let len = line.len();
    assert(i + sep@.len() <= line@.len());
    assert(i + 2 <= len);
    let rest = slice_chars(line, i + 2, len);
    assert(rest@ =~= line@.skip(i + 2));
    let dsep: Vec<char> = vec![';', ' '];
    assert(dsep@ =~= seq![';', ' ']);
    let draws = split_pat(rest.as_slice(), dsep.as_slice());
    let ghost dv = rows(draws@);
    let mut bag = Game::new();
    let mut k: usize = 0;
    while k < draws.len()
        invariant
            k <= draws@.len(),
            dv == rows(draws@),
            dv == split_pat_spec(line@.skip(i + 2), seq![';', ' ']),
            first_occurrence(line@, seq![':', ' ']) == Some(i as int),
            game_after(dv.take(k as int)) == Some(bag),
        decreases draws@.len() - k,
    {
        assert(dv.take(k + 1).drop_last() =~= dv.take(k as int));
        assert(dv.take(k + 1).last() == draws@[k as int]@);
        match parse_draw(draws[k].as_slice()) {
            None => {
                proof {
                    lemma_game_after_none(dv, k as int + 1);
                    reveal(game_spec);
                }
                return None;
            },
            Some((r, g, b)) => {
                let ghost old_bag = bag;
                bag.record_draw(r, g, b);
                proof {
                    let ds = dv.take(k + 1);
                    assert(game_after(ds.drop_last()) == Some(old_bag));
                    assert(draw_spec(ds.last()) == Some((r as int, g as int, b as int)));
                    assert(game_after(ds) == Some(bag));
                }
            },
        }
        k = k + 1;
    }
    assert(dv.take(k as int) =~= dv);
    Some(bag)
}

/// The sum of the (1-based) numbers of the games in lines `ls` that a bag of
/// 12 red, 13 green and 14 blue cubes makes possible.
pub open spec fn possible_sum(ls: Seq<Seq<char>>) -> int
    decreases ls.len(),
{
    if ls.len() == 0 {
        0
    } else {
        let g = game_spec(ls.last())->0;
        possible_sum(ls.drop_last()) + if g.red <= 12 && g.green <= 13 && g.blue <= 14 {
            ls.len() as int
        } else {
            0
        }
    }
}

/// Every line reads as a game.
pub open spec fn all_games(ls: Seq<Seq<char>>) -> bool {
    forall|i: int| 0 <= i < ls.len() ==> (#[trigger] game_spec(ls[i])) is Some
}

/// The sum of the numbers of the possible games, every line reading as a
/// game; `None` when the sum does not fit in an `i32`.
pub fn possible_games_total(data: &str) -> (res: Option<i32>)
    requires
        all_games(lines_spec(data@)),
    ensures
        match res {
            Some(v) => all_games(lines_spec(data@)) && v == possible_sum(lines_spec(data@)),
            None => !all_games(lines_spec(data@)) || !in_i32(possible_sum(lines_spec(data@))),
        },
{
    let chars = chars_of(data);
    let ls = lines(chars.as_slice());
    let ghost lv = rows(ls@);
    let mut sum: i32 = 0;
    let mut n: usize = 0;
    while n < ls.len()
        invariant
            n <= ls@.len(),
            lv == rows(ls@),
            lv == lines_spec(data@),
            all_games(lv.take(n as int)),
            sum == possible_sum(lv.take(n as int)),
            0 <= sum,
        decreases ls@.len() - n,
    {
        assert(lv[n as int] == ls@[n as int]@);
        assert(lv.take(n + 1).drop_last() =~= lv.take(n as int));
        assert(lv.take(n + 1).last() == lv[n as int]);
        let game = match parse_game(ls[n].as_slice()) {
            Some(g) => g,
            None => {
                assert(!all_games(lv)) by {
                    assert(game_spec(lv[n as int]) is None);
                }
                return None;
            },
        };
        assert(all_games(lv.take(n + 1))) by {
            assert forall|k: int| 0 <= k < n + 1 implies (#[trigger] game_spec(lv.take(n + 1)[k])) is Some by {
                if k < n {
                    assert(lv.take(n + 1)[k] == lv.take(n as int)[k]);
                }
            }
        }
        if game.is_possible(12, 13, 14) {
            if n >= 2147483647 {
                proof {
                    lemma_possible_sum_grows(lv, n as int + 1);
                }
                return None;
            }
            let num = (n as i32) + 1;
            match sum.checked_add(num) {
                Some(t) => {
                    sum = t;
                },
                None => {
                    proof {
                        lemma_possible_sum_grows(lv, n as int + 1);
                    }
                    return None;
                },
            }
        }
        n = n + 1;
    }
    assert(lv.take(n as int) =~= lv);
    Some(sum)
}

proof fn lemma_possible_sum_grows(ls: Seq<Seq<char>>, k: int)
    requires
        0 <= k <= ls.len(),
    ensures
        possible_sum(ls.take(k)) <= possible_sum(ls),
    decreases ls.len() - k,
{
    if k < ls.len() {
        assert(ls.take(k + 1).drop_last() =~= ls.take(k));
        lemma_possible_sum_grows(ls, k + 1);
    } else {
        assert(ls.take(k) =~= ls);
    }
}

} // verus!
